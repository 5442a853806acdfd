//! The value table: constructions stored by position, the frontier that lists
//! them in order, and the identities handed out for them.
use crate::arena::{fresh, interleaved, lemma_seed_wf, Arena};
use crate::error::Error;
use crate::growth::{lemma_grow_keeps_order, lemma_grow_shape, lemma_grow_wf};
use crate::identity::{
    lemma_fits_own_place, lemma_held_iff_numeric, lemma_identities_totally_ordered,
    lemma_lookup_is, lemma_match_stable,
};
use crate::order::{equal, extends, grounded, le, numeric, Form};
use std::cmp::Ordering;
use std::collections::VecDeque;
use vstd::prelude::*;

verus! {

/// An operand as the model sees it.
pub open spec fn operand(o: Option<usize>) -> Option<int> {
    match o {
        Some(i) => Some(i as int),
        None => None,
    }
}

/// A construction `{ left | right }` over positions of a table.
#[derive(Copy, Clone, Debug)]
pub struct RawSurreal {
    left: Option<usize>,
    right: Option<usize>,
}

impl View for RawSurreal {
    type V = Form;

    closed spec fn view(&self) -> Form {
        Form { left: operand(self.left), right: operand(self.right) }
    }
}

/// The forms that a list of constructions stands for.
pub open spec fn forms(list: Seq<RawSurreal>) -> Seq<Form> {
    list.map_values(|r: RawSurreal| r@)
}

/// The positions of a frontier as the model sees them.
pub open spec fn places(line: Seq<usize>) -> Seq<int> {
    line.map_values(|i: usize| i as int)
}

impl RawSurreal {
    /// The construction `{ left | right }`.
    pub fn new(left: Option<usize>, right: Option<usize>) -> (raw: RawSurreal)
        ensures
            raw@ == (Form { left: operand(left), right: operand(right) }),
    {
        RawSurreal { left, right }
    }

    /// The left operand.
    pub fn left(&self) -> (l: Option<usize>)
        ensures
            operand(l) == self@.left,
    {
        self.left
    }

    /// The right operand.
    pub fn right(&self) -> (r: Option<usize>)
        ensures
            operand(r) == self@.right,
    {
        self.right
    }

    /// Whether `self` is at most `other`, both read against `list`.
    pub fn less_than(&self, other: &RawSurreal, list: &Vec<RawSurreal>) -> (b: bool)
        requires
            grounded(forms(list@)),
            self@.fits(list.len() as int),
            other@.fits(list.len() as int),
        ensures
            b == le(forms(list@), self@, other@),
        decreases self@.rank() + other@.rank(),
    {
        let ghost t = forms(list@);
        let above_left = match self.left {
            None => true,
            Some(l) => {
                assert(t[l as int].fits(l as int));
                !other.less_than(&list[l], list)
            },
        };
        if !above_left {
            return false;
        }
        match other.right {
            None => true,
            Some(r) => {
                assert(t[r as int].fits(r as int));
                !list[r].less_than(self, list)
            },
        }
    }

    /// Whether `self` and `other` denote the same value.
    pub fn equal(&self, other: &RawSurreal, list: &Vec<RawSurreal>) -> (b: bool)
        requires
            grounded(forms(list@)),
            self@.fits(list.len() as int),
            other@.fits(list.len() as int),
        ensures
            b == equal(forms(list@), self@, other@),
    {
        self.less_than(other, list) && other.less_than(self, list)
    }
}

/// The table of every value created so far.
pub struct SurrealNumbers {
    numbers_line: VecDeque<usize>,
    numbers_by_day: Vec<RawSurreal>,
    day: usize,
}

impl View for SurrealNumbers {
    type V = Arena;

    closed spec fn view(&self) -> Arena {
        Arena {
            entries: forms(self.numbers_by_day@),
            line: places(self.numbers_line@),
            day: self.day as nat,
        }
    }
}

impl SurrealNumbers {
    /// The table at day 0, which holds the identity element alone.
    pub fn new() -> (table: SurrealNumbers)
        ensures
            table@ == Arena::seed(),
            table@.wf(),
    {
        let mut numbers_line: VecDeque<usize> = VecDeque::new();
        numbers_line.push_back(0);
        let mut numbers_by_day: Vec<RawSurreal> = Vec::new();
        numbers_by_day.push(RawSurreal::new(None, None));
        let table = SurrealNumbers { numbers_line, numbers_by_day, day: 0 };
        proof {
            lemma_seed_wf();
            assert(table@.entries =~= Arena::seed().entries);
            assert(table@.line =~= Arena::seed().line);
        }
        table
    }

    /// Adds one generation: a value between each pair of neighbours on the
    /// frontier, one above them all and one below them all. Every identity
    /// stays what it was, and stands to every other as it stood.
    pub fn generate_next_day(&mut self)
        requires
            old(self)@.wf(),
        ensures
            final(self)@ == old(self)@.grow(),
            final(self)@.wf(),
            extends(final(self)@.entries, old(self)@.entries),
            forall|i: int, j: int|
                old(self)@.has(i) && old(self)@.has(j) ==> #[trigger] final(self)@.id_le(i, j)
                    == old(self)@.id_le(i, j),
    {
        let ghost before = self@;
        proof {
            lemma_grow_wf(before);
            lemma_grow_shape(before);
            assert forall|i: int, j: int|
                before.has(i) && before.has(j) implies #[trigger] before.grow().id_le(i, j)
                == before.id_le(i, j) by {
                lemma_grow_keeps_order(before, i, j);
            }
        }
        let base_length = self.numbers_by_day.len();
        let k = self.numbers_line.len();
        self.day += 1;

        let mut new_numbers: Vec<RawSurreal> = Vec::new();
        let mut j: usize = 0;
        while j + 1 < k
            invariant
                k == self.numbers_line.len(),
                k >= 1,
                j < k,
                new_numbers.len() == j,
                places(self.numbers_line@) == before.line,
                forall|i: int|
                    0 <= i < j ==> (#[trigger] new_numbers@[i])@ == fresh(before.line)[i],
            decreases k - j,
        {
            let below = self.numbers_line[j];
            let above = self.numbers_line[j + 1];
            new_numbers.push(RawSurreal::new(Some(below), Some(above)));
            j += 1;
        }
        let greatest = self.numbers_line[k - 1];
        let least = self.numbers_line[0];
        new_numbers.push(RawSurreal::new(Some(greatest), None));
        new_numbers.push(RawSurreal::new(None, Some(least)));
        assert(forms(new_numbers@) =~= fresh(before.line));
        self.numbers_by_day.append(&mut new_numbers);
        let total = self.numbers_by_day.len();
        assert(forms(self.numbers_by_day@) =~= before.grow().entries);

        let mut line: VecDeque<usize> = VecDeque::new();
        let mut j: usize = 0;
        while j < k
            invariant
                k == self.numbers_line.len(),
                j <= k,
                total == base_length + k + 1,
                line@.len() == 2 * j,
                places(self.numbers_line@) == before.line,
                forall|p: int|
                    0 <= p < 2 * j ==> (#[trigger] line@[p]) as int == interleaved(
                        before.line,
                        base_length as int,
                    )[p + 1],
            decreases k - j,
        {
            let old_value = self.numbers_line[j];
            line.push_back(old_value);
            line.push_back(base_length + j);
            j += 1;
        }
        line.push_front(total - 1);
        self.numbers_line = line;
        assert(places(self.numbers_line@) =~= before.grow().line);
    }

    /// The construction stored at position `index`.
    pub fn index(&self, index: usize) -> (raw: &RawSurreal)
        requires
            self@.has(index as int),
        ensures
            raw@ == self@.entries[index as int],
    {
        &self.numbers_by_day[index]
    }

    /// Every construction stored so far, by position.
    pub fn numbers(&self) -> (list: &Vec<RawSurreal>)
        ensures
            forms(list@) == self@.entries,
    {
        &self.numbers_by_day
    }

    /// The number of generations added to the seed.
    pub fn day(&self) -> (day: usize)
        ensures
            day == self@.day,
    {
        self.day
    }

    /// The stored constructions from least to greatest.
    pub fn number_line(&self) -> (line: Vec<&RawSurreal>)
        requires
            self@.wf(),
        ensures
            line.len() == self@.line.len(),
            forall|p: int|
                0 <= p < line.len() ==> (#[trigger] line@[p])@ == self@.entries[self@.line[p]],
    {
        let mut line: Vec<&RawSurreal> = Vec::new();
        let k = self.numbers_line.len();
        let mut p: usize = 0;
        while p < k
            invariant
                self@.wf(),
                k == self.numbers_line.len(),
                p <= k,
                line.len() == p,
                forall|q: int|
                    0 <= q < p ==> (#[trigger] line@[q])@ == self@.entries[self@.line[q]],
            decreases k - p,
        {
            let at = self.numbers_line[p];
            assert(self@.has(self@.line[p as int]));
            line.push(&self.numbers_by_day[at]);
            p += 1;
        }
        line
    }

    /// The identities of the stored values from least to greatest.
    pub fn frontier(&self) -> (line: Vec<usize>)
        ensures
            places(line@) == self@.line,
    {
        let mut line: Vec<usize> = Vec::new();
        let k = self.numbers_line.len();
        let mut p: usize = 0;
        while p < k
            invariant
                k == self.numbers_line.len(),
                p <= k,
                line.len() == p,
                forall|q: int| 0 <= q < p ==> #[trigger] line@[q] == self.numbers_line@[q],
            decreases k - p,
        {
            line.push(self.numbers_line[p]);
            p += 1;
        }
        assert(places(line@) =~= self@.line);
        line
    }

    /// The first position from `from` on whose value equals `raw`.
    fn scan(&self, raw: &RawSurreal, from: usize) -> (found: Option<usize>)
        requires
            self@.wf(),
            raw@.fits(self@.len()),
            from <= self@.len(),
        ensures
            found matches Some(i) ==> from <= i && self@.has(i as int) && equal(
                self@.entries,
                raw@,
                self@.entries[i as int],
            ),
            found is None ==> forall|j: int|
                from <= j < self@.len() ==> !equal(
                    self@.entries,
                    raw@,
                    #[trigger] self@.entries[j],
                ),
    {
        let n = self.numbers_by_day.len();
        let mut idx = from;
        while idx < n
            invariant
                self@.wf(),
                raw@.fits(self@.len()),
                n == self@.len(),
                from <= idx <= n,
                forall|j: int|
                    from <= j < idx ==> !equal(self@.entries, raw@, #[trigger] self@.entries[j]),
            decreases n - idx,
        {
            assert(self@.entries[idx as int].fits(idx as int));
            if raw.equal(&self.numbers_by_day[idx], &self.numbers_by_day) {
                return Some(idx);
            }
            idx += 1;
        }
        None
    }
}

/// The identity of a stored value.
#[derive(Copy, Clone, Debug, PartialEq, Eq, Structural)]
pub struct Surreal {
    index: usize,
}

impl View for Surreal {
    type V = int;

    closed spec fn view(&self) -> int {
        self.index as int
    }
}

/// The identity behind an optional operand.
pub open spec fn identity(o: Option<Surreal>) -> Option<int> {
    match o {
        Some(s) => Some(s@),
        None => None,
    }
}

/// The form `{ left | right }` over two optional identities.
pub open spec fn construction(left: Option<Surreal>, right: Option<Surreal>) -> Form {
    Form { left: identity(left), right: identity(right) }
}

impl Surreal {
    /// The identity of the stored value that equals `{ left | right }`.
    ///
    /// Where no stored value equals it, the table gains one generation
    /// first. A numeric construction over identities of the table always
    /// finds its equal by then; one that is not numeric never has one, and is
    /// refused, as is one that names an identity that the table lacks.
    pub fn new(left: Option<Surreal>, right: Option<Surreal>, table: &mut SurrealNumbers) -> (found:
        Result<Surreal, Error>)
        requires
            old(table)@.wf(),
        ensures
            final(table)@.wf(),
            final(table)@ == if construction(left, right).fits(old(table)@.len()) {
                old(table)@.settled(construction(left, right))
            } else {
                old(table)@
            },
            found is Ok <==> construction(left, right).fits(old(table)@.len()) && numeric(
                old(table)@.entries,
                construction(left, right),
            ),
            found matches Ok(s) ==> final(table)@.lookup(construction(left, right)) == Some(s@),
            found matches Err(e) ==> e == Error::ArenaInvariantViolation,
            found is Err && construction(left, right).fits(old(table)@.len())
                ==> final(table)@.lookup(construction(left, right)) is None,
    {
        let ghost c = construction(left, right);
        let ghost before = table@;
        let stored = table.numbers_by_day.len();
        let left_fits = match left {
            Some(s) => s.index < stored,
            None => true,
        };
        let right_fits = match right {
            Some(s) => s.index < stored,
            None => true,
        };
        if !left_fits || !right_fits {
            return Err(Error::ArenaInvariantViolation);
        }
        let raw = RawSurreal::new(
            match left {
                Some(s) => Some(s.index),
                None => None,
            },
            match right {
                Some(s) => Some(s.index),
                None => None,
            },
        );
        assert(raw@ == c);
        proof {
            lemma_held_iff_numeric(before, c);
        }
        if let Some(index) = table.scan(&raw, 0) {
            proof {
                lemma_lookup_is(before, c, index as int);
            }
            return Ok(Surreal { index });
        }
        let scanned = table.numbers_by_day.len();
        table.generate_next_day();
        proof {
            lemma_grow_shape(before);
            assert forall|j: int| 0 <= j < scanned implies !equal(
                table@.entries,
                c,
                #[trigger] table@.entries[j],
            ) by {
                assert(!equal(before.entries, c, before.entries[j]));
                lemma_match_stable(before, c, j);
            }
        }
        match table.scan(&raw, scanned) {
            Some(index) => {
                proof {
                    lemma_lookup_is(table@, c, index as int);
                }
                Ok(Surreal { index })
            },
            None => Err(Error::ArenaInvariantViolation),
        }
    }

    /// The position of the value in the table.
    pub fn index(&self) -> (index: usize)
        ensures
            index == self@,
    {
        self.index
    }

    /// How the value stands to `other`, where the table holds both.
    pub fn partial_cmp(&self, other: &Surreal, table: &SurrealNumbers) -> (o: Option<Ordering>)
        requires
            table@.wf(),
        ensures
            o is Some <==> table@.has(self@) && table@.has(other@),
            match o {
                Some(Ordering::Less) => table@.id_lt(self@, other@),
                Some(Ordering::Equal) => self@ == other@,
                Some(Ordering::Greater) => table@.id_lt(other@, self@),
                None => true,
            },
    {
        let stored = table.numbers_by_day.len();
        if self.index >= stored || other.index >= stored {
            return None;
        }
        let self_raw = &table.numbers_by_day[self.index];
        let other_raw = &table.numbers_by_day[other.index];
        proof {
            lemma_identities_totally_ordered(table@, self@, other@);
            lemma_fits_own_place(table@, self@);
            lemma_fits_own_place(table@, other@);
        }
        let le = self_raw.less_than(other_raw, &table.numbers_by_day);
        let ge = other_raw.less_than(self_raw, &table.numbers_by_day);
        Some(
            if le && ge {
                Ordering::Equal
            } else if le {
                Ordering::Less
            } else {
                Ordering::Greater
            },
        )
    }

    /// How the value stands to `other`.
    pub fn cmp(&self, other: &Surreal, table: &SurrealNumbers) -> (o: Ordering)
        requires
            table@.wf(),
            table@.has(self@),
            table@.has(other@),
        ensures
            match o {
                Ordering::Less => table@.id_lt(self@, other@),
                Ordering::Equal => self@ == other@,
                Ordering::Greater => table@.id_lt(other@, self@),
            },
    {
        match self.partial_cmp(other, table) {
            Some(o) => o,
            None => Ordering::Equal,
        }
    }
}

} // verus!
