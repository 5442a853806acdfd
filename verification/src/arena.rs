//! The mathematical model of the value table: its entries, its frontier, and
//! the rule by which one generation follows from the last.
use crate::order::{all_numeric, equal, grounded, le, lt, zero_form, Form};
use vstd::prelude::*;

verus! {

/// Every value created so far, the same values listed from least to greatest,
/// and the number of generations that have been added to the seed.
pub struct Arena {
    pub entries: Seq<Form>,
    pub line: Seq<int>,
    pub day: nat,
}

/// The forms that one generation adds to a frontier `line`: one between each
/// pair of neighbours, then one above the greatest, then one below the least.
pub open spec fn fresh(line: Seq<int>) -> Seq<Form> {
    Seq::new(
        line.len() + 1,
        |j: int|
            if j < line.len() - 1 {
                Form { left: Some(line[j]), right: Some(line[j + 1]) }
            } else if j == line.len() - 1 {
                Form { left: Some(line[j]), right: None }
            } else {
                Form { left: None, right: Some(line[0]) }
            },
    )
}

/// The frontier after a generation whose forms were stored from position
/// `base` on: the new least value, then every old value followed by the new
/// value just above it.
pub open spec fn interleaved(line: Seq<int>, base: int) -> Seq<int> {
    Seq::new(
        2 * line.len() + 1,
        |p: int|
            if p == 0 {
                base + line.len()
            } else if p % 2 == 1 {
                line[(p - 1) / 2]
            } else {
                base + (p - 2) / 2
            },
    )
}

impl Arena {
    /// The table at day 0: the identity element alone.
    pub open spec fn seed() -> Arena {
        Arena { entries: seq![zero_form()], line: seq![0int], day: 0 }
    }

    /// The table one generation later.
    pub open spec fn grow(self) -> Arena {
        Arena {
            entries: self.entries + fresh(self.line),
            line: interleaved(self.line, self.entries.len() as int),
            day: self.day + 1,
        }
    }

    /// The table `n` generations later.
    pub open spec fn grown(self, n: nat) -> Arena
        decreases n,
    {
        if n == 0 {
            self
        } else {
            self.grown((n - 1) as nat).grow()
        }
    }

    /// `later` is this table after some number of generations.
    pub open spec fn reaches(self, later: Arena) -> bool {
        exists|n: nat| later == #[trigger] self.grown(n)
    }

    /// The number of values in the table.
    pub open spec fn len(self) -> int {
        self.entries.len() as int
    }

    /// `i` is the identity of a stored value.
    pub open spec fn has(self, i: int) -> bool {
        0 <= i < self.entries.len()
    }

    /// The value `i` stands at position `p` of the frontier.
    pub open spec fn at(self, p: int, i: int) -> bool {
        0 <= p < self.line.len() && self.line[p] == i
    }

    /// The value `i` stands somewhere on the frontier.
    pub open spec fn on_line(self, i: int) -> bool {
        exists|p: int| #[trigger] self.at(p, i)
    }

    /// Some stored value equals the form `c`.
    pub open spec fn holds(self, c: Form) -> bool {
        exists|i: int| self.has(i) && equal(self.entries, c, #[trigger] self.entries[i])
    }

    /// The identity of the stored value that equals the form `c`, if there is
    /// one.
    pub open spec fn lookup(self, c: Form) -> Option<int> {
        if self.holds(c) {
            Some(choose|i: int| self.has(i) && equal(self.entries, c, #[trigger] self.entries[i]))
        } else {
            None
        }
    }

    /// The table after a request for the form `c`: unchanged where `c` has a
    /// stored equal, one generation later where it has none.
    pub open spec fn settled(self, c: Form) -> Arena {
        if self.holds(c) {
            self
        } else {
            self.grow()
        }
    }

    /// The order between two stored values.
    pub open spec fn id_le(self, i: int, j: int) -> bool {
        le(self.entries, self.entries[i], self.entries[j])
    }

    /// The strict order between two stored values.
    pub open spec fn id_lt(self, i: int, j: int) -> bool {
        lt(self.entries, self.entries[i], self.entries[j])
    }

    /// The frontier is strictly increasing.
    pub open spec fn sorted(self) -> bool {
        forall|p: int, q: int|
            0 <= p < q < self.line.len() ==> self.id_lt(
                #[trigger] self.line[p],
                #[trigger] self.line[q],
            )
    }

    /// The table is the seed after as many generations as its day counts.
    #[verifier::opaque]
    pub open spec fn canonical(self) -> bool {
        self == Arena::seed().grown(self.day)
    }

    /// The invariant of the table: it is the seed after as many generations
    /// as its day counts, operands precede the forms that name them, every
    /// form is numeric, and the frontier lists every stored value in strictly
    /// increasing order.
    pub open spec fn wf(self) -> bool {
        &&& self.canonical()
        &&& self.line.len() == self.entries.len()
        &&& self.day < self.entries.len()
        &&& self.entries[0] == zero_form()
        &&& grounded(self.entries)
        &&& all_numeric(self.entries)
        &&& forall|p: int| 0 <= p < self.line.len() ==> self.has(#[trigger] self.line[p])
        &&& forall|i: int| self.has(i) ==> #[trigger] self.on_line(i)
        &&& self.sorted()
    }
}

/// The seed is well formed.
pub proof fn lemma_seed_wf()
    ensures
        Arena::seed().wf(),
{
    let a = Arena::seed();
    assert(a.canonical()) by {
        reveal(Arena::canonical);
        assert(a == a.grown(0));
    }
    assert(a.at(0, 0));
    assert forall|i: int| a.has(i) implies #[trigger] a.on_line(i) by {
        assert(a.at(0, i));
    }
}

} // verus!
