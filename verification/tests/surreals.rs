use hackenbush::error::Error;
use hackenbush::surreals::{RawSurreal, Surreal, SurrealNumbers};
use std::cmp::Ordering;

#[test]
fn seed_holds_zero_alone() {
    let table = SurrealNumbers::new();
    assert_eq!(table.numbers().len(), 1);
    assert_eq!(table.day(), 0);
    assert_eq!(table.frontier(), vec![0]);
    assert_eq!(table.numbers()[0].left(), None);
    assert_eq!(table.numbers()[0].right(), None);
}

#[test]
fn first_generation_adds_one_and_minus_one() {
    let mut table = SurrealNumbers::new();
    table.generate_next_day();
    assert_eq!(table.day(), 1);
    assert_eq!(table.numbers().len(), 3);
    // position 1 is { 0 | }, position 2 is { | 0 }
    assert_eq!(table.numbers()[1].left(), Some(0));
    assert_eq!(table.numbers()[1].right(), None);
    assert_eq!(table.numbers()[2].left(), None);
    assert_eq!(table.numbers()[2].right(), Some(0));
    assert_eq!(table.frontier(), vec![2, 0, 1]);
}

#[test]
fn second_generation_interleaves() {
    let mut table = SurrealNumbers::new();
    table.generate_next_day();
    table.generate_next_day();
    assert_eq!(table.numbers().len(), 7);
    assert_eq!(table.frontier(), vec![6, 2, 3, 0, 4, 1, 5]);
    let n = table.numbers();
    assert_eq!((n[3].left(), n[3].right()), (Some(2), Some(0)));
    assert_eq!((n[4].left(), n[4].right()), (Some(0), Some(1)));
    assert_eq!((n[5].left(), n[5].right()), (Some(1), None));
    assert_eq!((n[6].left(), n[6].right()), (None, Some(2)));
}

#[test]
fn intern_of_nothing_is_zero() {
    let mut table = SurrealNumbers::new();
    let zero = Surreal::new(None, None, &mut table).unwrap();
    assert_eq!(zero.index(), 0);
    assert_eq!(table.day(), 0);
}

#[test]
fn intern_grows_once_for_one() {
    let mut table = SurrealNumbers::new();
    let zero = Surreal::new(None, None, &mut table).unwrap();
    let one = Surreal::new(Some(zero), None, &mut table).unwrap();
    assert_eq!(one.index(), 1);
    assert_eq!(table.day(), 1);
    let minus_one = Surreal::new(None, Some(zero), &mut table).unwrap();
    assert_eq!(minus_one.index(), 2);
    assert_eq!(table.day(), 1);
    assert_eq!(one.cmp(&zero, &table), Ordering::Greater);
    assert_eq!(zero.cmp(&one, &table), Ordering::Less);
    assert_eq!(minus_one.cmp(&one, &table), Ordering::Less);
    assert_eq!(one.cmp(&one, &table), Ordering::Equal);
    assert_eq!(one.partial_cmp(&minus_one, &table), Some(Ordering::Greater));
}

#[test]
fn intern_finds_the_simplest_value_between() {
    let mut table = SurrealNumbers::new();
    let zero = Surreal::new(None, None, &mut table).unwrap();
    let one = Surreal::new(Some(zero), None, &mut table).unwrap();
    let minus_one = Surreal::new(None, Some(zero), &mut table).unwrap();
    // { -1 | 1 } is zero, and needs no new generation
    let between = Surreal::new(Some(minus_one), Some(one), &mut table).unwrap();
    assert_eq!(between, zero);
    assert_eq!(table.day(), 1);
    // { 0 | 1 } is one half, born on day 2
    let half = Surreal::new(Some(zero), Some(one), &mut table).unwrap();
    assert_eq!(half.index(), 4);
    assert_eq!(table.day(), 2);
    assert_eq!(half.cmp(&zero, &table), Ordering::Greater);
    assert_eq!(half.cmp(&one, &table), Ordering::Less);
}

#[test]
fn intern_twice_gives_the_same_identity() {
    let mut table = SurrealNumbers::new();
    let zero = Surreal::new(None, None, &mut table).unwrap();
    let one = Surreal::new(Some(zero), None, &mut table).unwrap();
    let first = Surreal::new(Some(zero), Some(one), &mut table).unwrap();
    let day = table.day();
    let second = Surreal::new(Some(zero), Some(one), &mut table).unwrap();
    assert_eq!(first, second);
    assert_eq!(table.day(), day);
}

#[test]
fn intern_refuses_a_construction_that_is_not_numeric() {
    let mut table = SurrealNumbers::new();
    let zero = Surreal::new(None, None, &mut table).unwrap();
    // { 0 | 0 } lies between no two values
    assert_eq!(
        Surreal::new(Some(zero), Some(zero), &mut table),
        Err(Error::ArenaInvariantViolation)
    );
    assert_eq!(table.day(), 1);
    let one = Surreal::new(Some(zero), None, &mut table).unwrap();
    // { 1 | 0 } has its operands in the wrong order
    assert_eq!(
        Surreal::new(Some(one), Some(zero), &mut table),
        Err(Error::ArenaInvariantViolation)
    );
}

#[test]
fn raw_order_follows_the_recursive_rule() {
    let mut table = SurrealNumbers::new();
    table.generate_next_day();
    let list = table.numbers();
    let zero = RawSurreal::new(None, None);
    let one = RawSurreal::new(Some(0), None);
    let minus_one = RawSurreal::new(None, Some(0));
    assert!(zero.less_than(&zero, list));
    assert!(zero.less_than(&one, list));
    assert!(!one.less_than(&zero, list));
    assert!(minus_one.less_than(&zero, list));
    assert!(!zero.less_than(&minus_one, list));
    assert!(minus_one.less_than(&one, list));
    assert!(one.equal(&list[1], list));
    assert!(!one.equal(&zero, list));
    // { -1 | 1 } equals zero without being stored
    let wide = RawSurreal::new(Some(2), Some(1));
    assert!(wide.equal(&zero, list));
}

#[test]
fn frontier_is_strictly_increasing() {
    let mut table = SurrealNumbers::new();
    for _ in 0..4 {
        table.generate_next_day();
    }
    let line = table.frontier();
    assert_eq!(line.len(), 31);
    assert_eq!(line.len(), table.numbers().len());
    let list = table.numbers();
    for p in 0..line.len() {
        for q in 0..line.len() {
            let below = list[line[p]].less_than(&list[line[q]], list);
            assert_eq!(below, p <= q);
        }
    }
    let refs = table.number_line();
    assert_eq!(refs.len(), line.len());
    for p in 0..line.len() {
        assert_eq!(refs[p].left(), list[line[p]].left());
        assert_eq!(refs[p].right(), list[line[p]].right());
    }
}

#[test]
fn any_two_identities_compare_one_way() {
    let mut table = SurrealNumbers::new();
    for _ in 0..3 {
        table.generate_next_day();
    }
    let zero = Surreal::new(None, None, &mut table).unwrap();
    let mut all = vec![zero];
    // every stored value is reached by interning its own construction
    for index in 1..table.numbers().len() {
        let raw = table.numbers()[index];
        let left = raw.left().map(|l| all[l]);
        let right = raw.right().map(|r| all[r]);
        let found = Surreal::new(left, right, &mut table).unwrap();
        assert_eq!(found.index(), index);
        all.push(found);
    }
    assert_eq!(table.day(), 3);
    for a in &all {
        for b in &all {
            let forth = a.cmp(b, &table);
            let back = b.cmp(a, &table);
            assert_eq!(forth, back.reverse());
            assert_eq!(forth == Ordering::Equal, a == b);
            let list = table.numbers();
            let raw_a = &list[a.index()];
            let raw_b = &list[b.index()];
            assert_eq!(raw_a.equal(raw_b, list), a == b);
            if a != b {
                assert_ne!(raw_a.less_than(raw_b, list), raw_b.less_than(raw_a, list));
            }
            for c in &all {
                if a.cmp(b, &table) == Ordering::Less && b.cmp(c, &table) == Ordering::Less {
                    assert_eq!(a.cmp(c, &table), Ordering::Less);
                }
            }
        }
    }
}

#[test]
fn growth_leaves_the_order_of_old_identities_alone() {
    let mut table = SurrealNumbers::new();
    table.generate_next_day();
    table.generate_next_day();
    let before: Vec<Vec<bool>> = {
        let list = table.numbers();
        (0..list.len())
            .map(|i| (0..list.len()).map(|j| list[i].less_than(&list[j], list)).collect())
            .collect()
    };
    let old_entries: Vec<(Option<usize>, Option<usize>)> =
        table.numbers().iter().map(|r| (r.left(), r.right())).collect();
    table.generate_next_day();
    table.generate_next_day();
    let list = table.numbers();
    for i in 0..before.len() {
        assert_eq!((list[i].left(), list[i].right()), old_entries[i]);
        for j in 0..before.len() {
            assert_eq!(list[i].less_than(&list[j], list), before[i][j]);
        }
    }
}

#[test]
fn intern_refuses_an_identity_that_the_table_lacks() {
    let mut big = SurrealNumbers::new();
    big.generate_next_day();
    let zero = Surreal::new(None, None, &mut big).unwrap();
    let one = Surreal::new(Some(zero), None, &mut big).unwrap();
    let mut small = SurrealNumbers::new();
    assert_eq!(
        Surreal::new(Some(one), None, &mut small),
        Err(Error::ArenaInvariantViolation)
    );
    assert_eq!(small.day(), 0);
    assert_eq!(one.partial_cmp(&zero, &small), None);
    assert_eq!(zero.partial_cmp(&zero, &small), Some(Ordering::Equal));
}

#[test]
fn intern_with_equal_operands_gives_the_same_identity() {
    let mut table = SurrealNumbers::new();
    let zero = Surreal::new(None, None, &mut table).unwrap();
    let one = Surreal::new(Some(zero), None, &mut table).unwrap();
    let minus_one = Surreal::new(None, Some(zero), &mut table).unwrap();
    // zero again, reached as { -1 | 1 }
    let zero_again = Surreal::new(Some(minus_one), Some(one), &mut table).unwrap();
    let first = Surreal::new(Some(zero), Some(one), &mut table).unwrap();
    let second = Surreal::new(Some(zero_again), Some(one), &mut table).unwrap();
    let third = Surreal::new(Some(zero_again), Some(one), &mut table).unwrap();
    assert_eq!(first, second);
    assert_eq!(second, third);
}

#[test]
fn index_gives_the_stored_construction() {
    let mut table = SurrealNumbers::new();
    table.generate_next_day();
    assert_eq!(table.index(1).left(), Some(0));
    assert_eq!(table.index(1).right(), None);
    assert_eq!(table.index(2).left(), None);
    assert_eq!(table.index(2).right(), Some(0));
}

#[test]
fn interleaved_requests_keep_the_frontier_sorted() {
    // two climbs, one up and one down, taken in turn through one table
    let mut table = SurrealNumbers::new();
    let zero = Surreal::new(None, None, &mut table).unwrap();
    let mut up = zero;
    let mut down = zero;
    for _ in 0..4 {
        up = Surreal::new(Some(up), None, &mut table).unwrap();
        down = Surreal::new(None, Some(down), &mut table).unwrap();
    }
    assert_eq!(table.day(), 4);
    // the same climbs one after the other, through another table
    let mut other = SurrealNumbers::new();
    let mut up_alone = Surreal::new(None, None, &mut other).unwrap();
    for _ in 0..4 {
        up_alone = Surreal::new(Some(up_alone), None, &mut other).unwrap();
    }
    let mut down_alone = Surreal::new(None, None, &mut other).unwrap();
    for _ in 0..4 {
        down_alone = Surreal::new(None, Some(down_alone), &mut other).unwrap();
    }
    assert_eq!(up, up_alone);
    assert_eq!(down, down_alone);
    assert_eq!(table.frontier(), other.frontier());
    let line = table.frontier();
    let list = table.numbers();
    for p in 0..line.len() {
        for q in 0..line.len() {
            assert_eq!(list[line[p]].less_than(&list[line[q]], list), p <= q);
        }
    }
}
