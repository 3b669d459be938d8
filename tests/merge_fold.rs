use merge_fold::MergeFold;
use std::cell::Cell;

fn concat(a: String, b: String) -> String {
    a + &b
}

fn push_strs<F: Fn(String, String) -> String>(m: &mut MergeFold<String, F>, items: &[&str]) {
    for s in items {
        m.push(s.to_string());
    }
}

#[test]
fn count_starts_at_zero() {
    let m = MergeFold::new(|a: i64, b: i64| a + b);
    assert_eq!(m.count(), 0);
}

#[test]
fn count_follows_every_push() {
    let mut m = MergeFold::new(|a: u32, b: u32| a.wrapping_add(b));
    for i in 0..1000u32 {
        m.push(i);
        assert_eq!(m.count(), (i + 1) as usize);
    }
}

#[test]
fn count_is_stable_between_pushes() {
    let mut m = MergeFold::new(|a: i64, b: i64| a + b);
    for i in 0..13 {
        m.push(i);
    }
    let first = m.count();
    assert_eq!(m.count(), first);
    assert_eq!(m.count(), first);
    assert_eq!(first, 13);
}

#[test]
fn fold_of_nothing_is_none() {
    let m = MergeFold::new(|a: i64, b: i64| a + b);
    assert_eq!(m.fold(), None);
}

#[test]
fn fold_of_one_value_returns_it() {
    let mut m = MergeFold::new(|a: i64, b: i64| a * 1000 + b);
    m.push(42);
    assert_eq!(m.fold(), Some(42));
}

#[test]
fn fold_of_four_strings_keeps_push_order() {
    let mut m = MergeFold::new(concat);
    push_strs(&mut m, &["a", "b", "c", "d"]);
    assert_eq!(m.count(), 4);
    assert_eq!(m.fold(), Some("abcd".to_string()));
}

#[test]
fn fold_of_five_sums() {
    let mut m = MergeFold::new(|a: i64, b: i64| a + b);
    for i in 1..=5 {
        m.push(i);
    }
    assert_eq!(m.count(), 5);
    assert_eq!(m.fold(), Some(15));
}

#[test]
fn fold_seeds_with_newest_entry() {
    // five pushes leave [abcd (rank 2), e (rank 0)]; the fold computes f(e, abcd)
    let mut m = MergeFold::new(concat);
    push_strs(&mut m, &["a", "b", "c", "d", "e"]);
    assert_eq!(m.fold(), Some("eabcd".to_string()));
}

#[test]
fn fold_of_three_strings() {
    let mut m = MergeFold::new(concat);
    push_strs(&mut m, &["a", "b", "c"]);
    assert_eq!(m.fold(), Some("cab".to_string()));
}

#[test]
fn fold_of_seven_strings() {
    // seven pushes leave [abcd (rank 2), ef (rank 1), g (rank 0)]
    let mut m = MergeFold::new(concat);
    push_strs(&mut m, &["a", "b", "c", "d", "e", "f", "g"]);
    assert_eq!(m.count(), 7);
    assert_eq!(m.fold(), Some("gefabcd".to_string()));
}

#[test]
fn fold_with_difference_shows_argument_order() {
    // stack after 1, 2, 3: [f(1, 2) = -1 (rank 1), 3 (rank 0)]; fold: f(3, -1) = 4
    let mut m = MergeFold::new(|a: i64, b: i64| a - b);
    m.push(1);
    m.push(2);
    m.push(3);
    assert_eq!(m.fold(), Some(4));
}

#[test]
fn same_pushes_fold_to_same_value() {
    let items = ["x", "y", "z", "w", "v", "u"];
    let mut m1 = MergeFold::new(concat);
    let mut m2 = MergeFold::new(concat);
    push_strs(&mut m1, &items);
    push_strs(&mut m2, &items);
    let r1 = m1.fold();
    let r2 = m2.fold();
    assert_eq!(r1, r2);
    assert_eq!(r1, Some("vuxyzw".to_string()));
}

#[test]
fn merges_cascade_like_binary_carries() {
    // pushing n values merges n minus the number of one bits of n times
    let calls = Cell::new(0usize);
    let mut m = MergeFold::new(|a: u64, b: u64| {
        calls.set(calls.get() + 1);
        a + b
    });
    for i in 1..=8u64 {
        m.push(i);
    }
    assert_eq!(calls.get(), 7);
    assert_eq!(m.count(), 8);
    m.push(9);
    assert_eq!(calls.get(), 7);
    m.push(10);
    assert_eq!(calls.get(), 8);
    assert_eq!(m.fold(), Some(55));
    assert_eq!(calls.get(), 9);
}

#[test]
fn fold_of_sixteen_is_one_entry() {
    let calls = Cell::new(0usize);
    let mut m = MergeFold::new(|a: String, b: String| {
        calls.set(calls.get() + 1);
        a + &b
    });
    let letters = "abcdefghijklmnop";
    for c in letters.chars() {
        m.push(c.to_string());
    }
    assert_eq!(calls.get(), 15);
    assert_eq!(m.fold(), Some(letters.to_string()));
    assert_eq!(calls.get(), 15);
}

#[test]
fn fold_of_one_merged_entry_returns_it_unchanged() {
    // two pushes leave one entry "ab" of rank 1; folding calls the combiner no more
    let calls = Cell::new(0usize);
    let mut m = MergeFold::new(|a: String, b: String| {
        calls.set(calls.get() + 1);
        a + &b
    });
    m.push("a".to_string());
    m.push("b".to_string());
    assert_eq!(calls.get(), 1);
    assert_eq!(m.fold(), Some("ab".to_string()));
    assert_eq!(calls.get(), 1);
}
