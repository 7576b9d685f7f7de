use ekke_merge::hashed::merge_entries_hashed;
use ekke_merge::ordered::merge_entries_ordered;
use ekke_merge::{Merge, MergeError, Number, Value};
use std::collections::BTreeMap;
use std::collections::HashMap;

fn expect_merge<T>(mut a: T, b: T, expect: T)
where
    T: Merge + std::cmp::PartialEq + std::fmt::Debug,
{
    a.merge(b).unwrap();
    assert_eq!(a, expect);
}

#[test]
fn merge_u8() {
    expect_merge(5u8, 6u8, 6u8)
}

#[test]
fn merge_u16() {
    expect_merge(5u16, 6u16, 6u16)
}

#[test]
fn merge_u32() {
    expect_merge(5u32, 6u32, 6u32)
}

#[test]
fn merge_u64() {
    expect_merge(5u64, 6u64, 6u64)
}

#[test]
fn merge_u128() {
    expect_merge(5u128, 6u128, 6u128)
}

#[test]
fn merge_usize() {
    expect_merge(5usize, 6usize, 6usize)
}

#[test]
fn merge_i8() {
    expect_merge(5i8, -6i8, -6i8)
}

#[test]
fn merge_i16() {
    expect_merge(5i16, -6i16, -6i16)
}

#[test]
fn merge_i32() {
    expect_merge(5i32, -6i32, -6i32)
}

#[test]
fn merge_i64() {
    expect_merge(5i64, -6i64, -6i64)
}

#[test]
fn merge_i128() {
    expect_merge(5i128, -6i128, -6i128)
}

#[test]
fn merge_isize() {
    expect_merge(5isize, -6isize, -6isize)
}

#[test]
fn merge_bool() {
    expect_merge(true, false, false)
}

#[test]
fn merge_bool2() {
    expect_merge(false, true, true)
}

#[test]
fn merge_char() {
    expect_merge('a', 'b', 'b')
}

#[test]
fn merge_vec() {
    expect_merge(vec![1, 2], vec![3, 4], vec![3, 4])
}

#[test]
fn merge_btmap() {
    let mut a = BTreeMap::new();
    let mut b = BTreeMap::new();
    let mut c = BTreeMap::new();

    a.insert("a", 5);
    a.insert("b", 7);

    b.insert("b", 1);

    c.insert("a", 5);
    c.insert("b", 1);

    expect_merge(a, b, c)
}

#[test]
fn merge_nested_btmap() {
    let mut a = BTreeMap::new();
    let mut b = BTreeMap::new();
    let mut c = BTreeMap::new();
    let mut m = BTreeMap::new();
    let mut n = BTreeMap::new();
    let mut o = BTreeMap::new();

    m.insert("m", 1);
    m.insert("n", 2);
    n.insert("n", 3);

    a.insert("a", m);
    b.insert("a", n);

    o.insert("m", 1);
    o.insert("n", 3);

    c.insert("a", o);

    expect_merge(a, b, c)
}

#[test]
fn merge_hashmap() {
    let mut a = HashMap::new();
    let mut b = HashMap::new();
    let mut c = HashMap::new();

    a.insert("a", 5);
    a.insert("b", 7);

    b.insert("b", 1);

    c.insert("a", 5);
    c.insert("b", 1);

    expect_merge(a, b, c)
}

#[test]
fn merge_nested_hashmap() {
    let mut a = HashMap::new();
    let mut b = HashMap::new();
    let mut c = HashMap::new();
    let mut m = HashMap::new();
    let mut n = HashMap::new();
    let mut o = HashMap::new();

    m.insert("m", 1);
    m.insert("n", 2);
    n.insert("n", 3);

    a.insert("a", m);
    b.insert("a", n);

    o.insert("m", 1);
    o.insert("n", 3);

    c.insert("a", o);

    expect_merge(a, b, c)
}

#[test]
fn merge_string() {
    expect_merge("bli".to_string(), "bla".to_string(), "bla".to_string())
}

#[test]
fn merge_vec_shrinks_and_grows() {
    expect_merge(vec![1, 3], vec![2, 4], vec![2, 4]);
    expect_merge(vec![1, 2], vec![], vec![]);
    expect_merge(vec![], vec![1, 2], vec![1, 2]);
}

#[test]
fn merge_empty_maps() {
    let mut full = HashMap::new();
    full.insert(1u8, 10u8);
    expect_merge(full.clone(), HashMap::new(), full.clone());
    expect_merge(HashMap::new(), full.clone(), full.clone());

    let mut sorted = BTreeMap::new();
    sorted.insert(1u8, 10u8);
    expect_merge(sorted.clone(), BTreeMap::new(), sorted.clone());
    expect_merge(BTreeMap::new(), sorted.clone(), sorted.clone());
}

#[test]
fn merge_map_union_of_keys() {
    let mut a = HashMap::new();
    a.insert(1u32, 'a');
    a.insert(2u32, 'b');
    let mut b = HashMap::new();
    b.insert(2u32, 'x');
    b.insert(3u32, 'y');
    b.insert(4u32, 'z');
    let mut c = HashMap::new();
    c.insert(1u32, 'a');
    c.insert(2u32, 'x');
    c.insert(3u32, 'y');
    c.insert(4u32, 'z');
    expect_merge(a, b, c);

    let mut a = BTreeMap::new();
    a.insert(1u32, 'a');
    a.insert(2u32, 'b');
    let mut b = BTreeMap::new();
    b.insert(2u32, 'x');
    b.insert(3u32, 'y');
    b.insert(4u32, 'z');
    let mut c = BTreeMap::new();
    c.insert(1u32, 'a');
    c.insert(2u32, 'x');
    c.insert(3u32, 'y');
    c.insert(4u32, 'z');
    expect_merge(a, b, c);
}

#[test]
fn merge_map_with_itself() {
    let mut a = HashMap::new();
    a.insert(1u32, vec![1u8, 2u8]);
    a.insert(2u32, vec![]);
    expect_merge(a.clone(), a.clone(), a.clone());

    let mut b = BTreeMap::new();
    b.insert(1u32, "one".to_string());
    b.insert(2u32, "two".to_string());
    expect_merge(b.clone(), b.clone(), b.clone());
}

fn num(u: u64) -> Value {
    Value::Number(Number::PosInt(u))
}

fn text(s: &str) -> Value {
    Value::String(s.to_string())
}

#[test]
fn typed_map_of_dynamic_values_passes_the_failure_on() {
    let mut base = HashMap::new();
    base.insert(1u8, text("one"));
    let mut over = HashMap::new();
    over.insert(1u8, num(1));
    match base.merge(over) {
        Err(MergeError::MergeWrongType(b, o)) => {
            assert_eq!(b, text("one"));
            assert_eq!(o, num(1));
        }
        Ok(()) => panic!("a number was merged into a string"),
    }
    assert_eq!(base.get(&1u8), Some(&text("one")));
}

#[test]
fn ordered_map_fails_at_the_least_conflicting_key() {
    let mut base = BTreeMap::new();
    base.insert(1u8, num(1));
    base.insert(2u8, text("two"));
    base.insert(3u8, num(3));
    base.insert(4u8, text("four"));
    let mut over = BTreeMap::new();
    over.insert(4u8, num(40));
    over.insert(3u8, num(30));
    over.insert(2u8, num(20));
    over.insert(1u8, num(10));
    over.insert(0u8, num(0));
    match base.merge(over) {
        Err(MergeError::MergeWrongType(b, o)) => {
            assert_eq!(b, text("two"));
            assert_eq!(o, num(20));
        }
        Ok(()) => panic!("a number was merged into a string"),
    }
    let mut expect = BTreeMap::new();
    expect.insert(0u8, num(0));
    expect.insert(1u8, num(10));
    expect.insert(2u8, text("two"));
    expect.insert(3u8, num(3));
    expect.insert(4u8, text("four"));
    assert_eq!(base, expect);
}

#[test]
fn entries_merge_in_their_order_into_a_hash_map() {
    let mut base = HashMap::new();
    base.insert("a", num(1));
    base.insert("b", text("b"));
    base.insert("c", num(3));
    let entries = vec![("c", num(30)), ("new", num(0)), ("b", num(20)), ("a", num(10))];
    match merge_entries_hashed(&mut base, entries) {
        Err(MergeError::MergeWrongType(b, o)) => {
            assert_eq!(b, text("b"));
            assert_eq!(o, num(20));
        }
        Ok(()) => panic!("a number was merged into a string"),
    }
    let mut expect = HashMap::new();
    expect.insert("a", num(1));
    expect.insert("b", text("b"));
    expect.insert("c", num(30));
    expect.insert("new", num(0));
    assert_eq!(base, expect);
}

#[test]
fn entries_merge_in_their_order_into_an_ordered_map() {
    let mut base = BTreeMap::new();
    base.insert("a", num(1));
    base.insert("b", text("b"));
    base.insert("c", num(3));
    let entries = vec![("c", num(30)), ("new", num(0)), ("b", num(20)), ("a", num(10))];
    match merge_entries_ordered(&mut base, entries) {
        Err(MergeError::MergeWrongType(b, o)) => {
            assert_eq!(b, text("b"));
            assert_eq!(o, num(20));
        }
        Ok(()) => panic!("a number was merged into a string"),
    }
    let mut expect = BTreeMap::new();
    expect.insert("a", num(1));
    expect.insert("b", text("b"));
    expect.insert("c", num(30));
    expect.insert("new", num(0));
    assert_eq!(base, expect);
}

#[test]
fn entries_merge_without_failure() {
    let mut base = HashMap::new();
    base.insert(1u8, 1u8);
    merge_entries_hashed(&mut base, vec![(2u8, 2u8), (1u8, 3u8)]).unwrap();
    let mut expect = HashMap::new();
    expect.insert(1u8, 3u8);
    expect.insert(2u8, 2u8);
    assert_eq!(base, expect);

    let mut base = BTreeMap::new();
    base.insert(1u8, 1u8);
    merge_entries_ordered(&mut base, vec![(2u8, 2u8), (1u8, 3u8)]).unwrap();
    let mut expect = BTreeMap::new();
    expect.insert(1u8, 3u8);
    expect.insert(2u8, 2u8);
    assert_eq!(base, expect);
}

#[test]
fn entries_with_a_repeated_key_merge_one_after_the_other() {
    let mut base = HashMap::new();
    merge_entries_hashed(&mut base, vec![(1u8, 5u8), (1u8, 6u8)]).unwrap();
    assert_eq!(base.get(&1u8), Some(&6u8));
    assert_eq!(base.len(), 1);

    let mut base = BTreeMap::new();
    base.insert(1u8, Value::Null);
    let entries = vec![(1u8, num(5)), (1u8, text("five")), (2u8, num(2))];
    match merge_entries_ordered(&mut base, entries) {
        Err(MergeError::MergeWrongType(b, o)) => {
            assert_eq!(b, num(5));
            assert_eq!(o, text("five"));
        }
        Ok(()) => panic!("a string was merged into a number"),
    }
    assert_eq!(base.get(&1u8), Some(&num(5)));
    assert_eq!(base.get(&2u8), None);
}

#[derive(Debug, PartialEq)]
struct Settings {
    name: String,
    amount: usize,
    limits: BTreeMap<u8, u16>,
}

impl Merge for Settings {
    fn merge(&mut self, other: Settings) -> ekke_merge::MergeResult<()> {
        self.name.merge(other.name)?;
        self.amount.merge(other.amount)?;
        self.limits.merge(other.limits)?;
        Ok(())
    }
}

#[test]
fn record_merges_field_by_field() {
    let mut limits_a = BTreeMap::new();
    limits_a.insert(1u8, 10u16);
    limits_a.insert(2u8, 20u16);
    let mut limits_b = BTreeMap::new();
    limits_b.insert(2u8, 21u16);
    limits_b.insert(3u8, 30u16);
    let mut limits_c = BTreeMap::new();
    limits_c.insert(1u8, 10u16);
    limits_c.insert(2u8, 21u16);
    limits_c.insert(3u8, 30u16);
    let a = Settings { name: "a".to_string(), amount: 5, limits: limits_a };
    let b = Settings { name: "b".to_string(), amount: 8, limits: limits_b };
    expect_merge(a, b, Settings { name: "b".to_string(), amount: 8, limits: limits_c });
}
