use ekke_merge::{Kind, Mapping, Merge, MergeError, Number, Value};

// Reads a YAML document into a dynamic value.
fn yaml(text: &str) -> Value {
    let parsed: serde_yaml::Value = serde_yaml::from_str(text).unwrap();
    tree(parsed)
}

fn tree(v: serde_yaml::Value) -> Value {
    match v {
        serde_yaml::Value::Null => Value::Null,
        serde_yaml::Value::Bool(b) => Value::Bool(b),
        serde_yaml::Value::Number(n) => Value::Number(number(&n)),
        serde_yaml::Value::String(s) => Value::String(s),
        serde_yaml::Value::Sequence(items) => Value::Sequence(items.into_iter().map(tree).collect()),
        serde_yaml::Value::Mapping(m) => {
            let mut out = Mapping::new();
            for (k, v) in m {
                out.insert(tree(k), tree(v));
            }
            Value::Mapping(out)
        }
    }
}

fn number(n: &serde_yaml::Number) -> Number {
    if let Some(u) = n.as_u64() {
        Number::PosInt(u)
    } else if let Some(i) = n.as_i64() {
        Number::NegInt(i)
    } else {
        Number::Float(n.as_f64().unwrap().to_bits())
    }
}

// Takes away some boilerplate
fn check(a: &str, b: &str, expect: &str) {
    let mut a = yaml(a);
    let b = yaml(b);
    let c = yaml(expect);

    a.merge(b).unwrap();

    assert_eq!(a, c);
}

fn text(s: &str) -> Value {
    Value::String(s.to_string())
}

fn num(u: u64) -> Value {
    Value::Number(Number::PosInt(u))
}

fn mapping(entries: Vec<(Value, Value)>) -> Value {
    let mut m = Mapping::new();
    for (k, v) in entries {
        m.insert(k, v);
    }
    Value::Mapping(m)
}

#[test]
fn merge_into_null() {
    check("~", "{ a: -2 }", "{ a: -2 }");
}

#[test]
fn basic_array() {
    check("[ 1 ]", "[ 2 ]", "[ 2 ]");
}

#[test]
fn empty_array() {
    check("[]", "[ 1, 2 ]", "[ 1, 2 ]");
}

#[test]
fn merge_empty_array() {
    check("[ 1, 2 ]", "[]", "[]");
}

#[test]
fn complex_array() {
    check("[ 1, 3 ]", "[ 2, 4 ]", "[ 2, 4 ]");
}

#[test]
fn overlap_array() {
    check("[ 1, 3 ]", "[ 1, 2, 4 ]", "[ 1, 2, 4 ]");
}

#[test]
#[should_panic]
fn basic_object_null() {
    let mut a = Value::String("bli".to_string());
    let b = Value::Null;

    a.merge(b).unwrap();
}

#[test]
fn basic_object_bool() {
    check("a: true", "a: false", "a: false");
}

#[test]
fn basic_object_empty() {
    check("{}", "{ a: true\n }", "{ a: true\n }");
}

#[test]
fn basic_object_merge_empty() {
    check("{ a: true\n }", "{}", "{ a: true\n }");
}

#[test]
#[should_panic]
fn basic_object_string_bool() {
    let mut a = Value::String("bli".to_string());
    let b = Value::Bool(true);

    a.merge(b).unwrap();
}

#[test]
fn basic_object_u64() {
    check("{ a: 1 }", "{ a: 2 }", "{ a: 2 }");
}

#[test]
fn basic_object_i64() {
    check("{ a: -1 }", "{ a: -2 }", "{ a: -2 }");
}

#[test]
fn basic_object_f64() {
    check("{ a: -1.3 }", "{ a: -2.5 }", "{ a: -2.5 }");
}

#[test]
fn basic_object_string() {
    check("{ a: bli\n }", "{ a: bla\n }", "{ a: bla\n }");
}

#[test]
fn nested_object() {
    let a = "
a: 1
obj:
  blo: bling
  bli: bli
";

    let b = "
obj:
  bli: bla
";

    let expect = "
a: 1
obj:
  blo: bling
  bli: bla
";

    check(a, b, expect);
}

#[test]
fn u64_nested_object() {
    let a = "
a: 1
obj:
  blo: bling
  bli: bli
";

    let b = "
a: 2
obj:
  bli: bla
";

    let expect = "
a: 2
obj:
  blo: bling
  bli: bla
";

    check(a, b, expect);
}

#[test]
fn u64_nested_array() {
    let a = "
a: 1
obj:
  bli: [ 1 ]
";

    let b = "
a: 2
obj:
  bli: [ 2, 4 ]
";

    let expect = "
a: 2
obj:
  bli: [ 2, 4 ]
";

    check(a, b, expect);
}

#[test]
fn null_base_takes_every_kind() {
    let overrides = vec![
        Value::Null,
        Value::Bool(true),
        num(7),
        Value::Number(Number::NegInt(-7)),
        text("seven"),
        Value::Sequence(vec![num(1), text("two")]),
        mapping(vec![(text("a"), num(1))]),
    ];
    for over in overrides {
        let mut base = Value::Null;
        base.merge(over.clone()).unwrap();
        assert_eq!(base, over);
    }
}

#[test]
fn other_kind_is_rejected_and_base_kept() {
    let values = vec![
        Value::Null,
        Value::Bool(true),
        num(7),
        text("seven"),
        Value::Sequence(vec![num(1)]),
        mapping(vec![(text("a"), num(1))]),
    ];
    for base in values.iter() {
        for over in values.iter() {
            if base.kind() == Kind::Null || base.kind() == over.kind() {
                continue;
            }
            let mut merged = base.clone();
            match merged.merge(over.clone()) {
                Err(MergeError::MergeWrongType(b, o)) => {
                    assert_eq!(&b, base);
                    assert_eq!(&o, over);
                }
                Ok(()) => panic!("merged {:?} into {:?}", over, base),
            }
            assert_eq!(&merged, base);
        }
    }
}

#[test]
fn null_does_not_unset() {
    let mut base = mapping(vec![(text("a"), num(1))]);
    let over = mapping(vec![(text("a"), Value::Null)]);
    let result = base.merge(over);
    assert!(matches!(result, Err(MergeError::MergeWrongType(Value::Number(_), Value::Null))));
    assert_eq!(base, mapping(vec![(text("a"), num(1))]));
}

#[test]
fn null_into_null_is_null() {
    let mut base = Value::Null;
    base.merge(Value::Null).unwrap();
    assert_eq!(base, Value::Null);
}

#[test]
fn same_kind_scalars_take_the_override() {
    let mut b = Value::Bool(false);
    b.merge(Value::Bool(true)).unwrap();
    assert_eq!(b, Value::Bool(true));

    let mut n = num(1);
    n.merge(Value::Number(Number::NegInt(-4))).unwrap();
    assert_eq!(n, Value::Number(Number::NegInt(-4)));

    let mut s = text("bli");
    s.merge(text("bla")).unwrap();
    assert_eq!(s, text("bla"));
}

#[test]
fn map_union_keeps_order_and_adds_new_keys_last() {
    let mut base = mapping(vec![(text("a"), num(5)), (text("b"), num(7))]);
    let over = mapping(vec![(text("c"), num(9)), (text("b"), num(1))]);
    base.merge(over).unwrap();
    assert_eq!(
        base,
        mapping(vec![(text("a"), num(5)), (text("b"), num(1)), (text("c"), num(9))])
    );
}

#[test]
fn nested_map_recursion() {
    check("{ a: { m: 1, n: 2 } }", "{ a: { n: 3 } }", "{ a: { m: 1, n: 3 } }");
}

#[test]
fn map_union_override_wins() {
    check("{ a: 5, b: 7 }", "{ b: 1 }", "{ a: 5, b: 1 }");
}

#[test]
fn merging_a_value_with_itself_changes_nothing() {
    let documents = [
        "~",
        "true",
        "12",
        "-12",
        "1.5",
        "text",
        "[ 1, [ 2, 3 ], { a: b } ]",
        "{ a: 1, obj: { blo: bling, bli: [ 1, 2 ] }, 3: { x: { y: z } } }",
    ];
    for doc in documents {
        let mut a = yaml(doc);
        a.merge(yaml(doc)).unwrap();
        assert_eq!(a, yaml(doc));
    }
}

#[test]
fn failure_keeps_what_was_merged_before_it() {
    let mut base = yaml("{ a: 1, b: text, c: 3 }");
    let over = yaml("{ a: 2, b: 5, c: 4 }");
    let result = base.merge(over);
    match result {
        Err(MergeError::MergeWrongType(b, o)) => {
            assert_eq!(b, text("text"));
            assert_eq!(o, num(5));
        }
        Ok(()) => panic!("a number was merged into a string"),
    }
    assert_eq!(base, yaml("{ a: 2, b: text, c: 3 }"));
}

#[test]
fn failure_in_a_nested_mapping_keeps_its_merged_entries() {
    let mut base = yaml("{ top: 1, obj: { x: 1, y: text, z: 1 }, last: 1 }");
    let over = yaml("{ top: 2, obj: { x: 2, y: [ 1 ], z: 2 }, last: 2 }");
    let result = base.merge(over);
    match result {
        Err(MergeError::MergeWrongType(b, o)) => {
            assert_eq!(b, text("text"));
            assert_eq!(o, Value::Sequence(vec![num(1)]));
        }
        Ok(()) => panic!("a sequence was merged into a string"),
    }
    assert_eq!(base, yaml("{ top: 2, obj: { x: 2, y: text, z: 1 }, last: 1 }"));
}

#[test]
fn mismatch_three_levels_deep_reports_the_leaves() {
    let mut base = yaml("{ a: { b: { c: true } } }");
    let over = yaml("{ a: { b: { c: 1 } } }");
    match base.merge(over) {
        Err(MergeError::MergeWrongType(b, o)) => {
            assert_eq!(b, Value::Bool(true));
            assert_eq!(o, num(1));
        }
        Ok(()) => panic!("a number was merged into a truth value"),
    }
}

#[test]
fn keys_need_not_be_strings() {
    let mut base = mapping(vec![
        (num(1), text("one")),
        (Value::Sequence(vec![num(1), num(2)]), text("pair")),
        (Value::Null, text("nothing")),
    ]);
    let over = mapping(vec![
        (Value::Sequence(vec![num(1), num(2)]), text("couple")),
        (Value::Bool(true), text("yes")),
    ]);
    base.merge(over).unwrap();
    assert_eq!(
        base,
        mapping(vec![
            (num(1), text("one")),
            (Value::Sequence(vec![num(1), num(2)]), text("couple")),
            (Value::Null, text("nothing")),
            (Value::Bool(true), text("yes")),
        ])
    );
}

#[test]
fn kind_of_each_value() {
    assert_eq!(Value::Null.kind(), Kind::Null);
    assert_eq!(Value::Bool(false).kind(), Kind::Bool);
    assert_eq!(num(0).kind(), Kind::Number);
    assert_eq!(text("").kind(), Kind::String);
    assert_eq!(Value::Sequence(vec![]).kind(), Kind::Sequence);
    assert_eq!(Value::Mapping(Mapping::new()).kind(), Kind::Mapping);
    assert!(Value::Null.is_null());
    assert!(!Value::Bool(false).is_null());
}

#[test]
fn mapping_insert_get_and_entries() {
    let mut m = Mapping::new();
    assert_eq!(m.len(), 0);
    assert_eq!(m.insert(text("a"), num(1)), None);
    assert_eq!(m.insert(text("b"), num(2)), None);
    assert_eq!(m.insert(text("a"), num(3)), Some(num(1)));
    assert_eq!(m.len(), 2);
    assert_eq!(m.get(&text("a")), Some(&num(3)));
    assert_eq!(m.get(&text("b")), Some(&num(2)));
    assert_eq!(m.get(&text("c")), None);
    assert_eq!(m.entries(), &vec![(text("a"), num(3)), (text("b"), num(2))]);
}

#[test]
fn equality_is_by_entries_in_order() {
    let ab = mapping(vec![(text("a"), num(1)), (text("b"), num(2))]);
    let ba = mapping(vec![(text("b"), num(2)), (text("a"), num(1))]);
    assert_eq!(ab, ab.clone());
    assert_ne!(ab, ba);
    assert_ne!(Value::Sequence(vec![num(1)]), Value::Sequence(vec![num(1), num(1)]));
    assert_ne!(num(1), Value::Number(Number::Float(1)));
    assert_ne!(text("1"), num(1));
}

#[test]
fn mapping_merge_by_itself() {
    let mut base = Mapping::new();
    base.insert(text("a"), num(5));
    base.insert(text("b"), num(7));
    let mut over = Mapping::new();
    over.insert(text("b"), num(1));
    base.merge(over).unwrap();
    let mut expect = Mapping::new();
    expect.insert(text("a"), num(5));
    expect.insert(text("b"), num(1));
    assert_eq!(base, expect);
}
