use oml::{get_op2_level, ApplyExt, GetByStrExt, GetByUsizeExt, IntoBaseExt, OmlValue};

fn scalar_map() -> Vec<(String, OmlValue)> {
    vec![
        ("a".to_string(), OmlValue::Int64(1)),
        ("b".to_string(), OmlValue::Bool(true)),
        ("c".to_string(), OmlValue::String("s".to_string())),
    ]
}

#[test]
fn map_merge_is_idempotent_on_scalar_leaves() {
    let mut once = OmlValue::Dict(scalar_map());
    once.apply(OmlValue::Dict(scalar_map()));
    let mut twice = OmlValue::Dict(scalar_map());
    twice.apply(OmlValue::Dict(scalar_map()));
    twice.apply(OmlValue::Dict(scalar_map()));
    assert_eq!(once.as_str(), OmlValue::Dict(scalar_map()).as_str());
    assert_eq!(once.as_str(), twice.as_str());
    assert_eq!(once.as_str().unwrap(), "{ a: 1, b: true, c: s }");
}

#[test]
fn sequence_merge_appends_every_time() {
    let mut once = OmlValue::Array(vec![OmlValue::Int64(1)]);
    once.apply(OmlValue::Int64(2));
    let mut twice = OmlValue::Array(vec![OmlValue::Int64(1)]);
    twice.apply(OmlValue::Int64(2));
    twice.apply(OmlValue::Int64(2));
    assert_eq!(once.as_str().unwrap(), "[1, 2]");
    assert_eq!(twice.as_str().unwrap(), "[1, 2, 2]");
}

#[test]
fn merge_replaces_scalars_and_recurses_into_maps() {
    let mut t = OmlValue::Dict(vec![(
        "k".to_string(),
        OmlValue::Dict(vec![("x".to_string(), OmlValue::Int64(1))]),
    )]);
    t.apply(OmlValue::Dict(vec![(
        "k".to_string(),
        OmlValue::Dict(vec![("y".to_string(), OmlValue::Int64(2))]),
    )]));
    assert_eq!(t.as_str().unwrap(), "{ k: { x: 1, y: 2 } }");
    let mut s = OmlValue::Int64(1);
    s.apply(OmlValue::Bool(false));
    assert_eq!(s.as_bool(), Some(false));
    let mut m = OmlValue::Dict(vec![]);
    m.apply(OmlValue::Int64(3));
    assert_eq!(m.as_int(), Some(3));
}

#[test]
fn apply_ext_on_entries() {
    let mut m = scalar_map();
    m.apply(vec![("d".to_string(), OmlValue::Null), ("a".to_string(), OmlValue::Int64(9))]);
    let v = OmlValue::Dict(m);
    assert_eq!(v.as_str().unwrap(), "{ a: 9, b: true, c: s, d: none }");
}

#[test]
fn kind_tests_and_extraction() {
    assert!(OmlValue::Null.is_none());
    assert!(OmlValue::Bool(true).is_bool());
    assert!(OmlValue::Int64(1).is_int());
    assert!(OmlValue::String("x".to_string()).is_str());
    assert!(OmlValue::Array(vec![]).is_array());
    assert!(OmlValue::Dict(vec![]).is_map());
    assert!(OmlValue::Float64(0).is_float());
    assert_eq!(OmlValue::Int64(5).as_bool(), None);
    let mut v = OmlValue::Null;
    v.set_string("t".to_string());
    assert_eq!(v.as_str().unwrap(), "t");
    v.set_int(-12);
    assert_eq!(v.as_str().unwrap(), "-12");
    v.set_null();
    assert_eq!(v.as_str().unwrap(), "none");
}

#[test]
fn operator_levels() {
    assert_eq!(get_op2_level("**"), 0);
    assert_eq!(get_op2_level("%"), 1);
    assert_eq!(get_op2_level("-"), 2);
    assert_eq!(get_op2_level(">>"), 3);
    assert_eq!(get_op2_level("&"), 4);
    assert_eq!(get_op2_level(">="), 5);
    assert_eq!(get_op2_level("!="), 6);
    assert_eq!(get_op2_level("&&"), 7);
    assert_eq!(get_op2_level("||"), 8);
    assert_eq!(get_op2_level("="), 9);
}

#[test]
fn into_base_strips_quotes() {
    assert_eq!("\"abc\"".into_base(), "abc");
    assert_eq!("$\"a{b}\"".into_base(), "a{b}");
}

#[test]
fn min_integer_renders() {
    assert_eq!(OmlValue::Int64(i64::MIN).as_str().unwrap(), "-9223372036854775808");
}

#[test]
fn keys_come_sorted() {
    let v = OmlValue::Dict(vec![
        ("zeta".to_string(), OmlValue::Null),
        ("alpha".to_string(), OmlValue::Null),
        ("mid".to_string(), OmlValue::Null),
        ("al".to_string(), OmlValue::Null),
    ]);
    assert_eq!(v.keys().unwrap(), vec!["al", "alpha", "mid", "zeta"]);
    let d = OmlValue::Dict(vec![("k".to_string(), OmlValue::Null), ("k".to_string(), OmlValue::Null)]);
    assert_eq!(d.keys().unwrap(), vec!["k"]);
    assert!(OmlValue::Int64(1).keys().is_none());
}

#[test]
fn value_path_write_creates_containers() {
    let mut v = OmlValue::Null;
    v.set_with_path("a.b.[1]", OmlValue::Int64(4));
    assert_eq!(v.get("a.b.[1]").unwrap().as_int(), Some(4));
    assert!(v.get("a.b.[0]").unwrap().is_none());
    v.set_with_path("a.c", OmlValue::Bool(true));
    assert_eq!(v.as_str().unwrap(), "{ a: { b: [none, 4], c: true } }");
}

#[test]
fn index_traits() {
    let v = OmlValue::Array(vec![OmlValue::Int64(5)]);
    assert_eq!(GetByUsizeExt::get(&v, 0).unwrap().as_int(), Some(5));
    assert!(GetByUsizeExt::get(&v, 1).is_none());
    let m = OmlValue::Dict(vec![("k".to_string(), OmlValue::Int64(6))]);
    assert_eq!(GetByStrExt::get(&m, "k").unwrap().as_int(), Some(6));
    assert!(GetByStrExt::get(&m, "q").is_none());
}

#[test]
fn fragment_merged_twice_into_another_map() {
    let target = || {
        OmlValue::Dict(vec![
            ("a".to_string(), OmlValue::Int64(0)),
            ("z".to_string(), OmlValue::Bool(false)),
        ])
    };
    let mut once = target();
    once.apply(OmlValue::Dict(scalar_map()));
    let mut twice = target();
    twice.apply(OmlValue::Dict(scalar_map()));
    twice.apply(OmlValue::Dict(scalar_map()));
    assert_eq!(once.as_str().unwrap(), "{ a: 1, z: false, b: true, c: s }");
    assert_eq!(once.as_str(), twice.as_str());
}

#[test]
fn nested_fragment_merged_twice() {
    let frag = || {
        OmlValue::Dict(vec![
            ("k".to_string(), OmlValue::Dict(vec![("x".to_string(), OmlValue::Int64(1))])),
            ("s".to_string(), OmlValue::Bool(true)),
        ])
    };
    let target = || {
        OmlValue::Dict(vec![(
            "k".to_string(),
            OmlValue::Dict(vec![("y".to_string(), OmlValue::Int64(2))]),
        )])
    };
    let mut once = target();
    once.apply(frag());
    let mut twice = target();
    twice.apply(frag());
    twice.apply(frag());
    assert_eq!(once.as_str().unwrap(), "{ k: { y: 2, x: 1 }, s: true }");
    assert_eq!(once.as_str(), twice.as_str());
}
