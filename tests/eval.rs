use oml::{BinOp, OmlExpr, OmlValue, Op1Evaluator, Op2Evaluator, UnOp};

fn eval_doc(src: &str) -> Result<OmlValue, String> {
    let root = OmlExpr::from_str(src)?;
    root.evalute()
}

fn text_at(v: &OmlValue, path: &str) -> String {
    v.get(path).unwrap().as_str().unwrap()
}

#[test]
fn test1() {
    let oml_str = r#"
[hello]
value = 12
name = $"hello world {value + 12}"
"#;
    let mut root = match OmlExpr::from_str(oml_str) {
        Ok(root) => root,
        Err(err) => panic!("Error: {}", err),
    };
    root.set_at("hello.value", OmlExpr::Value(OmlValue::Int64(30)));
    let root = match root.evalute() {
        Ok(root) => root,
        Err(err) => panic!("Error: {}", err),
    };
    assert_eq!(root.get("hello.name").unwrap().as_str().unwrap(), "hello world 42");
}

#[test]
fn forward_reference_in_format_string() {
    let v = eval_doc("[hello]\nvalue = 12\nname = $\"hello world {value + 12}\"\n").unwrap();
    assert_eq!(text_at(&v, "hello.name"), "hello world 24");
    assert_eq!(v.get("hello.value").unwrap().as_int(), Some(12));
}

#[test]
fn reference_defined_after_use() {
    let v = eval_doc("[t]\nb = a * 2\na = 21\n").unwrap();
    assert_eq!(v.get("t.b").unwrap().as_int(), Some(42));
}

#[test]
fn override_through_node_setter() {
    let mut root = OmlExpr::from_str("[hello]\nvalue = 12\nname = $\"hello world {value + 12}\"\n").unwrap();
    let mut node = OmlExpr::new();
    node.set_int(30);
    root.set_at("hello.value", node);
    let v = root.evalute().unwrap();
    assert_eq!(text_at(&v, "hello.name"), "hello world 42");
}

#[test]
fn literal_document_round_trip() {
    let v = eval_doc("[a]\nx = 1\ny = true\nz = \"s\"\nw = [1, 2]\nm = { p = 3 }\n").unwrap();
    assert_eq!(v.get("a.x").unwrap().as_int(), Some(1));
    assert_eq!(v.get("a.y").unwrap().as_bool(), Some(true));
    assert_eq!(text_at(&v, "a.z"), "s");
    assert_eq!(v.get("a.w.[1]").unwrap().as_int(), Some(2));
    assert_eq!(v.get("a.m.p").unwrap().as_int(), Some(3));
}

#[test]
fn chained_relational_true_and_false() {
    let v = eval_doc("[c]\nt = 1 < 2 < 3\nt2 = (1 < 2) && (2 < 3)\nf = 1 < 3 < 2\nf2 = (1 < 3) && (3 < 2)\n").unwrap();
    assert_eq!(v.get("c.t").unwrap().as_bool(), Some(true));
    assert_eq!(v.get("c.t2").unwrap().as_bool(), Some(true));
    assert_eq!(v.get("c.f").unwrap().as_bool(), Some(false));
    assert_eq!(v.get("c.f2").unwrap().as_bool(), Some(false));
}

#[test]
fn precedence_levels() {
    let v = eval_doc("[p]\na = 1 + 2 * 3\nb = 2 ** 3 * 2\nc = 10 - 4 - 3\nd = 1 << 2 + 1\ne = 7 == 7 && 1 < 2\n").unwrap();
    assert_eq!(v.get("p.a").unwrap().as_int(), Some(7));
    assert_eq!(v.get("p.b").unwrap().as_int(), Some(16));
    assert_eq!(v.get("p.c").unwrap().as_int(), Some(3));
    assert_eq!(v.get("p.d").unwrap().as_int(), Some(8));
    assert_eq!(v.get("p.e").unwrap().as_bool(), Some(true));
}

#[test]
fn self_reference_does_not_converge() {
    let r = eval_doc("[s]\na = a.b\n");
    assert!(r.is_err());
    assert_eq!(r.unwrap_err(), "evalute failed.");
}

#[test]
fn direct_self_reference_does_not_converge() {
    let r = eval_doc("[t]\na = a\n");
    assert_eq!(r.unwrap_err(), "evalute failed.");
}

#[test]
fn two_field_cycle_does_not_converge() {
    let r = eval_doc("[t]\na = b + 1\nb = a + 1\n");
    assert_eq!(r.unwrap_err(), "evalute failed.");
}

#[test]
fn reference_to_absent_value_does_not_converge() {
    let r = eval_doc("[t]\n@if false\nx = 1\ny = x\n");
    assert_eq!(r.unwrap_err(), "evalute failed.");
}

#[test]
fn missing_reference_does_not_converge() {
    assert!(eval_doc("[s]\na = nothing + 1\n").is_err());
}

#[test]
fn first_true_guard_wins() {
    let v = eval_doc("[g]\n@if true\nx = 1\n@if true\nx = 2\n").unwrap();
    assert_eq!(v.get("g.x").unwrap().as_int(), Some(1));
}

#[test]
fn guard_waits_for_reference() {
    let v = eval_doc("[g]\n@if flag\nx = 1\n@if true\nx = 2\nflag = false\n").unwrap();
    assert_eq!(v.get("g.x").unwrap().as_int(), Some(2));
}

#[test]
fn guard_fallback_to_plain_value() {
    let v = eval_doc("[g]\n@if false\nx = 1\nx = 5\n").unwrap();
    assert_eq!(v.get("g.x").unwrap().as_int(), Some(5));
}

#[test]
fn array_of_tables_in_declaration_order() {
    let v = eval_doc("[[items]]\nname = \"a\"\n[[items]]\nname = \"b\"\n").unwrap();
    let items = v.get("items").unwrap().as_array().unwrap();
    assert_eq!(items.len(), 2);
    assert_eq!(text_at(&v, "items.[0].name"), "a");
    assert_eq!(text_at(&v, "items.[1].name"), "b");
}

#[test]
fn dotted_keys_nest() {
    let v = eval_doc("[a.b]\nc.d = 1\nc.e = 2\n").unwrap();
    assert_eq!(v.get("a.b.c.d").unwrap().as_int(), Some(1));
    assert_eq!(v.get("a.b.c.e").unwrap().as_int(), Some(2));
}

#[test]
fn repeated_table_headers_merge() {
    let v = eval_doc("[t]\nx = 1\n[t]\ny = 2\n").unwrap();
    assert_eq!(v.get("t.x").unwrap().as_int(), Some(1));
    assert_eq!(v.get("t.y").unwrap().as_int(), Some(2));
}

#[test]
fn ternary_and_its_errors() {
    let v = eval_doc("[t]\nx = 1 < 2 ? \"yes\" : \"no\"\n").unwrap();
    assert_eq!(text_at(&v, "t.x"), "yes");
    let e = eval_doc("[t]\nx = 1 ? 2 : 3\n").unwrap_err();
    assert_eq!(e, "condition must be boolean.");
}

#[test]
fn illegal_operator_is_fatal() {
    let e = eval_doc("[t]\nx = true + 1\n").unwrap_err();
    assert_eq!(e, "illegal operator: +");
}

#[test]
fn division_by_zero_is_an_error() {
    assert!(eval_doc("[t]\nx = 1 / 0\n").is_err());
    let v = eval_doc("[t]\nx = -7 / 2\ny = -7 % 2\n").unwrap();
    assert_eq!(v.get("t.x").unwrap().as_int(), Some(-3));
    assert_eq!(v.get("t.y").unwrap().as_int(), Some(-1));
}

#[test]
fn string_operators() {
    let v = eval_doc("[s]\na = \"ab\" * 3\nb = \"x\" + \"y\"\nc = \"x\" == \"x\"\n").unwrap();
    assert_eq!(text_at(&v, "s.a"), "ababab");
    assert_eq!(text_at(&v, "s.b"), "xy");
    assert_eq!(v.get("s.c").unwrap().as_bool(), Some(true));
    assert!(eval_doc("[s]\na = \"ab\" * -1\n").is_err());
}

#[test]
fn sequence_and_map_concatenation() {
    let v = eval_doc("[s]\na = [1] + [2, 3]\nm = { x = 1, y = 2 } + { y = 5, z = 6 }\n").unwrap();
    assert_eq!(v.get("s.a").unwrap().as_array().unwrap().len(), 3);
    assert_eq!(v.get("s.a.[2]").unwrap().as_int(), Some(3));
    assert_eq!(v.get("s.m.y").unwrap().as_int(), Some(5));
    assert_eq!(v.get("s.m.z").unwrap().as_int(), Some(6));
}

#[test]
fn unary_operators() {
    let v = eval_doc("[u]\na = -5\nb = !true\nc = ~0\nd = 4++\ne = --4\n").unwrap();
    assert_eq!(v.get("u.a").unwrap().as_int(), Some(-5));
    assert_eq!(v.get("u.b").unwrap().as_bool(), Some(false));
    assert_eq!(v.get("u.c").unwrap().as_int(), Some(-1));
    assert_eq!(v.get("u.d").unwrap().as_int(), Some(5));
    assert_eq!(v.get("u.e").unwrap().as_int(), Some(3));
}

#[test]
fn format_renders_each_kind() {
    let v = eval_doc("[f]\nn = [1, true]\nt = $\"{n} {1 == 2} {m}\"\nm = { k = \"v\" }\n").unwrap();
    assert_eq!(text_at(&v, "f.t"), "[1, true] false { k: v }");
}

#[test]
fn large_number_falls_back_to_text() {
    let v = eval_doc("[n]\nx = 99999999999999999999\n").unwrap();
    assert_eq!(text_at(&v, "n.x"), "99999999999999999999");
}

#[test]
fn fractional_number_falls_back_to_text() {
    let v = eval_doc("[n]\nx = 1.5\ny = 12\n").unwrap();
    assert_eq!(text_at(&v, "n.x"), "1.5");
    assert_eq!(v.get("n.y").unwrap().as_int(), Some(12));
}

#[test]
fn syntax_error_is_reported() {
    let e = OmlExpr::from_str("[broken\nx = 1\n").unwrap_err();
    assert!(e.starts_with("syntax error at character "));
    assert!(OmlExpr::from_str("[t]\nx = \n").is_err());
}

#[test]
fn top_level_assignments_and_comments() {
    let v = eval_doc("# settings\nx = 3 # three\ny = x + 1\n").unwrap();
    assert_eq!(v.get("y").unwrap().as_int(), Some(4));
}

#[test]
fn integer_overflow_is_an_error() {
    assert!(eval_doc("[o]\nx = 9223372036854775807 + 1\n").is_err());
}

#[test]
fn float_override_is_carried_but_not_computed() {
    let mut root = OmlExpr::from_str("[f]\nx = 1\ny = x + 1\n").unwrap();
    root.set_at("f.x", OmlExpr::Value(OmlValue::Float64(1.5f64.to_bits())));
    assert!(root.evalute().is_err());
    let mut root = OmlExpr::from_str("[f]\nx = 1\n").unwrap();
    root.set_at("f.x", OmlExpr::Value(OmlValue::Float64(2.5f64.to_bits())));
    let v = root.evalute().unwrap();
    assert_eq!(v.get("f.x").unwrap().as_float(), Some(2.5f64.to_bits()));
    assert!(v.get("f.x").unwrap().as_str().is_none());
}

#[test]
fn path_write_creates_containers() {
    let mut root = OmlExpr::from_str("").unwrap();
    root.set_at("a.[2].b", OmlExpr::Value(OmlValue::Int64(7)));
    let v = root.evalute().unwrap();
    assert_eq!(v.get("a.[2].b").unwrap().as_int(), Some(7));
    assert!(v.get("a.[0]").unwrap().is_none());
    assert_eq!(v.get("a").unwrap().as_array().unwrap().len(), 3);
}

#[test]
fn missing_paths_read_as_not_found() {
    let v = eval_doc("[a]\nx = 1\n").unwrap();
    assert!(v.get("a.y").is_none());
    assert!(v.get("a.x.z").is_none());
    assert!(v.get("a.[0]").is_none());
}

#[test]
fn operator_evaluators_directly() {
    assert_eq!(Op2Evaluator::eval_bool(true, BinOp::And, false), Ok(false));
    assert_eq!(Op2Evaluator::eval_bool(true, BinOp::Ne, false), Ok(true));
    assert!(Op2Evaluator::eval_bool(true, BinOp::Add, false).is_err());
    let r = Op2Evaluator::eval(OmlValue::Int64(2), BinOp::Pow, OmlValue::Int64(10)).unwrap();
    assert_eq!(r.as_int(), Some(1024));
    assert!(Op2Evaluator::eval(OmlValue::Int64(2), BinOp::Pow, OmlValue::Int64(64)).is_err());
    let r = Op1Evaluator::eval_prefix(UnOp::Neg, OmlValue::Int64(3)).unwrap();
    assert_eq!(r.as_int(), Some(-3));
    assert_eq!(Op1Evaluator::eval_suffix(UnOp::Not, OmlValue::Bool(true)).unwrap_err(), "illegal operator: !");
    assert_eq!(Op1Evaluator::eval_prefix(UnOp::Not, OmlValue::Int64(1)).unwrap_err(), "illegal operator: !");
    assert_eq!(Op2Evaluator::eval_bool(true, BinOp::Lt, false).unwrap_err(), "illegal operator: <");
    assert_eq!(Op2Evaluator::eval(OmlValue::Null, BinOp::Sub, OmlValue::Int64(1)).unwrap_err(), "illegal operator: -");
}

#[test]
fn guarded_block() {
    let v = eval_doc("@if 1 > 2\n[t]\nx = 1\n[u]\ny = 2\n").unwrap();
    assert!(v.get("t").unwrap().is_none());
    assert_eq!(v.get("u.y").unwrap().as_int(), Some(2));
    let v = eval_doc("@if 1 < 2\n[t]\nx = 1\n").unwrap();
    assert_eq!(v.get("t.x").unwrap().as_int(), Some(1));
}

#[test]
fn prefix_operators_apply_innermost_last() {
    let v = eval_doc("[p]\na = -~0\nb = !!true\n").unwrap();
    assert_eq!(v.get("p.a").unwrap().as_int(), Some(1));
    assert_eq!(v.get("p.b").unwrap().as_bool(), Some(true));
}

#[test]
fn trailing_comma_and_empty_literals() {
    let v = eval_doc("[l]\na = [1, 2,]\nb = []\nc = {}\n").unwrap();
    assert_eq!(v.get("l.a").unwrap().as_array().unwrap().len(), 2);
    assert_eq!(v.get("l.b").unwrap().as_array().unwrap().len(), 0);
    assert!(v.get("l.c").unwrap().is_map());
}

#[test]
fn literal_only_template_is_a_string() {
    let v = eval_doc("[f]\ns = $\"plain\"\n").unwrap();
    assert_eq!(text_at(&v, "f.s"), "plain");
}

#[test]
fn reference_inside_sequence_element() {
    let v = eval_doc("[[r]]\nx = 2\ny = x * 10\n").unwrap();
    assert_eq!(v.get("r.[0].y").unwrap().as_int(), Some(20));
}

#[test]
fn parser_type_parses_documents() {
    let e = oml::OmlParser::parse("[a]\nx = 1\n").unwrap();
    assert!(e.is_map());
    assert!(oml::OmlParser::parse("[a]\nx = (1\n").is_err());
}

#[test]
fn integer_power_with_large_exponents() {
    let pow = |l: i64, r: i64| Op2Evaluator::eval(OmlValue::Int64(l), BinOp::Pow, OmlValue::Int64(r));
    assert_eq!(pow(1, 4294967296).unwrap().as_int(), Some(1));
    assert_eq!(pow(0, 5000000000).unwrap().as_int(), Some(0));
    assert_eq!(pow(-1, 4294967296).unwrap().as_int(), Some(1));
    assert_eq!(pow(-1, 4294967297).unwrap().as_int(), Some(-1));
    assert_eq!(pow(0, 0).unwrap().as_int(), Some(1));
    assert_eq!(pow(2, 62).unwrap().as_int(), Some(1 << 62));
    assert_eq!(pow(-2, 63).unwrap().as_int(), Some(i64::MIN));
    assert_eq!(pow(2, 63).unwrap_err(), "illegal operator: **");
    assert_eq!(pow(2, 4294967296).unwrap_err(), "illegal operator: **");
    assert_eq!(pow(3, -1).unwrap_err(), "illegal operator: **");
}

#[test]
fn forward_reference_in_either_order() {
    let a = eval_doc("[hello]\nvalue = 12\nname = $\"hello world {value + 12}\"\n").unwrap();
    let b = eval_doc("[hello]\nname = $\"hello world {value + 12}\"\nvalue = 12\n").unwrap();
    assert_eq!(text_at(&a, "hello.name"), "hello world 24");
    assert_eq!(text_at(&b, "hello.name"), "hello world 24");
}
