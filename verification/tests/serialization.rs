use lib::value::{get_strict_signature, serialize_args, Val, ValMap, ValSet};

fn num(text: &str) -> Val {
    Val::Number(text.to_string())
}

fn check(val: Val, expected: &str, expect_too_deep: bool) {
    let mut is_too_deep = false;
    let res = val.serialize_arg(0, &mut is_too_deep);
    assert_eq!(res, expected.to_string());
    assert_eq!(is_too_deep, expect_too_deep);
}

fn create_nested_array(depth: usize) -> Val {
    let mut current = Val::Null;
    for _ in 0..depth {
        current = Val::Array(vec![current]);
    }
    current
}

fn create_nested_object(depth: usize) -> Val {
    let mut current = Val::Null;
    for i in 0..depth {
        let mut map = ValMap::new();
        map.insert(format!("key_{}", i), current);
        current = Val::Object(map);
    }
    current
}

#[test]
fn test_f10_scenario_01() {
    check(Val::Null, "null", false);
}

#[test]
fn test_f10_scenario_02() {
    check(Val::Undefined, "undefined", false);
}

#[test]
fn test_f10_scenario_03() {
    check(Val::Boolean(true), "true", false);
}

#[test]
fn test_f10_scenario_04() {
    check(Val::Boolean(false), "false", false);
}

#[test]
fn test_f10_scenario_05() {
    check(num(&100.25f64.to_string()), "100.25", false);
}

#[test]
fn test_f10_scenario_06() {
    check(Val::String("hello".to_string()), "hello", false);
}

#[test]
fn test_f10_scenario_07() {
    check(Val::BigInt(12345678901234567890), "BigInt:12345678901234567890", false);
}

#[test]
fn test_f10_scenario_08() {
    check(Val::Date(1620000000000), "Date:1620000000000", false);
}

#[test]
fn test_f10_scenario_09() {
    check(Val::RegExp("^[a-z]+$".to_string()), "RegExp:^[a-z]+$", false);
}

#[test]
fn test_f10_scenario_10() {
    check(Val::Func("my_func".to_string()), "my_func", false);
}

#[test]
fn test_f10_scenario_11() {
    check(Val::Array(vec![]), "[]", false);
}

#[test]
fn test_f10_scenario_12() {
    check(Val::Object(ValMap::new()), "Object{}", false);
}

#[test]
fn test_f10_scenario_13() {
    check(Val::MapVal(ValMap::new()), "Map:[]", false);
}

#[test]
fn test_f10_scenario_14() {
    check(Val::SetVal(ValSet::new()), "Set:[]", false);
}

#[test]
fn test_f10_scenario_15() {
    check(Val::Array(vec![num(&1.0f64.to_string()), num(&2.0f64.to_string())]), "[1,2]", false);
}

#[test]
fn test_f10_scenario_16() {
    let mut s = ValSet::new();
    s.insert("b".to_string());
    s.insert("a".to_string());
    check(Val::SetVal(s), "Set:[a,b]", false);
}

#[test]
fn test_f10_scenario_17() {
    let mut m = ValMap::new();
    m.insert("y".to_string(), num("2"));
    m.insert("x".to_string(), num("1"));
    check(Val::MapVal(m.clone_map()), "Map:[[x,1],[y,2]]", false);
}

#[test]
fn test_f10_scenario_18() {
    let mut o = ValMap::new();
    o.insert("a".to_string(), Val::String("val_a".to_string()));
    check(Val::Object(o), "Object{a:val_a}", false);
}

#[test]
fn test_f10_scenario_19() {
    check(create_nested_array(0), "null", false);
}

#[test]
fn test_f10_scenario_20() {
    check(create_nested_array(1), "[null]", false);
}

#[test]
fn test_f10_scenario_21() {
    check(create_nested_array(2), "[[null]]", false);
}

#[test]
fn test_f10_scenario_22() {
    check(create_nested_array(3), "[[[null]]]", false);
}

#[test]
fn test_f10_scenario_23() {
    check(create_nested_array(4), "[[[[null]]]]", false);
}

#[test]
fn test_f10_scenario_24() {
    check(create_nested_array(5), "[[[[[null]]]]]", false);
}

#[test]
fn test_f10_scenario_25() {
    check(create_nested_array(6), "[[[[[[[Object...]]]]]]]", true);
}

#[test]
fn test_f10_scenario_26() {
    check(create_nested_array(7), "[[[[[[[Object...]]]]]]]", true);
}

#[test]
fn test_f10_scenario_27() {
    check(create_nested_array(8), "[[[[[[[Object...]]]]]]]", true);
}

#[test]
fn test_f10_scenario_28() {
    check(create_nested_array(9), "[[[[[[[Object...]]]]]]]", true);
}

#[test]
fn test_f10_scenario_29() {
    check(create_nested_array(10), "[[[[[[[Object...]]]]]]]", true);
}

#[test]
fn test_f10_scenario_30() {
    check(create_nested_object(0), "null", false);
}

#[test]
fn test_f10_scenario_31() {
    check(create_nested_object(1), "Object{key_0:null}", false);
}

#[test]
fn test_f10_scenario_32() {
    check(create_nested_object(2), "Object{key_1:Object{key_0:null}}", false);
}

#[test]
fn test_f10_scenario_33() {
    check(create_nested_object(3), "Object{key_2:Object{key_1:Object{key_0:null}}}", false);
}

#[test]
fn test_f10_scenario_34() {
    check(create_nested_object(4), "Object{key_3:Object{key_2:Object{key_1:Object{key_0:null}}}}", false);
}

#[test]
fn test_f10_scenario_35() {
    check(
        create_nested_object(5),
        "Object{key_4:Object{key_3:Object{key_2:Object{key_1:Object{key_0:null}}}}}",
        false,
    );
}

#[test]
fn test_f10_scenario_36() {
    check(
        create_nested_object(6),
        "Object{key_5:Object{key_4:Object{key_3:Object{key_2:Object{key_1:Object{key_0:[Object...]}}}}}}",
        true,
    );
}

#[test]
fn test_f10_scenario_37() {
    check(
        create_nested_object(7),
        "Object{key_6:Object{key_5:Object{key_4:Object{key_3:Object{key_2:Object{key_1:[Object...]}}}}}}",
        true,
    );
}

#[test]
fn test_f10_scenario_38() {
    check(
        create_nested_object(8),
        "Object{key_7:Object{key_6:Object{key_5:Object{key_4:Object{key_3:Object{key_2:[Object...]}}}}}}",
        true,
    );
}

#[test]
fn test_f10_scenario_39() {
    check(
        create_nested_object(9),
        "Object{key_8:Object{key_7:Object{key_6:Object{key_5:Object{key_4:Object{key_3:[Object...]}}}}}}",
        true,
    );
}

#[test]
fn test_f10_scenario_40() {
    check(
        create_nested_object(10),
        "Object{key_9:Object{key_8:Object{key_7:Object{key_6:Object{key_5:Object{key_4:[Object...]}}}}}}",
        true,
    );
}

#[test]
fn test_f10_scenario_41() {
    check(Val::Array(vec![Val::Null, Val::Undefined]), "[null,undefined]", false);
}

#[test]
fn test_f10_scenario_42() {
    check(Val::Array(vec![Val::Boolean(true), Val::Boolean(false)]), "[true,false]", false);
}

#[test]
fn test_f10_scenario_43() {
    check(Val::Array(vec![num(&0.0f64.to_string()), num(&(-1.25f64).to_string())]), "[0,-1.25]", false);
}

#[test]
fn test_f10_scenario_44() {
    check(Val::Array(vec![Val::String("".to_string()), Val::String(" ".to_string())]), "[, ]", false);
}

#[test]
fn test_f10_scenario_45() {
    check(Val::Array(vec![Val::BigInt(0), Val::BigInt(-999)]), "[BigInt:0,BigInt:-999]", false);
}

#[test]
fn test_f10_scenario_46() {
    check(Val::Array(vec![Val::Date(0), Val::Date(9999999999)]), "[Date:0,Date:9999999999]", false);
}

#[test]
fn test_f10_scenario_47() {
    check(
        Val::Array(vec![Val::RegExp("re1".to_string()), Val::RegExp("re2".to_string())]),
        "[RegExp:re1,RegExp:re2]",
        false,
    );
}

#[test]
fn test_f10_scenario_48() {
    check(Val::Array(vec![Val::Func("f1".to_string()), Val::Func("f2".to_string())]), "[f1,f2]", false);
}

#[test]
fn test_f10_scenario_49() {
    check(Val::Array(vec![Val::Array(vec![]), Val::Object(ValMap::new())]), "[[],Object{}]", false);
}

#[test]
fn test_f10_scenario_50() {
    check(Val::Array(vec![Val::SetVal(ValSet::new()), Val::MapVal(ValMap::new())]), "[Set:[],Map:[]]", false);
}

#[test]
fn too_deep_flag_is_never_cleared() {
    let mut is_too_deep = true;
    let res = Val::Null.serialize_arg(0, &mut is_too_deep);
    assert_eq!(res, "null");
    assert!(is_too_deep);
}

#[test]
fn serialization_past_depth_limit_collapses() {
    let mut is_too_deep = false;
    let res = Val::String("x".to_string()).serialize_arg(6, &mut is_too_deep);
    assert_eq!(res, "[Object...]");
    assert!(is_too_deep);
}

#[test]
fn bigint_extremes_serialize_exactly() {
    check(Val::BigInt(i128::MIN), "BigInt:-170141183460469231731687303715884105728", false);
    check(Val::BigInt(i128::MAX), "BigInt:170141183460469231731687303715884105727", false);
    check(Val::Date(u64::MAX), "Date:18446744073709551615", false);
}

#[test]
fn map_entries_serialize_in_key_order() {
    let mut m = ValMap::new();
    m.insert("b".to_string(), Val::Boolean(true));
    m.insert("a".to_string(), Val::Null);
    m.insert("b".to_string(), Val::Boolean(false));
    assert_eq!(m.len(), 2);
    check(Val::MapVal(m), "Map:[[a,null],[b,false]]", false);
}

#[test]
fn set_items_are_kept_once() {
    let mut s = ValSet::new();
    s.insert("z".to_string());
    s.insert("z".to_string());
    s.insert("m".to_string());
    assert_eq!(s.len(), 2);
    check(Val::SetVal(s), "Set:[m,z]", false);
}

#[test]
fn strict_types_of_every_kind() {
    assert_eq!(Val::Null.get_strict_type(), "null");
    assert_eq!(Val::Undefined.get_strict_type(), "undefined");
    assert_eq!(Val::Boolean(true).get_strict_type(), "boolean");
    assert_eq!(num("1").get_strict_type(), "number");
    assert_eq!(Val::String("s".to_string()).get_strict_type(), "string");
    assert_eq!(Val::BigInt(1).get_strict_type(), "bigint");
    assert_eq!(Val::Array(vec![]).get_strict_type(), "array");
    assert_eq!(Val::Func("f".to_string()).get_strict_type(), "function");
    assert_eq!(Val::Object(ValMap::new()).get_strict_type(), "object");
    assert_eq!(Val::MapVal(ValMap::new()).get_strict_type(), "object");
    assert_eq!(Val::SetVal(ValSet::new()).get_strict_type(), "object");
    assert_eq!(Val::Date(0).get_strict_type(), "object");
    assert_eq!(Val::RegExp("r".to_string()).get_strict_type(), "object");
}

#[test]
fn signature_of_empty_arguments_is_void() {
    assert_eq!(get_strict_signature(&[]), "void");
}

#[test]
fn signature_joins_types_with_underscores() {
    assert_eq!(get_strict_signature(&[num("1")]), "number");
    assert_eq!(get_strict_signature(&[num("1"), Val::String("a".to_string())]), "number_string");
    assert_eq!(
        get_strict_signature(&[Val::Null, Val::Boolean(true), Val::Array(vec![])]),
        "null_boolean_array"
    );
}

#[test]
fn argument_key_joins_serializations_with_commas() {
    let (key, deep) = serialize_args(&[num("10"), num("20")]);
    assert_eq!(key, "10,20");
    assert!(!deep);
    let (key, deep) = serialize_args(&[]);
    assert_eq!(key, "");
    assert!(!deep);
    let (key, deep) = serialize_args(&[Val::Null, create_nested_array(6)]);
    assert_eq!(key, "null,[[[[[[[Object...]]]]]]]");
    assert!(deep);
}

#[test]
fn cloned_values_serialize_alike() {
    let mut o = ValMap::new();
    o.insert("k".to_string(), Val::Array(vec![num("3"), Val::Date(7)]));
    let v = Val::Object(o);
    let c = v.clone();
    let mut d1 = false;
    let mut d2 = false;
    assert_eq!(v.serialize_arg(0, &mut d1), c.serialize_arg(0, &mut d2));
    assert_eq!(c.serialize_arg(0, &mut d2), "Object{k:[3,Date:7]}");
}

#[test]
fn signatures_equal_exactly_when_types_equal() {
    let a = get_strict_signature(&[num("1"), Val::String("x".to_string())]);
    let b = get_strict_signature(&[num("2"), Val::String("y".to_string())]);
    let c = get_strict_signature(&[Val::String("x".to_string()), num("1")]);
    let d = get_strict_signature(&[num("1")]);
    assert_eq!(a, b);
    assert_ne!(a, c);
    assert_ne!(a, d);
    assert_ne!(get_strict_signature(&[Val::Null]), "void");
    assert_eq!(get_strict_signature(&[Val::Date(1)]), get_strict_signature(&[Val::RegExp("r".to_string())]));
}

#[test]
fn signature_has_one_separator_fewer_than_arguments() {
    for n in 1..6 {
        let args: Vec<Val> = (0..n).map(|i| if i % 2 == 0 { Val::Null } else { Val::Boolean(true) }).collect();
        let sig = get_strict_signature(&args);
        assert_eq!(sig.matches('_').count(), n - 1);
    }
}
