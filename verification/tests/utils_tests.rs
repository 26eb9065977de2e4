use icbm::ids::Id;
use icbm::utils::{clamp, to_camel_case, to_snake_case, truncate, Registry, UtilsError};

#[test]
fn test_camel_snake_roundtrip() {
    let s = "hello_world_foo";
    let camel = to_camel_case(s);
    assert_eq!(camel, "HelloWorldFoo");
    let back = to_snake_case(&camel);
    assert_eq!(back, s);
}

#[test]
fn test_truncate() {
    assert_eq!(truncate("hello world", 5), "hell…");
    assert_eq!(truncate("hi", 10), "hi");
}

#[test]
fn test_registry() {
    let mut r: Registry<u32> = Registry::new();
    r.insert("a", 1);
    r.insert("b", 2);
    assert_eq!(r.get("a"), Some(&1));
    assert_eq!(r.len(), 2);
    r.remove("a");
    assert_eq!(r.len(), 1);
}

#[test]
fn test_clamp() {
    assert_eq!(clamp(5, 0, 10), 5);
    assert_eq!(clamp(-1, 0, 10), 0);
    assert_eq!(clamp(11, 0, 10), 10);
}

#[test]
fn case_conversion_examples() {
    assert_eq!(to_camel_case("hello_world"), "HelloWorld");
    assert_eq!(to_camel_case("foo"), "Foo");
    assert_eq!(to_snake_case("HelloWorld"), "hello_world");
    assert_eq!(to_camel_case(""), "");
    assert_eq!(to_camel_case("__a__b_"), "AB");
    assert_eq!(to_snake_case(""), "");
    assert_eq!(to_snake_case("ABC"), "a_b_c");
    assert_eq!(to_snake_case("already_snake"), "already_snake");
}

#[test]
fn case_conversion_non_ascii() {
    assert_eq!(to_camel_case("élan_vital"), "ÉlanVital");
    assert_eq!(to_camel_case("straße_ß"), "StraßeSS");
    assert_eq!(to_snake_case("ÀbcDé"), "àbc_dé");
    assert_eq!(to_snake_case("ÉlanVital"), "élan_vital");
    assert_eq!(to_snake_case("aÉb"), "a_éb");
    assert_eq!(to_snake_case("aΣb"), "a_σb");
}

#[test]
fn snake_identifiers_round_trip() {
    for s in ["a", "abc", "a_b", "http_server", "x1_y2_z3"] {
        assert_eq!(to_snake_case(&to_camel_case(s)), s);
    }
}

#[test]
fn truncate_edges() {
    assert_eq!(truncate("hello", 5), "hello");
    assert_eq!(truncate("hello", 4), "hel…");
    assert_eq!(truncate("hello", 1), "…");
    assert_eq!(truncate("hello", 0), "");
    assert_eq!(truncate("", 0), "");
    assert_eq!(truncate("héllo wörld", 4), "hél…");
    for max in 0..12 {
        assert!(truncate("héllo wörld", max).chars().count() <= max);
    }
}

#[test]
fn clamp_other_types() {
    assert_eq!(clamp(1.5, 0.0, 1.0), 1.0);
    assert_eq!(clamp(-0.5, 0.0, 1.0), 0.0);
    assert_eq!(clamp(0.25, 0.0, 1.0), 0.25);
    assert_eq!(clamp('m', 'a', 'f'), 'f');
    assert_eq!(clamp(10u8, 10, 10), 10);
}

#[test]
fn registry_read_your_writes() {
    let mut r: Registry<String> = Registry::new();
    assert!(r.is_empty());
    assert_eq!(r.get("k"), None);
    r.insert("k", "one".to_string());
    r.insert("j", "two".to_string());
    r.insert("k", "three".to_string());
    assert_eq!(r.len(), 2);
    assert!(!r.is_empty());
    assert_eq!(r.get("k"), Some(&"three".to_string()));
    assert_eq!(r.get("j"), Some(&"two".to_string()));
    assert_eq!(r.remove("k"), Some("three".to_string()));
    assert_eq!(r.remove("k"), None);
    assert_eq!(r.get("k"), None);
    assert_eq!(r.len(), 1);
}

#[test]
fn registry_keys_values_and_clone() {
    let mut r: Registry<u32> = Registry::default();
    r.insert("x", 10);
    r.insert("y", 20);
    r.insert("z", 30);
    r.remove("y");
    let keys: Vec<String> = r.keys().into_iter().cloned().collect();
    let values: Vec<u32> = r.values().into_iter().copied().collect();
    assert_eq!(keys.len(), 2);
    assert_eq!(values.len(), 2);
    for (k, v) in keys.iter().zip(values.iter()) {
        assert_eq!(r.get(k), Some(v));
    }
    let copy = r.clone();
    assert_eq!(copy.len(), 2);
    assert_eq!(copy.get("x"), Some(&10));
    assert_eq!(copy.get("z"), Some(&30));
    assert_eq!(copy.get("y"), None);
}

#[test]
fn utils_error_messages() {
    assert_eq!(UtilsError::Parse("x".to_string()).message(), "Parse error: x");
    assert_eq!(UtilsError::NotFound("key".to_string()).message(), "Not found: key");
    assert_eq!(UtilsError::InvalidArgument("n < 0".to_string()).message(), "Invalid argument: n < 0");
}

#[test]
fn id_text_is_hyphenated_lowercase_hex() {
    let id = Id::from_u128(0x67e5_5044_10b1_426f_9247_bb68_0e5f_e0c8);
    assert_eq!(id.to_text(), "67e55044-10b1-426f-9247-bb680e5fe0c8");
    assert_eq!(id.as_u128(), 0x67e5_5044_10b1_426f_9247_bb68_0e5f_e0c8);
    assert_eq!(Id::from_u128(0).to_text(), "00000000-0000-0000-0000-000000000000");
}

#[test]
fn fresh_ids_are_version_4() {
    for _ in 0..20 {
        let value = Id::new().as_u128();
        assert_eq!(value & 0x0000_0000_0000_F000_C000_0000_0000_0000, 0x0000_0000_0000_4000_8000_0000_0000_0000);
    }
    assert_ne!(Id::default(), Id::default());
}
