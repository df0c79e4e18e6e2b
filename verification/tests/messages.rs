use zelle::message::{parse_route_instruction, route_instruction, strip_prefix};

#[test]
fn prefixes_are_stripped() {
    assert_eq!(strip_prefix("TX:{\"a\":1}", "TX:"), Some("{\"a\":1}".to_string()));
    assert_eq!(strip_prefix("MINED:[]", "TX:"), None);
    assert_eq!(strip_prefix("TX", "TX:"), None);
    assert_eq!(strip_prefix("TX:", "TX:"), Some(String::new()));
    assert_eq!(strip_prefix("ключ:x", "ключ:"), Some("x".to_string()));
}

#[test]
fn route_instructions_roundtrip() {
    let text = route_instruction("abcd", "TX:{\"k\":\"v:w\"}");
    assert_eq!(text, "GARLIC_ROUTE:abcd:TX:{\"k\":\"v:w\"}");
    assert_eq!(
        parse_route_instruction(&text),
        Some(Some(("abcd".to_string(), "TX:{\"k\":\"v:w\"}".to_string())))
    );
}

#[test]
fn route_instructions_need_two_colons() {
    assert_eq!(parse_route_instruction("GARLIC_ROUTE:nocolon"), Some(None));
    assert_eq!(parse_route_instruction("NOISE"), None);
    assert_eq!(parse_route_instruction("GARLIC_ROUTE::data"), Some(Some((String::new(), "data".to_string()))));
}
