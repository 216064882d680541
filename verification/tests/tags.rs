use simdxml::index::structural::parse_scalar;

#[test]
fn test_get_attribute() {
    let xml = b"<root lang=\"en\" type='main'>text</root>";
    let index = parse_scalar(xml).unwrap();
    assert_eq!(index.get_attribute(0, "lang"), Some("en"));
    assert_eq!(index.get_attribute(0, "type"), Some("main"));
    assert_eq!(index.get_attribute(0, "missing"), None);
}

#[test]
fn test_attribute_on_self_closing() {
    let xml = b"<br class=\"clear\"/>";
    let index = parse_scalar(xml).unwrap();
    assert_eq!(index.get_attribute(0, "class"), Some("clear"));
}
