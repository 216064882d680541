use simdxml::index::structural::parse_scalar;
use simdxml::xpath::axes::{eval_child_axis, eval_following_axis, eval_preceding_axis};
use simdxml::xpath::XPathNode;
use simdxml::{parse, CompiledXPath, SimdXmlError};

fn texts(xml: &[u8], expr: &str) -> Vec<String> {
    let index = parse(xml).unwrap();
    index.xpath_text(expr).unwrap().iter().map(|s| s.to_string()).collect()
}

fn count(xml: &[u8], expr: &str) -> usize {
    parse(xml).unwrap().xpath(expr).unwrap().len()
}

#[test]
fn readme_one_shot_and_compiled() {
    let xml = br#"<patent><claim>A device for...</claim></patent>"#;
    let index = parse(xml).unwrap();
    assert_eq!(index.xpath_text("//claim").unwrap(), vec!["A device for..."]);
    let expr = CompiledXPath::compile("//claim").unwrap();
    assert_eq!(expr.eval_text(&index).unwrap(), vec!["A device for..."]);
}

#[test]
fn compiled_matches_one_shot() {
    let xml = b"<r><a>1</a><b><a>2</a></b><a>3</a></r>";
    let index = parse(xml).unwrap();
    for q in ["//a", "/r/a", "/r/b/a", "//a[last()]", "/r/*[2]"] {
        let compiled = CompiledXPath::compile(q).unwrap();
        assert_eq!(compiled.eval_text(&index).unwrap(), index.xpath_text(q).unwrap(), "{q}");
        assert_eq!(compiled.eval(&index).unwrap().len(), index.xpath(q).unwrap().len(), "{q}");
    }
}

#[test]
fn positional_predicates() {
    let xml = b"<r><a>x</a><a>y</a><a>z</a></r>";
    assert_eq!(texts(xml, "/r/a[1]"), vec!["x"]);
    assert_eq!(texts(xml, "/r/a[2]"), vec!["y"]);
    assert_eq!(texts(xml, "/r/a[3]"), vec!["z"]);
    assert_eq!(count(xml, "/r/a[4]"), 0);
    assert_eq!(count(xml, "/r/a[0]"), 0);
    assert_eq!(texts(xml, "/r/a[last()]"), vec!["z"]);
    assert_eq!(texts(xml, "/r/a[position()=last()]"), vec!["z"]);
    assert_eq!(texts(xml, "/r/a[position() < 3]"), vec!["x", "y"]);
    assert_eq!(texts(xml, "/r/a[position() != 2]"), vec!["x", "z"]);
}

#[test]
fn predicates_compose_in_order() {
    let xml = b"<r><a k='1'>p</a><a>q</a><a k='2'>s</a></r>";
    // [@k] keeps the first and third, then [2] the second of those
    assert_eq!(texts(xml, "/r/a[@k][2]"), vec!["s"]);
    // [2] keeps the second, which has no k
    assert_eq!(count(xml, "/r/a[2][@k]"), 0);
}

#[test]
fn attribute_predicates() {
    let xml = b"<r><a lang='en'>hello</a><a lang='fr'>bonjour</a><a>none</a></r>";
    assert_eq!(texts(xml, "/r/a[@lang='fr']"), vec!["bonjour"]);
    assert_eq!(texts(xml, "/r/a[@lang!='fr']"), vec!["hello"]);
    assert_eq!(texts(xml, "/r/a[not(@lang)]"), vec!["none"]);
    assert_eq!(texts(xml, "/r/a/@lang"), vec!["en", "fr"]);
    assert_eq!(count(xml, "/r/a[count(@lang)=1]"), 2);
}

#[test]
fn child_text_predicates() {
    let xml = b"<r><item><name>a</name></item><item><name>b</name></item></r>";
    assert_eq!(count(xml, "/r/item[name='b']"), 1);
    assert_eq!(count(xml, "/r/item[name]"), 2);
    assert_eq!(count(xml, "/r/item[true()]"), 2);
    assert_eq!(count(xml, "/r/item[false()]"), 0);
}

#[test]
fn union_concatenates() {
    let xml = b"<r><a>1</a><b>2</b><a>3</a></r>";
    assert_eq!(texts(xml, "//b | //a"), vec!["2", "1", "3"]);
    assert_eq!(count(xml, "/r/a|/r/b"), 3);
}

#[test]
fn surrounding_space_is_ignored() {
    let xml = b"<r><a>1</a></r>";
    assert_eq!(texts(xml, "  /r/a \n"), vec!["1"]);
    // U+00A0 and U+3000 are white space too
    assert_eq!(texts(xml, "\u{a0}/r/a\u{3000}"), vec!["1"]);
}

#[test]
fn double_slash_inside_a_path_selects_descendants() {
    let xml = b"<r><x><y><a>deep</a></y></x><a>top</a></r>";
    assert_eq!(texts(xml, "/r//a"), vec!["top", "deep"]);
    assert_eq!(texts(xml, "//x//a"), vec!["deep"]);
}

#[test]
fn explicit_axes() {
    let xml = b"<r><a><b/></a><c><d/></c><e/></r>";
    assert_eq!(count(xml, "/r/c/preceding-sibling::*"), 1);
    assert_eq!(count(xml, "/r/c/following-sibling::*"), 1);
    assert_eq!(count(xml, "/r/a/following::*"), 3);
    assert_eq!(count(xml, "/r/c/d/ancestor::*"), 2);
    assert_eq!(count(xml, "/r/c/d/ancestor-or-self::*"), 3);
    assert_eq!(count(xml, "/r/c/d/preceding::*"), 2);
    assert_eq!(count(xml, "/r/descendant::*"), 5);
    assert_eq!(count(xml, "/r/c/self::c"), 1);
    assert_eq!(count(xml, "/r/c/d/.."), 1);
    assert_eq!(count(xml, "/r/c/./d"), 1);
}

#[test]
fn parent_of_each_child_is_the_node() {
    let xml = b"<r><a/>text<b><c/></b></r>";
    let index = parse_scalar(xml).unwrap();
    let kids = eval_child_axis(&index, XPathNode::Element(0));
    assert_eq!(kids.len(), 3);
    for k in kids {
        let parents = simdxml::xpath::axes::eval_parent_axis(&index, k);
        assert!(matches!(parents[..], [XPathNode::Element(0)]));
    }
}

#[test]
fn following_and_preceding_axes() {
    let xml = b"<r><a><b/></a><c/></r>";
    let index = parse_scalar(xml).unwrap();
    // b is at 2; its preceding elements exclude its ancestors a and r
    assert!(eval_preceding_axis(&index, XPathNode::Element(2)).is_empty());
    // a is at 1 and closes at 3; c (at 4) follows it
    let following = eval_following_axis(&index, XPathNode::Element(1));
    assert!(matches!(following[..], [XPathNode::Element(4)]));
}

#[test]
fn node_type_tests() {
    let xml = b"<r><a>t</a>u<b/></r>";
    assert_eq!(count(xml, "/r/node()"), 3);
    assert_eq!(count(xml, "/r/text()"), 1);
    assert_eq!(texts(xml, "/r/a/text()"), vec!["t"]);
}

#[test]
fn raw_fragments() {
    let xml = b"<r><a x='1'><b>t</b></a><c/></r>";
    let index = parse(xml).unwrap();
    assert_eq!(index.xpath_raw("/r/a").unwrap(), vec!["<a x='1'><b>t</b></a>"]);
    assert_eq!(index.xpath_raw("/r/c").unwrap(), vec!["<c/>"]);
    assert_eq!(index.xpath_raw("/r/a/@x").unwrap(), vec!["1"]);
    assert_eq!(index.xpath_raw("//b/text()").unwrap(), vec!["t"]);
}

#[test]
fn unicode_names() {
    let xml = "<r><größe>5</größe></r>".as_bytes();
    assert_eq!(texts(xml, "/r/größe"), vec!["5"]);
}

#[test]
fn interesting_names_of_queries() {
    let names = CompiledXPath::compile("//claim").unwrap().interesting_names().unwrap();
    assert_eq!(names, vec!["claim".to_string()]);
    let names = CompiledXPath::compile("/a/b[c='x'] | /a/b").unwrap().interesting_names().unwrap();
    assert_eq!(names, vec!["a".to_string(), "b".to_string(), "c".to_string()]);
    let names = CompiledXPath::compile("/svg:svg/@width").unwrap().interesting_names().unwrap();
    assert_eq!(names, vec!["svg:svg".to_string()]);
    assert!(CompiledXPath::compile("//*").unwrap().interesting_names().is_none());
    assert!(CompiledXPath::compile("/a/node()").unwrap().interesting_names().is_none());
}

#[test]
fn xpath_errors() {
    let index = parse(b"<r/>").unwrap();
    assert!(matches!(index.xpath("/r["), Err(SimdXmlError::XPathParseError(_))));
    assert!(matches!(index.xpath(""), Err(SimdXmlError::XPathParseError(_))));
    assert!(matches!(index.xpath("/r/foo()"), Err(SimdXmlError::XPathParseError(_))));
    assert!(matches!(index.xpath("r"), Err(SimdXmlError::XPathEvalError(_))));
    assert_eq!(index.xpath("/r[@x < 'a']").unwrap().len(), 0);
    assert!(matches!(index.xpath("/r[count(1)]"), Err(SimdXmlError::XPathEvalError(_))));
    assert!(matches!(index.xpath("/r[last(1)]"), Err(SimdXmlError::XPathEvalError(_))));
    assert!(CompiledXPath::compile("/r[").is_err());
}

#[test]
fn parse_errors() {
    assert!(matches!(parse(b"<r><!-- never closed"), Err(SimdXmlError::UnclosedTag(3))));
    let deep = "<a>".repeat(70_000);
    assert!(matches!(parse(deep.as_bytes()), Err(SimdXmlError::InvalidXml(_))));
}

#[test]
fn index_accessors() {
    let xml = b"<r><a>one</a><b>two<c>three</c></b></r>";
    let index = parse(xml).unwrap();
    assert_eq!(index.tag_count(), 8);
    assert_eq!(index.text_count(), 3);
    assert_eq!(index.tag_name(1), "a");
    assert!(index.tag_name_eq(3, "b"));
    assert!(!index.tag_name_eq(3, "a"));
    assert_eq!(index.matching_close(3), Some(6));
    assert_eq!(index.children(0), vec![1, 3]);
    assert_eq!(index.direct_text(3), vec!["two"]);
    assert_eq!(index.all_text(3), "twothree");
    assert_eq!(index.get_attribute(1, "x"), None);
}

#[test]
fn invalid_utf8_attribute_value() {
    let xml = b"<r a='\xff'/>";
    let index = parse(xml).unwrap();
    assert_eq!(index.get_attribute(0, "a"), None);
}

#[test]
fn comparisons_convert_values() {
    let xml = b"<r><a n=\"2\">x</a><a n=\"3\"> 3 </a><a n=\"-0\">y</a></r>";
    // A number against a string that is not a number: no match, no error.
    assert_eq!(count(b"<r/>", "/self::node()[1 = \"\"]"), 0);
    assert_eq!(count(xml, "//a[@n = 2]"), 1);
    assert_eq!(count(xml, "//a[2 = @n]"), 1);
    assert_eq!(count(xml, "//a[@n != 2]"), 2);
    assert_eq!(count(xml, "//a[text() = 3]"), 1);
    assert_eq!(count(xml, "//a[@n = 0]"), 1);
    assert_eq!(count(xml, "//a[\"3.0\" = 3]"), 3);
    assert_eq!(count(xml, "//a[\"3.5\" = 3]"), 0);
    assert_eq!(count(xml, "//a[true() = @n]"), 3);
    assert_eq!(count(xml, "//a[false() = @missing]"), 3);
}

#[test]
fn document_root_descendants_include_the_root_element() {
    assert_eq!(count(b"<r/>", "//r"), 1);
    assert_eq!(count(b"<r>t<r>u</r></r>", "//r"), 2);
}

#[test]
fn comments_and_processing_instructions_are_children() {
    let xml = b"<r><!--x--><?p d?><a/></r>";
    assert_eq!(count(xml, "/r/comment()"), 1);
    assert_eq!(count(xml, "/r/processing-instruction()"), 1);
    assert_eq!(count(xml, "/r/node()"), 3);
    assert_eq!(count(xml, "/r/*"), 1);
    assert_eq!(count(xml, "//comment()"), 1);
}

#[test]
fn element_children_and_whole_attribute_names() {
    let index = parse(b"<r><!--c--><a/></r>").unwrap();
    assert_eq!(index.children(0), vec![2]);
    let index = parse(br#"<a data-lang="x" lang="y"/>"#).unwrap();
    assert_eq!(index.get_attribute(0, "lang"), Some("y"));
    assert_eq!(index.get_attribute(0, "data-lang"), Some("x"));
    assert_eq!(index.get_attribute(0, "ang"), None);
}

#[test]
fn all_text_decodes_utf8() {
    let index = parse("<a>é<b>ü</b></a>".as_bytes()).unwrap();
    assert_eq!(index.all_text(0), "éü");
}

#[test]
fn compile_reports_parse_xpath_error() {
    match CompiledXPath::compile("//a]") {
        Err(SimdXmlError::XPathParseError(m)) => assert_eq!(m, "Unexpected trailing input"),
        _ => panic!("expected a parse error"),
    }
    match CompiledXPath::compile("]") {
        Err(SimdXmlError::XPathParseError(m)) => assert_eq!(m, "Invalid XPath expression"),
        _ => panic!("expected a parse error"),
    }
}

#[test]
fn relational_comparisons_convert_to_numbers() {
    let r = b"<r/>";
    assert_eq!(count(r, "/*[true() < false()]"), 0);
    assert_eq!(count(r, "/*[false() < true()]"), 1);
    assert_eq!(count(r, "/*[\"10\" > \"9\"]"), 1);
    assert_eq!(count(r, "/*[\"abc\" < 1]"), 0);
    assert_eq!(count(r, "/*[\"abc\" != 1]"), 1);
    assert_eq!(count(r, "/*[\"1.50\" = \"1.5\"]"), 0);
    assert_eq!(count(r, "/*[\"1.50\" >= \"1.5\"]"), 1);
    assert_eq!(count(r, "/*[\"-0.5\" < 0]"), 1);
    assert_eq!(count(r, "/*[\" 2.5 \" > 2]"), 1);
    assert_eq!(count(r, "/*[\"2.5\" < 3]"), 1);
    let xml = b"<r><a n=\"2\" m=\"1.5\"/><a n=\"1\" m=\"1.5\"/><a n=\"x\" m=\"0\"/></r>";
    assert_eq!(count(xml, "//a[@n > @m]"), 1);
    assert_eq!(count(xml, "//a[@n < 2]"), 1);
    assert_eq!(count(xml, "//a[@n <= \"2.0\"]"), 2);
    assert_eq!(count(xml, "//a[@m = /r/a/@m]"), 3);
    assert_eq!(count(xml, "//a[@n >= true()]"), 3);
}
