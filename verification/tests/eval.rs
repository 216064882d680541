use simdxml::index::structural::parse_scalar;
use simdxml::xpath::axes::{
    eval_ancestor_axis, eval_following_sibling_axis, eval_parent_axis, eval_preceding_sibling_axis,
};
use simdxml::xpath::eval::{eval_text, evaluate};
use simdxml::xpath::parser::parse_xpath;
use simdxml::xpath::XPathNode;

fn query_text(xml: &[u8], xpath: &str) -> Vec<String> {
    let index = parse_scalar(xml).unwrap();
    let expr = parse_xpath(xpath).unwrap();
    eval_text(&index, &expr).unwrap().iter().map(|s| s.to_string()).collect()
}

fn query_names(xml: &[u8], xpath: &str) -> Vec<String> {
    let index = parse_scalar(xml).unwrap();
    let expr = parse_xpath(xpath).unwrap();
    let nodes = evaluate(&index, &expr).unwrap();
    nodes
        .iter()
        .filter_map(|n| match n {
            XPathNode::Element(idx) => Some(index.tag_name(*idx).to_string()),
            _ => None,
        })
        .collect()
}

#[test]
fn test_simple_child() {
    let names = query_names(b"<root><a/><b/><c/></root>", "/root/*");
    assert_eq!(names, vec!["a", "b", "c"]);
}

#[test]
fn test_specific_child() {
    let names = query_names(b"<root><a/><b/><c/></root>", "/root/b");
    assert_eq!(names, vec!["b"]);
}

#[test]
fn test_text_content() {
    let texts = query_text(b"<root><item>hello</item><item>world</item></root>", "/root/item");
    assert_eq!(texts, vec!["hello", "world"]);
}

#[test]
fn eval_test_descendant() {
    let names = query_names(b"<root><a><b><c/></b></a></root>", "//c");
    assert_eq!(names, vec!["c"]);
}

#[test]
fn eval_test_text_node() {
    let texts = query_text(b"<root>hello</root>", "/root/text()");
    assert_eq!(texts, vec!["hello"]);
}

#[test]
fn eval_test_wildcard() {
    let names = query_names(b"<root><a/><b/></root>", "/root/*");
    assert_eq!(names, vec!["a", "b"]);
}

#[test]
fn test_deep_path() {
    let texts = query_text(
        b"<patent><claims><claim>Claim 1 text</claim></claims></patent>",
        "/patent/claims/claim",
    );
    assert_eq!(texts, vec!["Claim 1 text"]);
}

#[test]
fn test_descendant_deep() {
    let names = query_names(b"<a><b><c><d/></c></b><e><d/></e></a>", "//d");
    assert_eq!(names.len(), 2);
}

#[test]
fn test_following_sibling() {
    let xml = b"<root><a/><b/><c/></root>";
    let index = parse_scalar(xml).unwrap();
    // Get siblings following <a>
    let a_idx = 1; // <a> is at index 1 (after <root>)
    let siblings = eval_following_sibling_axis(&index, XPathNode::Element(a_idx));
    assert_eq!(siblings.len(), 2); // b and c
}

#[test]
fn test_preceding_sibling() {
    let xml = b"<root><a/><b/><c/></root>";
    let index = parse_scalar(xml).unwrap();
    let c_idx = 3; // <c> is at index 3
    let siblings = eval_preceding_sibling_axis(&index, XPathNode::Element(c_idx));
    assert_eq!(siblings.len(), 2); // a and b (in reverse order)
}

#[test]
fn test_parent() {
    let xml = b"<root><child/></root>";
    let index = parse_scalar(xml).unwrap();
    let parents = eval_parent_axis(&index, XPathNode::Element(1)); // child's parent
    assert_eq!(parents.len(), 1);
    match parents[0] {
        XPathNode::Element(idx) => assert_eq!(index.tag_name(idx), "root"),
        _ => panic!("Expected element"),
    }
}

#[test]
fn test_ancestor() {
    let xml = b"<a><b><c/></b></a>";
    let index = parse_scalar(xml).unwrap();
    let ancestors = eval_ancestor_axis(&index, XPathNode::Element(2), false); // c's ancestors
    assert_eq!(ancestors.len(), 2); // b and a
}
