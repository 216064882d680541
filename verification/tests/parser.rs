use simdxml::xpath::ast::{Axis, NodeTest, XPathExpr};
use simdxml::xpath::parser::parse_xpath;

#[test]
fn test_simple_path() {
    let expr = parse_xpath("/root/child").unwrap();
    match expr {
        XPathExpr::LocationPath(path) => {
            assert!(path.absolute);
            assert_eq!(path.steps.len(), 2);
            assert_eq!(path.steps[0].node_test, NodeTest::Name("root".into()));
            assert_eq!(path.steps[1].node_test, NodeTest::Name("child".into()));
        }
        _ => panic!("Expected LocationPath"),
    }
}

#[test]
fn parser_test_descendant() {
    let expr = parse_xpath("//claim").unwrap();
    match expr {
        XPathExpr::LocationPath(path) => {
            assert!(path.absolute);
            // First step is descendant-or-self::node()
            assert_eq!(path.steps[0].axis, Axis::DescendantOrSelf);
            assert_eq!(path.steps[1].node_test, NodeTest::Name("claim".into()));
        }
        _ => panic!("Expected LocationPath"),
    }
}

#[test]
fn parser_test_text_node() {
    let expr = parse_xpath("//claim/text()").unwrap();
    match expr {
        XPathExpr::LocationPath(path) => {
            let last = path.steps.last().unwrap();
            assert_eq!(last.node_test, NodeTest::Text);
        }
        _ => panic!("Expected LocationPath"),
    }
}

#[test]
fn test_attribute() {
    let expr = parse_xpath("/root/@lang").unwrap();
    match expr {
        XPathExpr::LocationPath(path) => {
            let last = path.steps.last().unwrap();
            assert_eq!(last.axis, Axis::Attribute);
            assert_eq!(last.node_test, NodeTest::Name("lang".into()));
        }
        _ => panic!("Expected LocationPath"),
    }
}

#[test]
fn parser_test_wildcard() {
    let expr = parse_xpath("/root/*").unwrap();
    match expr {
        XPathExpr::LocationPath(path) => {
            let last = path.steps.last().unwrap();
            assert_eq!(last.node_test, NodeTest::Wildcard);
        }
        _ => panic!("Expected LocationPath"),
    }
}

#[test]
fn test_parent_axis() {
    let expr = parse_xpath("..").unwrap();
    match expr {
        XPathExpr::LocationPath(path) => {
            assert_eq!(path.steps[0].axis, Axis::Parent);
        }
        _ => panic!("Expected LocationPath"),
    }
}

#[test]
fn test_explicit_axis() {
    let expr = parse_xpath("ancestor::div").unwrap();
    match expr {
        XPathExpr::LocationPath(path) => {
            assert_eq!(path.steps[0].axis, Axis::Ancestor);
            assert_eq!(path.steps[0].node_test, NodeTest::Name("div".into()));
        }
        _ => panic!("Expected LocationPath"),
    }
}
