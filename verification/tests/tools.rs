use simdxml::simd::scalar::classify_scalar;
use simdxml::cli::{shown, is_blank, json_array, json_string, max_depth, sources_from_args, tag_name_counts, Source};
use simdxml::parallel::split::{find_safe_boundary, find_split_points, parallel_chunks, MIN_PARALLEL_SIZE};
use simdxml::xpath_table::{XPathTextVTab, CHUNK_ROWS};
use simdxml::parse;

#[test]
fn json_escapes() {
    assert_eq!(json_string("plain"), "\"plain\"");
    assert_eq!(json_string("a\"b\\c"), "\"a\\\"b\\\\c\"");
    assert_eq!(json_string("l1\nl2\r\t"), "\"l1\\nl2\\r\\t\"");
    assert_eq!(json_string("\u{1}\u{1f}\u{7f}\u{9f}"), "\"\\u0001\\u001f\\u007f\\u009f\"");
    assert_eq!(json_string("é€"), "\"é€\"");
}

#[test]
fn json_arrays() {
    assert_eq!(json_array(&[]), "[]\n");
    assert_eq!(json_array(&["a".to_string()]), "[\"a\"]\n");
    assert_eq!(json_array(&["a".to_string(), "b\"".to_string()]), "[\"a\",\"b\\\"\"]\n");
}

#[test]
fn blank_results() {
    assert!(is_blank(""));
    assert!(is_blank(" \n\t\u{3000}"));
    assert!(!is_blank(" x "));
}

#[test]
fn sources_and_names() {
    let args = vec!["a.xml".to_string(), "-".to_string()];
    let sources = sources_from_args(&args);
    assert_eq!(sources.len(), 2);
    assert!(matches!(&sources[0], Source::File(p) if p == "a.xml"));
    assert!(matches!(sources[1], Source::Stdin));
    assert_eq!(sources[0].display_name(), "a.xml");
    assert_eq!(sources[1].display_name(), "<stdin>");
}

#[test]
fn tag_statistics() {
    let xml = b"<r><a/><b/><a/><c><b/><a/></c></r>";
    let index = parse(xml).unwrap();
    assert_eq!(tag_name_counts(&index), vec![("a", 3), ("b", 2), ("r", 1), ("c", 1)]);
    assert_eq!(max_depth(&index), 2);
}

#[test]
fn safe_boundary_cases() {
    // A '>' followed by text is passed over; the one before '<' is taken
    let xml = b"<a>x > y</a><b/>";
    assert_eq!(find_safe_boundary(xml, 13), Some(12));
    // No boundary before the target: the first '>' after it
    assert_eq!(find_safe_boundary(xml, 7), Some(12));
    // With no boundary before the target, the first '>' after it is taken
    assert_eq!(find_safe_boundary(b"abc<d>", 1), Some(6));
    assert_eq!(find_safe_boundary(b"no tags", 3), None);
    // Past the end, the target is the end
    assert_eq!(find_safe_boundary(b"<a/>", 100), Some(4));
}

#[test]
fn split_points_increase() {
    let mut xml = String::from("<r>");
    for i in 0..500 {
        xml.push_str(&format!("<i>{}</i>", i));
    }
    xml.push_str("</r>");
    let bytes = xml.as_bytes();
    let splits = find_split_points(bytes, 8);
    assert!(!splits.is_empty());
    assert!(splits.windows(2).all(|w| w[0] < w[1]));
    assert!(splits.iter().all(|&s| s > 0 && s < bytes.len() && bytes[s - 1] == b'>'));
    assert!(find_split_points(bytes, 1).is_empty());
}

#[test]
fn chunk_counts() {
    assert_eq!(MIN_PARALLEL_SIZE, 65536);
    assert_eq!(parallel_chunks(1_000_000, 1), None);
    assert_eq!(parallel_chunks(1000, 8), None);
    assert_eq!(parallel_chunks(1_000_000, 4), Some(4));
    assert_eq!(parallel_chunks(100_000, 8), Some(3));
}

#[test]
fn table_function_hands_out_chunks() {
    let mut xml = String::from("<r>");
    for i in 0..3000 {
        xml.push_str(&format!("<v>{}</v>", i));
    }
    xml.push_str("</r>");
    let bind = XPathTextVTab::bind(xml, "//v".to_string());
    let mut init = XPathTextVTab::init();
    let first = XPathTextVTab::func(&mut init, &bind).unwrap();
    assert_eq!(first.len(), CHUNK_ROWS);
    assert_eq!(first[0], "0");
    let second = XPathTextVTab::func(&mut init, &bind).unwrap();
    assert_eq!(second.len(), 3000 - CHUNK_ROWS);
    assert_eq!(second[second.len() - 1], "2999");
    assert!(XPathTextVTab::func(&mut init, &bind).unwrap().is_empty());
}

#[test]
fn table_function_errors() {
    let bind = XPathTextVTab::bind("<r><!--".to_string(), "//r".to_string());
    let mut init = XPathTextVTab::init();
    assert!(XPathTextVTab::func(&mut init, &bind).is_err());
    // The call is spent: no rows afterwards
    assert!(XPathTextVTab::func(&mut init, &bind).unwrap().is_empty());
    let bind = XPathTextVTab::bind("<r/>".to_string(), "/r[".to_string());
    let mut init = XPathTextVTab::init();
    assert!(XPathTextVTab::func(&mut init, &bind).is_err());
}

#[test]
fn readme_table_function() {
    let bind = XPathTextVTab::bind(
        "<patent><claim>text</claim></patent>".to_string(),
        "//claim".to_string(),
    );
    let mut init = XPathTextVTab::init();
    assert_eq!(XPathTextVTab::func(&mut init, &bind).unwrap(), vec!["text".to_string()]);
}

#[test]
fn quotes_in_text_do_not_mask() {
    let r = classify_scalar(b"<a>it's</a>");
    assert_eq!(r.len, 11);
    assert_eq!(r.lt_bits, vec![0b1000_0001]);
    assert_eq!(r.gt_bits, vec![0b100_0000_0100]);
    let r = classify_scalar(b"<a x='>'>b</a>");
    assert_eq!(r.lt_bits, vec![(1 << 0) | (1 << 10)]);
    assert_eq!(r.gt_bits, vec![(1 << 8) | (1 << 13)]);
}

#[test]
fn blank_results_are_not_shown() {
    assert_eq!(shown(vec!["a", " \n", "b"], false), vec!["a", "b"]);
    assert_eq!(shown(vec!["a", " \n", "b"], true), vec!["a", " \n", "b"]);
}

#[test]
fn unicode_white_space_is_blank() {
    assert!(is_blank("\u{3000}\u{2028} \t"));
    assert!(!is_blank("\u{200b}"));
}
