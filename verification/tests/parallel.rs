use simdxml::parallel::merge::merge_chunks;
use simdxml::parallel::scan_chunk_exec;
use simdxml::parallel::split::{find_safe_boundary, find_split_points};

#[test]
fn find_safe_boundary_basic() {
    let xml = b"<root><a>text</a><b>more</b></root>";
    let boundary = find_safe_boundary(xml, 15).unwrap();
    // Should find a > followed by <
    assert!(boundary > 0 && boundary <= xml.len());
    assert!(xml[boundary - 1] == b'>');
}

#[test]
fn split_points_reasonable() {
    // Create a ~128KB document
    let mut xml = String::from("<root>");
    for i in 0..2000 {
        xml.push_str(&format!("<item id=\"{}\">content {}</item>", i, i));
    }
    xml.push_str("</root>");
    let bytes = xml.as_bytes();

    let splits = find_split_points(bytes, 4);
    // Should have up to 3 split points for 4 chunks
    assert!(!splits.is_empty());
    assert!(splits.len() <= 3);

    // Each split should be at a > boundary
    for &s in &splits {
        assert!(s > 0);
        assert_eq!(bytes[s - 1], b'>');
    }
}

#[test]
fn chunked_parse_matches_sequential() {
    let mut xml = String::from("<?xml version=\"1.0\"?><root>");
    for i in 0..300 {
        xml.push_str(&format!(
            "<item id=\"{}\"><!-- note {} --><name>n{}</name><![CDATA[raw {}]]><empty/></item>\n",
            i, i, i, i
        ));
    }
    xml.push_str("</root>");
    let bytes = xml.as_bytes();

    let splits = find_split_points(bytes, 4);
    assert!(!splits.is_empty());
    let mut chunks = Vec::new();
    for i in 0..=splits.len() {
        let start = if i == 0 { 0 } else { splits[i - 1] };
        let end = if i < splits.len() { splits[i] } else { bytes.len() };
        let (chunk, overrun) = scan_chunk_exec(&bytes[start..end], start);
        assert!(overrun.is_none());
        chunks.push(chunk);
    }
    let merged = merge_chunks(bytes, chunks).unwrap();
    let whole = simdxml::parse(bytes).unwrap();

    assert_eq!(merged.tag_count(), whole.tag_count());
    assert_eq!(merged.text_count(), whole.text_count());
    for i in 0..whole.tag_count() {
        assert_eq!(merged.tag_name(i), whole.tag_name(i));
        assert_eq!(merged.matching_close(i), whole.matching_close(i));
    }
    assert_eq!(merged.xpath_text("//item/name").unwrap(), whole.xpath_text("//item/name").unwrap());
    assert_eq!(merged.xpath_text("//name").unwrap().len(), 300);
}
