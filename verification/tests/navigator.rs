use camt052::xml_tree::parse_xml;

const DOC: &str = r#"<?xml version="1.0" encoding="UTF-8"?>
<Root>
  <A><B>one</B><C>x</C><B>two</B></A>
  <D><B>not under A</B></D>
  <A><B>three</B></A>
  <A><C>y</C></A>
</Root>"#;

#[test]
fn filter_returns_document_order_and_counts_all_matches() {
    let tree = parse_xml(&DOC.as_bytes().to_vec()).unwrap();
    let root_elem = tree.find(0, "Root").unwrap();
    let hits = tree.filter(root_elem, "A/B");
    // Three B children across the three A children, interleaved siblings
    // notwithstanding, in document order.
    assert_eq!(hits.len(), 3);
    let texts: Vec<&str> = hits
        .iter()
        .map(|&n| tree.nodes[n].text.as_deref().unwrap())
        .collect();
    assert_eq!(texts, vec!["one", "two", "three"]);
}

#[test]
fn find_takes_the_first_matching_child_at_each_segment() {
    let tree = parse_xml(&DOC.as_bytes().to_vec()).unwrap();
    let root_elem = tree.find(0, "Root").unwrap();
    // Both segments have several candidates; the first A and its first B win.
    let b = tree.find(root_elem, "A/B").unwrap();
    assert_eq!(tree.nodes[b].text.as_deref(), Some("one"));
}

#[test]
fn find_is_absent_when_any_segment_has_no_match() {
    let tree = parse_xml(&DOC.as_bytes().to_vec()).unwrap();
    let root_elem = tree.find(0, "Root").unwrap();
    assert!(tree.find(root_elem, "A/Z").is_none());
    assert!(tree.find(root_elem, "Z/B").is_none());
}

#[test]
fn find_text_and_attributes_resolve() {
    let xml = r#"<?xml version="1.0"?><R><Amt Ccy="EUR">12.50</Amt><Empty/></R>"#;
    let tree = parse_xml(&xml.as_bytes().to_vec()).unwrap();
    let r = tree.find(0, "R").unwrap();
    assert_eq!(tree.find_text(r, "Amt").as_deref(), Some("12.50"));
    assert_eq!(tree.find_attr(r, "Amt", "Ccy").as_deref(), Some("EUR"));
    assert!(tree.find_attr(r, "Amt", "Unit").is_none());
    assert!(tree.find_text(r, "Empty").is_none());
}

#[test]
fn malformed_xml_is_rejected() {
    assert!(parse_xml(&b"<open><unclosed>".to_vec()).is_err());
    assert!(parse_xml(&b"plain text".to_vec()).is_err());
    assert!(parse_xml(&vec![0xffu8, 0xfe, 0x00]).is_err());
}
