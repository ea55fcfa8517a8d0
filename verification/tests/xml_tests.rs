use repo_proxy::metalink::Metalink;
use repo_proxy::xml_tree::{XmlError, XmlTree};

#[test]
fn parse_minimal_document_shapes_the_tree() {
    let tree = XmlTree::try_from_bytes(b"<a><b>x</b><c/></a>").expect("well-formed document");
    let root = &tree.root_node;
    assert_eq!(root.name(), String::from("a"));
    assert_eq!(root.characters, None);
    assert_eq!(root.children.len(), 2);
    assert_eq!(root.children[0].name(), String::from("b"));
    assert_eq!(root.children[0].characters, Some(String::from("x")));
    assert_eq!(root.children[0].children.len(), 0);
    assert_eq!(root.children[1].name(), String::from("c"));
    assert_eq!(root.children[1].characters, None);
    assert_eq!(root.children[1].children.len(), 0);
}

#[test]
fn reencoding_reproduces_the_minimal_document() {
    let tree = XmlTree::try_from_bytes(b"<a><b>x</b><c/></a>").expect("well-formed document");
    let text = tree.to_xml_string();
    assert_eq!(text, String::from("<?xml version=\"1.0\" encoding=\"UTF-8\"?><a><b>x</b><c/></a>"));
}

#[test]
fn reencoding_keeps_attributes() {
    let tree =
        XmlTree::try_from_bytes(b"<a k=\"v\"><b>x</b></a>").expect("well-formed document");
    let text = tree.to_xml_string();
    assert_eq!(
        text,
        String::from("<?xml version=\"1.0\" encoding=\"UTF-8\"?><a k=\"v\"><b>x</b></a>")
    );
}

#[test]
fn parse_and_reencode_round_trip_is_stable() {
    // Once parsed and re-encoded, the text re-parses to the same tree, and a
    // second round trip changes nothing more.
    let first = XmlTree::try_from_bytes(b"<a><b>x</b><c/></a>").expect("well-formed document");
    let text1 = first.to_xml_string();
    let second = XmlTree::try_from_bytes(text1.as_bytes()).expect("re-encoded document");
    let text2 = second.to_xml_string();
    assert_eq!(text1, text2);
}

#[test]
fn insignificant_whitespace_does_not_change_the_tree() {
    let compact = XmlTree::try_from_bytes(b"<a><b>x</b><c/></a>").expect("well-formed document");
    let spaced =
        XmlTree::try_from_bytes(b"<a>\n  <b>x</b>\n  <c/>\n</a>").expect("well-formed document");
    assert_eq!(compact.to_xml_string(), spaced.to_xml_string());
}

#[test]
fn parse_rejects_text_beside_children() {
    let r = XmlTree::try_from_bytes(b"<a>t<b/></a>");
    assert_eq!(r.unwrap_err(), XmlError::TextBesideChildren);
}

#[test]
fn parse_rejects_malformed_bytes() {
    assert!(XmlTree::try_from_bytes(b"").is_err());
    assert!(XmlTree::try_from_bytes(b"<a><b></a>").is_err());
    assert!(XmlTree::try_from_bytes(b"not xml at all").is_err());
}

#[test]
fn find_one_returns_the_first_matching_child() {
    let tree =
        XmlTree::try_from_bytes(b"<a><b>1</b><c>2</c><b>3</b></a>").expect("well-formed document");
    let b = tree.root_node.find_one("b").expect("a child named b exists");
    assert_eq!(b.characters, Some(String::from("1")));
    assert!(tree.root_node.find_one("missing").is_none());
}

#[test]
fn find_all_returns_matching_children_in_order() {
    let tree =
        XmlTree::try_from_bytes(b"<a><b>1</b><c>2</c><b>3</b></a>").expect("well-formed document");
    let bs = tree.root_node.find_all("b");
    assert_eq!(bs.len(), 2);
    assert_eq!(bs[0].characters, Some(String::from("1")));
    assert_eq!(bs[1].characters, Some(String::from("3")));
}

#[test]
fn metalink_filtering_keeps_only_http_mirrors() {
    let doc = b"<metalink><files><file><resources>\
        <url>http://m1</url><url>ftp://m2</url><url>https://m3</url>\
        </resources></file></files></metalink>";
    let m = Metalink::try_from_bytes(doc).expect("well-formed metalink");
    let files = m.tree.root_node.find_one("files").expect("files element");
    let file = files.find_one("file").expect("file element");
    let resources = file.find_one("resources").expect("resources element");
    assert_eq!(resources.children.len(), 2);
    assert_eq!(resources.children[0].characters, Some(String::from("http://m1")));
    assert_eq!(resources.children[1].characters, Some(String::from("https://m3")));
    let text = m.to_xml_string();
    assert!(!text.contains("ftp://m2"));
    assert!(text.contains("http://m1"));
}

#[test]
fn filter_children_in_place_keeps_approved_children_in_order() {
    let mut tree =
        XmlTree::try_from_bytes(b"<a><b>1</b><c>2</c><b>3</b></a>").expect("well-formed document");
    tree.root_node.filter_children_in_place(|c| c.name() == "b");
    assert_eq!(tree.root_node.children.len(), 2);
    assert_eq!(tree.root_node.children[0].characters, Some(String::from("1")));
    assert_eq!(tree.root_node.children[1].characters, Some(String::from("3")));
}

#[test]
fn metalink_without_files_element_is_left_alone() {
    let m = Metalink::try_from_bytes(b"<metalink><other>x</other></metalink>")
        .expect("well-formed document");
    let other = m.tree.root_node.find_one("other").expect("other element");
    assert_eq!(other.characters, Some(String::from("x")));
}
