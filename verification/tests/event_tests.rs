use repo_proxy::xml_tree::{XmlError, XmlEvent, XmlNode};

fn start(name: &str) -> XmlEvent {
    XmlEvent::StartElement { name: String::from(name), attributes: Vec::new() }
}

fn end(name: &str) -> XmlEvent {
    XmlEvent::EndElement { name: String::from(name) }
}

fn text(s: &str) -> XmlEvent {
    XmlEvent::Characters(String::from(s))
}

#[test]
fn events_fold_into_a_node_and_report_consumption() {
    let events = vec![start("a"), text("x"), end("a"), start("b")];
    let (node, next) = XmlNode::try_from_events(&events, 0, 8).expect("a complete element");
    assert_eq!(next, 3);
    assert_eq!(node.name(), String::from("a"));
    assert_eq!(node.characters, Some(String::from("x")));
    assert_eq!(node.children.len(), 0);
}

#[test]
fn nested_elements_become_children() {
    let events = vec![start("a"), start("b"), end("b"), start("c"), end("c"), end("a")];
    let (node, next) = XmlNode::try_from_events(&events, 0, 8).expect("a complete element");
    assert_eq!(next, 6);
    assert_eq!(node.children.len(), 2);
    assert_eq!(node.children[0].name(), String::from("b"));
    assert_eq!(node.children[1].name(), String::from("c"));
}

#[test]
fn an_element_must_open_with_a_start_tag() {
    let events = vec![text("x")];
    assert_eq!(XmlNode::try_from_events(&events, 0, 8).unwrap_err(), XmlError::UnexpectedEvent);
}

#[test]
fn an_unsupported_event_kind_fails_fast() {
    let events = vec![start("a"), XmlEvent::Unsupported, end("a")];
    assert_eq!(XmlNode::try_from_events(&events, 0, 8).unwrap_err(), XmlError::UnexpectedEvent);
}

#[test]
fn running_out_of_events_is_reported() {
    let events = vec![start("a"), text("x")];
    assert_eq!(XmlNode::try_from_events(&events, 0, 8).unwrap_err(), XmlError::UnexpectedEnd);
}

#[test]
fn an_end_tag_must_carry_the_open_elements_name() {
    let events = vec![start("a"), end("b")];
    assert_eq!(XmlNode::try_from_events(&events, 0, 8).unwrap_err(), XmlError::MismatchedEnd);
}

#[test]
fn text_beside_children_is_rejected_in_either_order() {
    let events = vec![start("a"), text("x"), start("b"), end("b"), end("a")];
    assert_eq!(
        XmlNode::try_from_events(&events, 0, 8).unwrap_err(),
        XmlError::TextBesideChildren
    );
    let events2 = vec![start("a"), start("b"), end("b"), text("x"), end("a")];
    assert_eq!(
        XmlNode::try_from_events(&events2, 0, 8).unwrap_err(),
        XmlError::TextBesideChildren
    );
    let events3 = vec![start("a"), text("x"), text("y"), end("a")];
    assert_eq!(
        XmlNode::try_from_events(&events3, 0, 8).unwrap_err(),
        XmlError::TextBesideChildren
    );
}

#[test]
fn nesting_beyond_the_depth_bound_is_refused() {
    let mut events = Vec::new();
    for _ in 0..5 {
        events.push(start("a"));
    }
    for _ in 0..5 {
        events.push(end("a"));
    }
    assert_eq!(XmlNode::try_from_events(&events, 0, 4).unwrap_err(), XmlError::TooDeep);
    assert!(XmlNode::try_from_events(&events, 0, 5).is_ok());
}
