use pinout::error::Failure;
use pinout::xml::{XmlAttribute, XmlDocument, XmlNode};

fn node(element: bool, tag: &str, parent: Option<usize>, span: usize) -> XmlNode {
    XmlNode {
        element,
        tag: tag.to_string(),
        attributes: Vec::new(),
        text: None,
        parent,
        span,
    }
}

#[test]
fn parse_lists_the_nodes_in_document_order() {
    let doc = XmlDocument::parse("<a x='1' y='2'>hello<b/><!--c--><d>t</d></a>").unwrap();
    let tags: Vec<&str> = doc.nodes.iter().map(|n| n.tag.as_str()).collect();
    assert_eq!(tags, vec!["", "a", "", "b", "", "d", ""]);
    let elements: Vec<bool> = doc.nodes.iter().map(|n| n.element).collect();
    assert_eq!(elements, vec![false, true, false, true, false, true, false]);
    let parents: Vec<Option<usize>> = doc.nodes.iter().map(|n| n.parent).collect();
    assert_eq!(parents, vec![None, Some(0), Some(1), Some(1), Some(1), Some(1), Some(5)]);
    let spans: Vec<usize> = doc.nodes.iter().map(|n| n.span).collect();
    assert_eq!(spans, vec![7, 6, 1, 1, 1, 2, 1]);
    let texts: Vec<Option<&str>> = doc.nodes.iter().map(|n| n.text.as_deref()).collect();
    assert_eq!(texts, vec![None, Some("hello"), Some("hello"), None, Some("c"), Some("t"), Some("t")]);
    let attributes: Vec<(&str, &str)> =
        doc.nodes[1].attributes.iter().map(|a| (a.name.as_str(), a.value.as_str())).collect();
    assert_eq!(attributes, vec![("x", "1"), ("y", "2")]);
}

#[test]
fn parse_drops_namespace_prefixes_from_names() {
    let doc = XmlDocument::parse("<n:a xmlns:n='urn:x' n:k='v' k='w'/>").unwrap();
    assert_eq!(doc.nodes[1].tag, "a");
    assert_eq!(doc.attribute(1, "k").as_deref(), Some("v"));
}

#[test]
fn parse_rejects_what_is_no_document() {
    for text in ["", "plain", "<a>", "<a></b>", "<a/><b/>", "<a x=1/>", "<!-- only -->"] {
        assert!(matches!(XmlDocument::parse(text), Err(Failure::Xml(_))), "{:?}", text);
    }
}

#[test]
fn root_element_is_the_first_element_of_the_document() {
    let doc = XmlDocument::parse("<?xml version='1.0'?><!-- c --><a><b/></a>").unwrap();
    let root = doc.root_element().unwrap();
    assert_eq!(doc.nodes[root].tag, "a");
    assert_eq!(XmlDocument { nodes: Vec::new() }.root_element(), None);
    assert_eq!(XmlDocument { nodes: vec![node(false, "", None, 1)] }.root_element(), None);
}

#[test]
fn children_with_tag_lists_children_only() {
    let doc = XmlDocument::parse("<a><b i='0'/><c><b i='1'/></c>text<b i='2'/><B/></a>").unwrap();
    let root = doc.root_element().unwrap();
    let found: Vec<Option<String>> =
        doc.children_with_tag(root, "b").iter().map(|&j| doc.attribute(j, "i")).collect();
    assert_eq!(found, vec![Some("0".to_string()), Some("2".to_string())]);
    assert!(doc.children_with_tag(root, "x").is_empty());
    assert!(doc.children_with_tag(root, "").is_empty());
    assert!(doc.children_with_tag(root, "a").is_empty());
}

#[test]
fn first_descendant_with_tag_starts_at_the_node_itself() {
    let doc = XmlDocument::parse("<a><b><c i='1'/></b><c i='2'/><d/></a>").unwrap();
    let root = doc.root_element().unwrap();
    assert_eq!(doc.first_descendant_with_tag(root, "a"), Some(root));
    let c = doc.first_descendant_with_tag(root, "c").unwrap();
    assert_eq!(doc.attribute(c, "i").as_deref(), Some("1"));
    let b = doc.first_descendant_with_tag(root, "b").unwrap();
    assert_eq!(doc.first_descendant_with_tag(b, "d"), None);
    assert_eq!(doc.first_descendant_with_tag(c, "c"), Some(c));
    assert_eq!(doc.first_descendant_with_tag(root, "e"), None);
}

#[test]
fn attribute_gives_the_first_of_the_name() {
    let mut element = node(true, "a", Some(0), 1);
    element.attributes = vec![
        XmlAttribute { name: "k".to_string(), value: "1".to_string() },
        XmlAttribute { name: "l".to_string(), value: "2".to_string() },
        XmlAttribute { name: "k".to_string(), value: "3".to_string() },
    ];
    let doc = XmlDocument { nodes: vec![node(false, "", None, 2), element] };
    assert_eq!(doc.attribute(1, "k").as_deref(), Some("1"));
    assert_eq!(doc.attribute(1, "l").as_deref(), Some("2"));
    assert_eq!(doc.attribute(1, "m"), None);
    assert_eq!(doc.attribute(0, "k"), None);
}

#[test]
fn attribute_or_error_names_tag_and_attribute() {
    let doc = XmlDocument::parse("<Pin Name='PA0'/>").unwrap();
    assert_eq!(doc.attribute_or_error(1, "Name").unwrap(), "PA0");
    match doc.attribute_or_error(1, "Position") {
        Err(Failure::MissingAttribute { tag, attribute }) => {
            assert_eq!(tag, "Pin");
            assert_eq!(attribute, "Position");
        },
        other => panic!("{:?}", other),
    }
}

#[test]
fn a_span_that_runs_past_the_end_is_cut_at_the_end() {
    let doc = XmlDocument {
        nodes: vec![
            node(false, "", None, 100),
            node(true, "a", Some(0), usize::MAX),
            node(true, "b", Some(1), 0),
            node(true, "b", Some(1), 1),
        ],
    };
    assert_eq!(doc.subtree_end(0), 4);
    assert_eq!(doc.subtree_end(1), 4);
    assert_eq!(doc.subtree_end(2), 2);
    assert_eq!(doc.subtree_end(3), 4);
    assert_eq!(doc.root_element(), Some(1));
    assert_eq!(doc.children_with_tag(1, "b"), vec![2, 3]);
    assert!(doc.children_with_tag(2, "b").is_empty());
    assert_eq!(doc.first_descendant_with_tag(2, "b"), None);
}
