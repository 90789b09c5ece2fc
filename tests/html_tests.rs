use brother::dom::{Attributes, Node, NodeType};
use brother::html::HTMLParser;
use brother::parser::ParseError;

fn tag_of(node: &Node) -> String {
    match &node.node_type {
        NodeType::Element(e) => e.tag_name.clone(),
        _ => panic!("not an element"),
    }
}

fn text_of(node: &Node) -> String {
    match &node.node_type {
        NodeType::Text(t) => t.clone(),
        _ => panic!("not a text node"),
    }
}

#[test]
fn test_tag_name_parsing() {
    let test_string = "html";
    let mut test_parser = HTMLParser::new(test_string.to_string());
    let first_tag = test_parser.parse_tag_name();
    assert!(first_tag == "html");
}

#[test]
fn test_element_node_simple() {
    let test_string = "<div>Toto</div>";
    let mut test_parser = HTMLParser::new(test_string.to_string());
    let node = test_parser.parse_element_node().unwrap();
    assert_eq!(tag_of(&node), "div");
    assert_eq!(node.children.len(), 1);
    assert_eq!(text_of(&node.children[0]), "Toto");
}

#[test]
fn test_document_parsing() {
    let test_string = "<html>
    <body>
        <h1>Title</h1>
        <div id='main' class='test'>
            <p>Hello <em>world</em>!</p>
        </div>
    </body>
</html>";
    let mut test_parser = HTMLParser::new(test_string.to_string());
    let document = test_parser.parse_document().unwrap();
    println!("{}", document.display());
    let root = document.root();
    assert_eq!(tag_of(root), "html");
    assert_eq!(root.children.len(), 1);
    let body = &root.children[0];
    assert_eq!(tag_of(body), "body");
    assert_eq!(body.children.len(), 2);
    let div = &body.children[1];
    match &div.node_type {
        NodeType::Element(e) => {
            assert_eq!(e.id().unwrap(), "'main'");
            assert_eq!(e.classes(), vec!["'test'"]);
        },
        _ => panic!("not an element"),
    }
    let p = &div.children[0];
    assert_eq!(p.children.len(), 3);
    assert_eq!(text_of(&p.children[0]), "Hello ");
    assert_eq!(tag_of(&p.children[1]), "em");
    assert_eq!(text_of(&p.children[2]), "!");
}

#[test]
fn end_to_end_nested_elements() {
    let mut parser = HTMLParser::new("<html><div><p>Hello</p></div></html>".to_string());
    let document = parser.parse_document().unwrap();
    let root = document.root();
    assert_eq!(root.children.len(), 1);
    let div = &root.children[0];
    assert_eq!(tag_of(div), "div");
    assert_eq!(div.children.len(), 1);
    let p = &div.children[0];
    assert_eq!(tag_of(p), "p");
    assert_eq!(p.children.len(), 1);
    assert_eq!(text_of(&p.children[0]), "Hello");
}

#[test]
fn single_element_is_visited_once_at_top() {
    let mut parser = HTMLParser::new("<section><b>x</b><b>x</b></section>".to_string());
    let node = parser.parse_element_node().unwrap();
    let shown = brother::dom::pretty_print_tree(&node);
    assert_eq!(shown, "<section>\n  <b>\n    x\n  <b>\n    x\n");
    let top: Vec<&str> = shown.lines().filter(|l| !l.starts_with(' ')).collect();
    assert_eq!(top, vec!["<section>"]);
}

#[test]
fn attributes_parse_into_a_map() {
    let mut parser = HTMLParser::new("<a id=main class=test></a>".to_string());
    let node = parser.parse_element_node().unwrap();
    match &node.node_type {
        NodeType::Element(e) => {
            assert_eq!(e.attributes.len(), 2);
            assert_eq!(e.id().unwrap(), "main");
            assert_eq!(e.attributes.get(&"class".to_string()).unwrap(), "test");
        },
        _ => panic!("not an element"),
    }
}

#[test]
fn attributes_round_trip() {
    let mut attrs = Attributes::new();
    attrs.insert("id".to_string(), "main".to_string());
    attrs.insert("class".to_string(), "test".to_string());
    let text = attrs.serialize();
    assert_eq!(text, "id=main class=test");
    let source = format!("<a {}></a>", text);
    let mut parser = HTMLParser::new(source);
    let node = parser.parse_element_node().unwrap();
    match &node.node_type {
        NodeType::Element(e) => {
            assert_eq!(e.attributes.serialize(), text);
            assert_eq!(e.attributes.len(), 2);
        },
        _ => panic!("not an element"),
    }
}

#[test]
fn later_duplicate_attribute_wins() {
    let mut parser = HTMLParser::new("<a id=one id=two></a>".to_string());
    let node = parser.parse_element_node().unwrap();
    match &node.node_type {
        NodeType::Element(e) => {
            assert_eq!(e.attributes.len(), 1);
            assert_eq!(e.id().unwrap(), "two");
        },
        _ => panic!("not an element"),
    }
}

#[test]
fn attribute_without_equals_is_rejected() {
    let mut parser = HTMLParser::new("<a id></a>".to_string());
    assert_eq!(parser.parse_element_node().unwrap_err(), ParseError::StructuralMismatch(5));
}

#[test]
fn mismatched_closing_tag_is_rejected() {
    let mut parser = HTMLParser::new("<a>x</b>".to_string());
    assert_eq!(parser.parse_element_node().unwrap_err(), ParseError::StructuralMismatch(6));
}

#[test]
fn missing_closing_tag_is_out_of_bounds() {
    let mut parser = HTMLParser::new("<a>x".to_string());
    assert_eq!(parser.parse_element_node().unwrap_err(), ParseError::OutOfBounds(4));
}

#[test]
fn root_must_be_html() {
    let mut parser = HTMLParser::new("<body></body>".to_string());
    assert_eq!(parser.parse_document().unwrap_err(), ParseError::StructuralMismatch(1));
}

#[test]
fn element_must_start_with_open_bracket() {
    let mut parser = HTMLParser::new("div".to_string());
    assert_eq!(parser.parse_element_node().unwrap_err(), ParseError::StructuralMismatch(0));
}

#[test]
fn indented_and_flat_markup_parse_alike() {
    let mut flat = HTMLParser::new("<html><ul><li>a</li><li>b</li></ul></html>".to_string());
    let mut indented = HTMLParser::new(
        "<html>\n  <ul>\n    <li>a</li>\n    <li>b</li>\n  </ul>\n</html>".to_string(),
    );
    let a = flat.parse_document().unwrap().display();
    let b = indented.parse_document().unwrap().display();
    assert_eq!(a, b);
    assert_eq!(a, "<html>\n  <ul>\n    <li>\n      a\n    <li>\n      b\n");
}
