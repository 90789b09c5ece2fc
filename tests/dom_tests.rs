use brother::dom::{pretty_print_tree, Attributes, Document, Node, NodeType, Representation};

#[test]
fn test_pretty_print() {
    let mut root: Node = Node::text(String::from("toto"));
    let mut c1: Node = Node::text(String::from("titi"));
    let mut c2: Node = Node::text(String::from("tata"));
    let mut c3: Node = Node::text(String::from("tutu"));
    let c4: Node = Node::text(String::from("tete"));
    let z: Node = Node::comment(String::from("zaza"));

    c3.add_child(c4);
    c2.add_child(c3);

    c1.add_child(z);

    root.add_child(c1);
    root.add_child(c2);
    let shown = pretty_print_tree(&root);
    println!("{}", shown);
    assert_eq!(shown, "toto\n  titi\n    <!--zaza-->\n  tata\n    tutu\n      tete\n");
}

#[test]
fn identical_siblings_are_both_shown() {
    let mut root = Node::element("ul".to_string(), Attributes::new(), Vec::new());
    root.add_child(Node::text("x".to_string()));
    root.add_child(Node::text("x".to_string()));
    let doc = Document::new(root);
    assert_eq!(doc.display(), "<ul>\n  x\n  x\n");
}

#[test]
fn representations() {
    let node = Node::element("div".to_string(), Attributes::new(), Vec::new());
    assert_eq!(node.repr(), "<div>");
    assert_eq!(Node::text("hi".to_string()).repr(), "hi");
    assert_eq!(Node::comment("c".to_string()).repr(), "<!--c-->");
    match &node.node_type {
        NodeType::Element(e) => assert_eq!(e.repr(), "<div>"),
        _ => panic!("not an element"),
    }
}

#[test]
fn classes_are_listed_once() {
    let mut attrs = Attributes::new();
    attrs.insert("class".to_string(), "a b a".to_string());
    let node = Node::element("p".to_string(), attrs, Vec::new());
    match &node.node_type {
        NodeType::Element(e) => {
            assert_eq!(e.classes(), vec!["a", "b"]);
            assert_eq!(e.id(), None);
        },
        _ => panic!("not an element"),
    }
}

#[test]
fn no_class_attribute_gives_no_classes() {
    let node = Node::element("p".to_string(), Attributes::new(), Vec::new());
    match &node.node_type {
        NodeType::Element(e) => assert!(e.classes().is_empty()),
        _ => panic!("not an element"),
    }
}

#[test]
fn insert_replaces_value() {
    let mut attrs = Attributes::new();
    attrs.insert("k".to_string(), "1".to_string());
    attrs.insert("j".to_string(), "2".to_string());
    attrs.insert("k".to_string(), "3".to_string());
    assert_eq!(attrs.len(), 2);
    assert_eq!(attrs.get(&"k".to_string()).unwrap(), "3");
    assert_eq!(attrs.get(&"x".to_string()), None);
    assert_eq!(attrs.serialize(), "k=3 j=2");
}
