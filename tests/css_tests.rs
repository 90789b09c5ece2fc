use brother::css::{CSSParser, Color, Declaration, Unit, Value};
use brother::parser::ParseError;

#[test]
fn test_declaration_parsing() {
    let test_input = "margin: auto; titi: toto;";
    let mut css_parser = CSSParser::new(test_input.to_string());
    let test_declarations = css_parser.parse_declarations().unwrap();
    assert!(test_declarations.get(0).unwrap().name == "margin");
    assert!(test_declarations.get(1).unwrap().name == "titi");
    assert!(matches!(&test_declarations[0].value, Value::Keyword(k) if k == "auto"));
    assert!(matches!(&test_declarations[1].value, Value::Keyword(k) if k == "toto"));
}

#[test]
fn test_selector_parsing() {
    let test_input = "h1, p, div.toto, #param.sasa";
    let mut css_parser = CSSParser::new(test_input.to_string());
    let test_selectors = css_parser.parse_selectors().unwrap();
    println!("{:?}", test_selectors);
    assert_eq!(test_selectors.len(), 4);
    assert_eq!(test_selectors[0].tag_name.as_deref(), Some("h1"));
    assert_eq!(test_selectors[1].tag_name.as_deref(), Some("p"));
    assert_eq!(test_selectors[2].tag_name.as_deref(), Some("div"));
    assert_eq!(test_selectors[2].class, vec!["toto"]);
    assert_eq!(test_selectors[3].tag_name, None);
    assert_eq!(test_selectors[3].id.as_deref(), Some("param"));
    assert_eq!(test_selectors[3].class, vec!["sasa"]);
}

#[test]
fn test_rule_parsing() {
    let test_input = "h1, h2, h3 { margin: auto; color: #cc0000; }";
    let mut css_parser = CSSParser::new(test_input.to_string());
    let rule = css_parser.parse_rule().unwrap();
    println!("{:?}", rule);
    assert_eq!(rule.selectors.len(), 3);
    assert_eq!(rule.declarations.len(), 2);
}

#[test]
fn value_classification() {
    let auto = Declaration::new("margin".to_string(), "auto".to_string()).unwrap();
    assert!(matches!(&auto.value, Value::Keyword(k) if k == "auto"));
    let length = Declaration::new("width".to_string(), "20px".to_string()).unwrap();
    match length.value {
        Value::Length(n, Unit::Px) => assert_eq!(n as f32, 20.0),
        other => panic!("{:?}", other),
    }
    let color = Declaration::new("color".to_string(), "#cc0000".to_string()).unwrap();
    assert!(matches!(color.value, Value::ColorValue(Color { r: 204, g: 0, b: 0 })));
}

#[test]
fn empty_value_is_malformed() {
    assert!(Declaration::new("margin".to_string(), String::new()).is_none());
    let mut p = CSSParser::new("margin: ;".to_string());
    assert_eq!(p.parse_declarations().unwrap_err(), ParseError::MalformedValue(7));
}

#[test]
fn bad_colors_are_rejected() {
    assert_eq!(Color::from_hex_code("#cc00".to_string()), None);
    assert_eq!(Color::from_hex_code("#cg0000".to_string()), None);
    assert_eq!(
        Color::from_hex_code("#0A1b2C".to_string()),
        Some(Color { r: 10, g: 27, b: 44 })
    );
    assert_eq!(
        Color::from_hex_code("#ffffffzz".to_string()),
        Some(Color { r: 255, g: 255, b: 255 })
    );
}

#[test]
fn length_keeps_leading_digits_only() {
    let d = Declaration::new("padding".to_string(), "10em".to_string()).unwrap();
    assert!(matches!(d.value, Value::Length(10, Unit::Px)));
    let d = Declaration::new("padding".to_string(), "007".to_string()).unwrap();
    assert!(matches!(d.value, Value::Length(7, Unit::Px)));
    let d = Declaration::new("w".to_string(), "18446744073709551615".to_string()).unwrap();
    assert!(matches!(d.value, Value::Length(18446744073709551615, Unit::Px)));
    assert!(Declaration::new("w".to_string(), "18446744073709551616".to_string()).is_none());
}

#[test]
fn three_tag_selectors() {
    let mut p = CSSParser::new("h1, h2, h3".to_string());
    let sels = p.parse_selectors().unwrap();
    assert_eq!(sels.len(), 3);
    for (s, name) in sels.iter().zip(["h1", "h2", "h3"]) {
        assert_eq!(s.tag_name.as_deref(), Some(name));
        assert_eq!(s.id, None);
        assert!(s.class.is_empty());
    }
}

#[test]
fn two_declarations_in_order() {
    let mut p = CSSParser::new("margin: auto; color: #cc0000;".to_string());
    let ds = p.parse_declarations().unwrap();
    assert_eq!(ds.len(), 2);
    assert_eq!(ds[0].name, "margin");
    assert!(matches!(&ds[0].value, Value::Keyword(k) if k == "auto"));
    assert_eq!(ds[1].name, "color");
    assert!(matches!(ds[1].value, Value::ColorValue(Color { r: 204, g: 0, b: 0 })));
}

#[test]
fn declarations_stop_at_closing_brace() {
    let mut p = CSSParser::new("a: b; } rest".to_string());
    let ds = p.parse_declarations().unwrap();
    assert_eq!(ds.len(), 1);
    assert_eq!(ds[0].name, "a");
}

#[test]
fn missing_colon_or_semicolon_is_out_of_bounds() {
    let mut p = CSSParser::new("margin auto".to_string());
    assert_eq!(p.parse_declarations().unwrap_err(), ParseError::OutOfBounds(11));
    let mut p = CSSParser::new("margin: auto".to_string());
    assert_eq!(p.parse_declarations().unwrap_err(), ParseError::OutOfBounds(12));
}

#[test]
fn selector_combines_tag_id_and_classes() {
    let mut p = CSSParser::new("div#main.a .b.c {".to_string());
    let sel = p.parse_simple_selector().unwrap();
    assert_eq!(sel.tag_name.as_deref(), Some("div"));
    assert_eq!(sel.id.as_deref(), Some("main"));
    assert_eq!(sel.class, vec!["a", "b.c"]);
}

#[test]
fn unexpected_selector_character_is_rejected() {
    let mut p = CSSParser::new("a:hover {".to_string());
    assert_eq!(p.parse_selectors().unwrap_err(), ParseError::StructuralMismatch(1));
}

#[test]
fn rule_without_block_is_rejected() {
    let mut p = CSSParser::new("h1 ".to_string());
    assert_eq!(p.parse_rule().unwrap_err(), ParseError::OutOfBounds(3));
}

#[test]
fn stylesheet_of_several_rules() {
    let sheet = "
    h1, h2, h3 { margin: auto; color: #cc0000; }
    div.note { margin-bottom: 20px; padding: 10px; }
    #answer { display: none; }
    ";
    let mut p = CSSParser::new(sheet.to_string());
    let s = p.parse_stylesheet().unwrap();
    assert_eq!(s.rules.len(), 3);
    assert_eq!(s.rules[1].selectors[0].class, vec!["note"]);
    assert!(matches!(s.rules[1].declarations[0].value, Value::Length(20, Unit::Px)));
    assert_eq!(s.rules[2].selectors[0].id.as_deref(), Some("answer"));
    assert!(matches!(&s.rules[2].declarations[0].value, Value::Keyword(k) if k == "none"));
}

#[test]
fn unclosed_rule_is_rejected() {
    let mut p = CSSParser::new("a { b: c;".to_string());
    assert_eq!(p.parse_stylesheet().unwrap_err(), ParseError::OutOfBounds(9));
}

#[test]
fn declarations_on_separate_lines() {
    let mut p = CSSParser::new("div {\n  margin: auto;\n  padding: 4px;\n}\n".to_string());
    let s = p.parse_stylesheet().unwrap();
    assert_eq!(s.rules.len(), 1);
    assert_eq!(s.rules[0].declarations.len(), 2);
    assert_eq!(s.rules[0].declarations[1].name, "padding");
    assert!(matches!(s.rules[0].declarations[1].value, Value::Length(4, Unit::Px)));
}
