use brother::parser::TextParser;

#[test]
fn test_whitespace_removal() {
    let mut test_parser = TextParser::new(String::from("    toto"));
    test_parser.remove_whitespaces();
    assert!(test_parser.remaining() == *"toto");
}

#[test]
fn test_consume_char() {
    let mut test_parser = TextParser::new(String::from("toto"));
    assert!(test_parser.consume_char() == 't');
}

#[test]
fn test_basic_operations() {
    let test_parser = TextParser::new(String::from("toto"));
    assert!(test_parser.get_current_char() == 't');
    assert!(test_parser.starts_with("tot"));
}

#[test]
fn test_consum_while() {
    let mut test_parser = TextParser::new(String::from("toto: tata;"));
    assert!(test_parser.consume_chars_while(|c| c != ':') == "toto");
    test_parser.consume_char();
    assert!(test_parser.consume_chars_while(|c| c != ';') == " tata");
}

#[test]
fn test_consume_with_mods() {
    let mut test_parser = TextParser::new(String::from("toto: tata;"));
    assert!(test_parser.consume_sequence(|c| c != ':', |c| c == 'o', true) == "tt");
}

#[test]
fn consume_while_stops_at_end_of_input() {
    let mut p = TextParser::new(String::from("abc"));
    assert_eq!(p.consume_chars_while(|_| true), "abc");
    assert!(p.eol());
    assert_eq!(p.position(), 3);
    assert_eq!(p.consume_chars_while(|_| true), "");
    assert_eq!(p.position(), 3);
}

#[test]
fn consume_sequence_without_drop_stops_at_end() {
    let mut p = TextParser::new(String::from("a b c"));
    assert_eq!(p.consume_sequence(|_| true, |c| c == ' ', false), "abc");
    assert!(p.eol());
    assert_eq!(p.position(), 5);
}

#[test]
fn consume_sequence_drops_terminator() {
    let mut p = TextParser::new(String::from("ab;cd"));
    assert_eq!(p.consume_sequence(|c| c != ';', |_| false, true), "ab");
    assert_eq!(p.get_current_char(), 'c');
    assert_eq!(p.remaining(), "cd");
}

#[test]
fn empty_input_is_at_end() {
    let p = TextParser::new(String::new());
    assert!(p.eol());
    assert!(p.starts_with(""));
    assert!(!p.starts_with("a"));
    assert_eq!(p.remaining(), "");
}

#[test]
fn multibyte_text_is_read_by_character() {
    let mut p = TextParser::new(String::from("éa<"));
    assert_eq!(p.get_current_char(), 'é');
    assert_eq!(p.consume_char(), 'é');
    assert_eq!(p.get_current_char(), 'a');
    assert_eq!(p.parse_text_data(), "a");
    assert!(p.starts_with("<"));
}

#[test]
fn starts_with_does_not_consume() {
    let p = TextParser::new(String::from("</div>"));
    assert!(p.starts_with("</"));
    assert!(!p.starts_with("</p"));
    assert!(!p.starts_with("</div>x"));
    assert_eq!(p.position(), 0);
}

#[test]
fn split_on_splits_whole_input() {
    let mut p = TextParser::new(String::from("a b  c"));
    p.consume_char();
    let pieces = p.split_on(' ');
    assert_eq!(pieces, vec!["a", "b", "", "c"]);
}

#[test]
fn consume_pattern_advances_past_it() {
    let mut p = TextParser::new(String::from("<!--x"));
    assert_eq!(p.consume_pattern(String::from("<!--")), "<!--");
    assert_eq!(p.position(), 4);
    assert_eq!(p.get_current_char(), 'x');
}

#[test]
fn remove_whitespaces_skips_all_kinds() {
    let mut p = TextParser::new(String::from(" \t\n\r x"));
    p.remove_whitespaces();
    assert_eq!(p.remaining(), "x");
}

#[test]
fn parse_text_data_keeps_inner_spaces() {
    let mut p = TextParser::new(String::from(" Hello world <em>"));
    assert_eq!(p.parse_text_data(), " Hello world ");
    assert_eq!(p.get_current_char(), '<');
}
