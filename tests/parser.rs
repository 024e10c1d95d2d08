use edn_stream::{KeywordTokenParser, Parser, SymbolParser, Token};

#[test]
fn initialization_test() {
    let source = String::from("");
    let p = Parser::new(&source);
    assert_eq!(source, *p.source());
    assert_eq!(0, p.character());
    assert_eq!(1, p.line());
}

#[test]
fn next_character_test() {
    let source = String::from("str");
    let mut p = Parser::new(&source);

    let ch_opt = p.next_character();
    assert_eq!('s', ch_opt.unwrap());
    assert_eq!(1, p.character());

    let ch_opt = p.next_character();
    assert_eq!('t', ch_opt.unwrap());
    assert_eq!(2, p.character());

    let ch_opt = p.next_character();
    assert_eq!('r', ch_opt.unwrap());
    assert_eq!(3, p.character());

    let ch_opt = p.next_character();
    assert_eq!(None, ch_opt);
    assert_eq!(3, p.character());
}

#[test]
fn nil_token_parser_test() {
    let mut parser = KeywordTokenParser::new("nil", Token::Nil);

    // Matches up to 'nil'
    assert!(parser.matches(&'n'));
    assert!(parser.matches(&'i'));
    assert!(parser.matches(&'l'));

    assert_eq!(Some(Token::Nil), parser.get_token());

    // Fails to match beyond 'nil'
    assert!(!parser.matches(&'l'));
    assert_eq!(None, parser.get_token());
}

#[test]
fn whitespace_test() {
    assert!(Parser::is_whitespace(&' '));
    assert!(Parser::is_whitespace(&'\t'));
    assert!(Parser::is_whitespace(&','));
    assert!(!Parser::is_whitespace(&'f'));
}

#[test]
fn parse_whitespace_test() {
    let s = " ";
    let string = &String::from(s);
    let mut p = Parser::new(string);
    p.next_character();
    assert_eq!(Some(Token::Whitespace(s.chars().collect())), p.parse_whitespace());

    let s = " \n ";
    let string = &String::from(s);
    let mut p = Parser::new(string);
    p.next_character();
    assert_eq!(Some(Token::Whitespace(s.chars().collect())), p.parse_whitespace());
    assert_eq!(2, p.line());
    assert_eq!(1, p.character());
}

#[test]
fn value_parser_test() {
    assert_eq!(Some(Token::Nil), Parser::new(&String::from("nil")).parse_value());
    assert_eq!(Some(Token::Boolean(true)), Parser::new(&String::from("true")).parse_value());
    assert_eq!(Some(Token::Boolean(false)), Parser::new(&String::from("false")).parse_value());

    let s = "alskdjflsajkfsldf";
    assert_eq!(Some(Token::Symbol(s.chars().collect())), Parser::new(&String::from(s)).parse_value());

    let s = "+123";
    assert_eq!(None, Parser::new(&String::from(s)).parse_value());

    let s = "f123/123";
    assert_eq!(None, Parser::new(&String::from(s)).parse_value());

    let s = "+#:123/#";
    assert_eq!(None, Parser::new(&String::from(s)).parse_value());
}

#[test]
fn keyword_prefix_is_no_match() {
    let mut parser = KeywordTokenParser::new("nil", Token::Nil);
    assert!(parser.matches(&'n'));
    assert!(parser.matches(&'i'));
    assert_eq!(None, parser.get_token());
    assert_eq!(
        Some(Token::Symbol("ni".chars().collect())),
        Parser::new(&String::from("ni")).parse_value()
    );
    assert_eq!(
        Some(Token::Symbol("nils".chars().collect())),
        Parser::new(&String::from("nils")).parse_value()
    );
}

#[test]
fn keyword_flag_stays_false() {
    let mut parser = KeywordTokenParser::new("true", Token::Boolean(true));
    assert!(!parser.matches(&'x'));
    assert!(!parser.matches(&'r'));
    assert!(!parser.matches(&'u'));
    assert!(!parser.matches(&'e'));
    assert_eq!(None, parser.get_token());
}

#[test]
fn symbol_first_character() {
    let p = SymbolParser::new();
    assert!(p.is_character_allowed(&'a'));
    assert!(p.is_character_allowed(&'é'));
    assert!(p.is_character_allowed(&'+'));
    assert!(p.is_character_allowed(&'.'));
    assert!(!p.is_character_allowed(&'1'));
    assert!(!p.is_character_allowed(&'*'));
    assert!(!p.is_character_allowed(&'/'));
    assert!(!p.is_character_allowed(&'#'));
}

#[test]
fn symbol_later_characters() {
    let mut p = SymbolParser::new();
    assert!(p.matches(&'-'));
    assert!(p.is_character_allowed(&'#'));
    assert!(!p.is_character_allowed(&'1'));
    assert!(p.matches(&'a'));
    assert!(p.is_character_allowed(&'1'));
    assert!(p.is_character_allowed(&'٣'));
    assert!(p.matches(&'/'));
    assert!(!p.is_character_allowed(&'1'));
    assert!(!p.is_character_allowed(&':'));
    assert!(p.is_character_allowed(&'b'));
    assert!(p.is_character_allowed(&'*'));
    assert_eq!(None, p.get_token());
    assert!(p.matches(&'b'));
    assert_eq!(Some(Token::Symbol("-a/b".chars().collect())), p.get_token());
}

#[test]
fn symbol_flag_stays_false() {
    let mut p = SymbolParser::new();
    assert!(!p.matches(&'1'));
    assert!(!p.matches(&'a'));
    assert_eq!(None, p.get_token());
}

#[test]
fn parse_value_skips_following_whitespace() {
    let source = String::from("abc  \n\tdef");
    let mut p = Parser::new(&source);
    assert_eq!(Some(Token::Symbol("abc".chars().collect())), p.parse_value());
    assert_eq!(Some('d'), p.current());
    assert_eq!(2, p.line());
    assert_eq!(2, p.character());
}

#[test]
fn symbol_rescan_is_stable() {
    for s in ["abc/def", "a.b-c?", "-x", "+#a", "a:b#c"] {
        let first = Parser::new(&String::from(s)).parse_value();
        let text: String = match &first {
            Some(Token::Symbol(t)) => t.iter().collect(),
            other => panic!("{s} gave {other:?}"),
        };
        assert_eq!(text, s);
        assert_eq!(first, Parser::new(&text).parse_value());
    }
}

#[test]
fn whitespace_lines_and_columns() {
    let source = String::from(" \n\n  x");
    let mut p = Parser::new(&source);
    p.next_character();
    let ws = p.parse_whitespace();
    assert_eq!(Some(Token::Whitespace(" \n\n  ".chars().collect())), ws);
    assert_eq!(3, p.line());
    assert_eq!(3, p.character());
    assert_eq!(Some('x'), p.current());
}

#[test]
fn whitespace_none_on_other_character() {
    let source = String::from("x ");
    let mut p = Parser::new(&source);
    assert_eq!(None, p.parse_whitespace());
    p.next_character();
    assert_eq!(None, p.parse_whitespace());
    assert_eq!(Some('x'), p.current());
}

#[test]
fn trailing_newline_counts() {
    let source = String::from("a\n");
    let mut p = Parser::new(&source);
    p.next_character();
    p.next_character();
    assert_eq!(Some('\n'), p.current());
    assert_eq!(1, p.line());
    assert_eq!(2, p.character());
    assert_eq!(None, p.next_character());
    assert_eq!(2, p.line());
    assert_eq!(0, p.character());
}
