use edn_stream::{parse_all, Coll, ErrorKind, Event, ParseError, Reader};

fn events(s: &str) -> Vec<Event> {
    parse_all(&String::from(s))
}

fn chars(s: &str) -> Vec<char> {
    s.chars().collect()
}

fn kind_of(e: &Event) -> Option<ErrorKind> {
    match e {
        Event::Error(p) => Some(p.kind),
        _ => None,
    }
}

fn fails_with(s: &str, kind: ErrorKind) {
    let es = events(s);
    assert_eq!(Some(kind), kind_of(es.last().unwrap()), "{s}: {es:?}");
    for e in &es[..es.len() - 1] {
        assert_eq!(None, kind_of(e), "{s}: {es:?}");
    }
}

#[test]
fn lone_keywords() {
    assert_eq!(vec![Event::Nil], events("nil"));
    assert_eq!(vec![Event::Boolean(true)], events("true "));
    assert_eq!(vec![Event::Boolean(false)], events("false\n\t, "));
    assert_eq!(vec![Event::Nil], events("  nil"));
}

#[test]
fn nested_brackets() {
    let es = events("[1 [2 3] {4 5}]");
    assert_eq!(
        vec![
            Event::Start(Coll::Vector),
            Event::Integer(1),
            Event::Start(Coll::Vector),
            Event::Integer(2),
            Event::Integer(3),
            Event::End(Coll::Vector),
            Event::Start(Coll::Dict),
            Event::Integer(4),
            Event::Integer(5),
            Event::End(Coll::Dict),
            Event::End(Coll::Vector),
        ],
        es
    );
}

#[test]
fn lists_sets_and_maps() {
    assert_eq!(
        vec![
            Event::Start(Coll::List),
            Event::Symbol(chars("a")),
            Event::Start(Coll::Distinct),
            Event::Keyword(chars("k")),
            Event::End(Coll::Distinct),
            Event::Start(Coll::Dict),
            Event::End(Coll::Dict),
            Event::End(Coll::List),
        ],
        events("(a #{:k} {})")
    );
}

#[test]
fn trailing_garbage() {
    assert_eq!(
        vec![
            Event::Nil,
            Event::Error(ParseError { kind: ErrorKind::TrailingCharacters, line: 1, column: 5 }),
        ],
        events("nil garbage")
    );
    fails_with("[] x", ErrorKind::TrailingCharacters);
    fails_with("1]", ErrorKind::TrailingCharacters);
}

#[test]
fn unclosed_collection() {
    let es = events("[1 2");
    assert_eq!(4, es.len());
    assert_eq!(Event::Start(Coll::Vector), es[0]);
    assert_eq!(Event::Integer(1), es[1]);
    assert_eq!(Event::Integer(2), es[2]);
    assert_eq!(Some(ErrorKind::EofWhileParsingCollection(Coll::Vector)), kind_of(&es[3]));
    fails_with("{:a [1", ErrorKind::EofWhileParsingCollection(Coll::Vector));
    fails_with("(", ErrorKind::EofWhileParsingCollection(Coll::List));
}

#[test]
fn signed_numbers() {
    assert_eq!(vec![Event::Integer(123)], events("+123"));
    assert_eq!(vec![Event::Integer(-45)], events("-45"));
    assert_eq!(vec![Event::Integer(7)], events("007"));
    assert_eq!(vec![Event::Integer(i64::MAX)], events("9223372036854775807"));
    assert_eq!(vec![Event::Integer(i64::MIN)], events("-9223372036854775808"));
    fails_with("9223372036854775808", ErrorKind::InvalidNumber);
    fails_with("-9223372036854775809", ErrorKind::InvalidNumber);
    fails_with("12a", ErrorKind::InvalidNumber);
    assert_eq!(vec![Event::Symbol(chars("-"))], events("-"));
    assert_eq!(vec![Event::Symbol(chars("+a"))], events("+a"));
}

#[test]
fn bad_symbols() {
    fails_with("f123/123", ErrorKind::InvalidSyntax);
    fails_with("+#:123/#", ErrorKind::InvalidSyntax);
    fails_with("abc/", ErrorKind::InvalidSyntax);
    fails_with("*x", ErrorKind::InvalidSyntax);
    assert_eq!(1, events("f123/123").len());
}

#[test]
fn keywords_and_symbols() {
    assert_eq!(vec![Event::Keyword(chars("nil"))], events(":nil"));
    assert_eq!(vec![Event::Keyword(chars("ns/name"))], events(":ns/name"));
    assert_eq!(vec![Event::Symbol(chars("nils"))], events("nils"));
    fails_with(":", ErrorKind::InvalidSyntax);
    fails_with(":1", ErrorKind::InvalidSyntax);
}

#[test]
fn strings() {
    assert_eq!(vec![Event::Str(chars("a\nb\"c\\"))], events("\"a\\nb\\\"c\\\\\""));
    assert_eq!(vec![Event::Str(chars(""))], events("\"\""));
    fails_with("\"abc", ErrorKind::EofWhileParsingString);
    fails_with("\"abc\\", ErrorKind::EofWhileParsingString);
    fails_with("\"a\\qb\"", ErrorKind::InvalidEscape);
}

#[test]
fn characters() {
    assert_eq!(vec![Event::Character('a')], events("\\a"));
    assert_eq!(vec![Event::Character('\n')], events("\\newline"));
    assert_eq!(vec![Event::Character('(')], events("\\("));
    assert_eq!(
        vec![
            Event::Start(Coll::Vector),
            Event::Character(' '),
            Event::Character('\t'),
            Event::End(Coll::Vector),
        ],
        events("[\\space \\tab]")
    );
    fails_with("\\", ErrorKind::EofWhileParsingValue);
    fails_with("\\abc", ErrorKind::InvalidSyntax);
}

#[test]
fn empty_input() {
    fails_with("", ErrorKind::EofWhileParsingValue);
    fails_with(" ,\n", ErrorKind::EofWhileParsingValue);
}

#[test]
fn structural_errors() {
    fails_with("]", ErrorKind::InvalidSyntax);
    fails_with("(1]", ErrorKind::InvalidSyntax);
    fails_with("[[1][2]]", ErrorKind::ExpectedSeparator);
    fails_with("[1\"a\"]", ErrorKind::ExpectedSeparator);
    fails_with("{1}", ErrorKind::MissingMapValue);
    fails_with("#[", ErrorKind::InvalidSyntax);
    assert_eq!(
        vec![Event::Start(Coll::Vector), Event::Integer(1), Event::Integer(2), Event::End(Coll::Vector)],
        events("[1,2]")
    );
}

#[test]
fn error_position() {
    let es = events("[1\n  ]]");
    assert_eq!(
        Event::Error(ParseError { kind: ErrorKind::TrailingCharacters, line: 2, column: 4 }),
        es[es.len() - 1]
    );
}

#[test]
fn finished_is_absorbing() {
    let source = String::from("nil x");
    let mut r = Reader::new(&source);
    assert_eq!(Some(Event::Nil), r.next_event());
    assert_eq!(Some(ErrorKind::TrailingCharacters), kind_of(&r.next_event().unwrap()));
    assert_eq!(None, r.next_event());
    assert_eq!(None, r.next_event());
}
