use vstd::prelude::*;

use crate::cursor::{is_ws, run_len, Parser};
use crate::token::{chars_of, classify, classify_text, Tok, Token};

verus! {

/// The four kinds of collection.
#[derive(Debug, Clone, Copy, PartialEq, Eq, Structural)]
pub enum Coll {
    List,
    Vector,
    Dict,
    Distinct,
}

/// Why a parse stopped.
#[derive(Debug, Clone, Copy, PartialEq, Eq, Structural)]
pub enum ErrorKind {
    /// A character that no grammar accepts where it stands.
    InvalidSyntax,
    /// An atom that starts like a number but is not a 64-bit integer.
    InvalidNumber,
    /// A backslash in a string before a character that is no escape.
    InvalidEscape,
    /// The input ended where a value was expected.
    EofWhileParsingValue,
    /// The input ended inside a string.
    EofWhileParsingString,
    /// The input ended inside a collection of this kind.
    EofWhileParsingCollection(Coll),
    /// Something other than whitespace follows the top-level value.
    TrailingCharacters,
    /// Two elements of a collection with nothing between them.
    ExpectedSeparator,
    /// A map closed after a key with no value.
    MissingMapValue,
}

/// An error with the line and column of the character that revealed it.
#[derive(Debug, Clone, Copy, PartialEq, Eq, Structural)]
pub struct ParseError {
    pub kind: ErrorKind,
    pub line: i64,
    pub column: i64,
}

/// One step of the parse: a scalar, the start or end of a collection, or
/// the error that ends the parse.
#[derive(Debug, Clone, PartialEq)]
pub enum Event {
    Nil,
    Boolean(bool),
    Integer(i64),
    Character(char),
    Symbol(Vec<char>),
    Keyword(Vec<char>),
    Str(Vec<char>),
    Start(Coll),
    End(Coll),
    Error(ParseError),
}

/// The mathematical value of an [`Event`]; an error is seen by its kind.
pub enum Ev {
    Nil,
    Boolean(bool),
    Integer(int),
    Character(char),
    Symbol(Seq<char>),
    Keyword(Seq<char>),
    Str(Seq<char>),
    Start(Coll),
    End(Coll),
    Error(ErrorKind),
}

impl View for Event {
    type V = Ev;

    open spec fn view(&self) -> Ev {
        match self {
            Event::Nil => Ev::Nil,
            Event::Boolean(b) => Ev::Boolean(*b),
            Event::Integer(i) => Ev::Integer(*i as int),
            Event::Character(c) => Ev::Character(*c),
            Event::Symbol(s) => Ev::Symbol(s@),
            Event::Keyword(s) => Ev::Keyword(s@),
            Event::Str(s) => Ev::Str(s@),
            Event::Start(k) => Ev::Start(*k),
            Event::End(k) => Ev::End(*k),
            Event::Error(e) => Ev::Error(e.kind),
        }
    }
}

/// Ends an element the way whitespace does.
pub open spec fn is_delim(c: char) -> bool {
    c == '(' || c == ')' || c == '[' || c == ']' || c == '{' || c == '}' || c == '"'
}

pub open spec fn is_opener(c: char) -> bool {
    c == '(' || c == '[' || c == '{'
}

pub open spec fn is_closer(c: char) -> bool {
    c == ')' || c == ']' || c == '}'
}

/// The collection that an opening delimiter starts.
pub open spec fn opened(c: char) -> Coll {
    if c == '(' {
        Coll::List
    } else if c == '[' {
        Coll::Vector
    } else {
        Coll::Dict
    }
}

/// The delimiter that closes a collection.
pub open spec fn closer_of(k: Coll) -> char {
    match k {
        Coll::List => ')',
        Coll::Vector => ']',
        Coll::Dict => '}',
        Coll::Distinct => '}',
    }
}

/// May stand in an atom.
pub open spec fn atom_char(c: char) -> bool {
    !is_ws(c) && !is_delim(c)
}

/// Length of the atom that starts `s`.
pub open spec fn atom_len(s: Seq<char>) -> nat {
    run_len(s, |c: char| atom_char(c))
}

pub open spec fn is_digit(c: char) -> bool {
    '0' <= c <= '9'
}

pub open spec fn digit_value(c: char) -> int {
    (c as u32) as int - ('0' as u32) as int
}

/// Starts like a number: a digit, or a sign and a digit.
pub open spec fn number_like(w: Seq<char>) -> bool {
    w.len() > 0 && (is_digit(w[0]) || (w.len() > 1 && (w[0] == '+' || w[0] == '-') && is_digit(
        w[1],
    )))
}

pub open spec fn sign_len(w: Seq<char>) -> int {
    if w.len() > 0 && (w[0] == '+' || w[0] == '-') {
        1
    } else {
        0
    }
}

pub open spec fn all_digits(d: Seq<char>) -> bool {
    forall|i: int| 0 <= i < d.len() ==> is_digit(#[trigger] d[i])
}

/// The decimal value of a run of digits.
pub open spec fn digits_value(d: Seq<char>) -> int
    decreases d.len(),
{
    if d.len() == 0 {
        0
    } else {
        10 * digits_value(d.drop_last()) + digit_value(d.last())
    }
}

/// The integer an optionally signed run of digits denotes.
pub open spec fn int_value(w: Seq<char>) -> int {
    let d = w.skip(sign_len(w));
    if w.len() > 0 && w[0] == '-' {
        -digits_value(d)
    } else {
        digits_value(d)
    }
}

pub open spec fn fits_i64(v: int) -> bool {
    i64::MIN <= v <= i64::MAX
}

/// The event an atom `w` gives: numbers first, then keywords with the `:`
/// sigil, then `nil`, `true`, `false` and symbols.
pub open spec fn atom_value(w: Seq<char>) -> Ev {
    if number_like(w) {
        if all_digits(w.skip(sign_len(w))) && fits_i64(int_value(w)) {
            Ev::Integer(int_value(w))
        } else {
            Ev::Error(ErrorKind::InvalidNumber)
        }
    } else if w.len() > 0 && w[0] == ':' {
        if classify(w.drop_first()) is Some {
            Ev::Keyword(w.drop_first())
        } else {
            Ev::Error(ErrorKind::InvalidSyntax)
        }
    } else {
        match classify(w) {
            Some(Tok::Nil) => Ev::Nil,
            Some(Tok::Boolean(b)) => Ev::Boolean(b),
            Some(Tok::Symbol(s)) => Ev::Symbol(s),
            _ => Ev::Error(ErrorKind::InvalidSyntax),
        }
    }
}

proof fn lemma_digits_grow(d: Seq<char>, i: int, j: int)
    requires
        0 <= i <= j <= d.len(),
        all_digits(d),
    ensures
        0 <= digits_value(d.take(i)) <= digits_value(d.take(j)),
    decreases j - i,
{
    if i < j {
        lemma_digits_grow(d, i, j - 1);
        assert(d.take(j).drop_last() =~= d.take(j - 1));
        assert(d.take(j).last() == d[j - 1]);
        assert(is_digit(d[j - 1]));
    } else {
        lemma_digits_nonneg(d.take(i));
    }
}

proof fn lemma_digits_nonneg(d: Seq<char>)
    requires
        all_digits(d),
    ensures
        digits_value(d) >= 0,
    decreases d.len(),
{
    if d.len() > 0 {
        lemma_digits_nonneg(d.drop_last());
        assert(is_digit(d[d.len() - 1]));
    }
}

/// The integer that a signed run of digits denotes, or `None` if it does
/// not fit in 64 bits.
pub fn parse_int(w: &Vec<char>) -> (r: Option<i64>)
    requires
        w@.len() > 0,
        all_digits(w@.skip(sign_len(w@))),
    ensures
        r is Some <==> fits_i64(int_value(w@)),
        r is Some ==> r->0 as int == int_value(w@),
{
    let neg = w[0] == '-';
    let start: usize = if w[0] == '+' || w[0] == '-' {
        1
    } else {
        0
    };
    let ghost d = w@.skip(sign_len(w@));
    let mut v: i64 = 0;
    let mut i: usize = start;
    assert(d.take(0).len() == 0);
    while i < w.len()
        invariant
            start as int == sign_len(w@),
            neg == (w@[0] == '-'),
            start <= i <= w@.len(),
            d == w@.skip(sign_len(w@)),
            all_digits(d),
            v as int == if neg {
                -digits_value(d.take(i - start))
            } else {
                digits_value(d.take(i - start))
            },
        decreases w@.len() - i,
    {
        let c = w[i];
        assert(c == d[i - start]);
        assert(is_digit(c));
        let dv: i64 = (c as u32 - '0' as u32) as i64;
        proof {
            assert(d.take(i - start + 1).drop_last() =~= d.take(i - start));
            assert(digits_value(d.take(i - start + 1)) == 10 * digits_value(d.take(i - start))
                + dv);
            lemma_digits_grow(d, i - start + 1, d.len() as int);
            assert(d.take(d.len() as int) =~= d);
            lemma_digits_grow(d, 0, i - start);
        }
        let m = v.checked_mul(10);
        match m {
            None => {
                return None;
            },
            Some(m) => {
                let n = if neg {
                    m.checked_sub(dv)
                } else {
                    m.checked_add(dv)
                };
                match n {
                    None => {
                        return None;
                    },
                    Some(n) => {
                        v = n;
                    },
                }
            },
        }
        i = i + 1;
    }
    assert(d.take(i - start) =~= d);
    Some(v)
}

/// The character a backslash escape in a string stands for.
pub open spec fn escape_of(c: char) -> Option<char> {
    if c == 'n' {
        Some('\n')
    } else if c == 't' {
        Some('\t')
    } else if c == 'r' {
        Some('\r')
    } else if c == '"' {
        Some('"')
    } else if c == '\\' {
        Some('\\')
    } else {
        None
    }
}

/// Prefixes `c` to the text of a string scan.
pub open spec fn prefixed(p: Seq<char>, r: Result<Seq<char>, ErrorKind>) -> Result<
    Seq<char>,
    ErrorKind,
> {
    match r {
        Ok(t) => Ok(p + t),
        Err(k) => Err(k),
    }
}

/// The text of a string whose characters after the opening quote are `s`,
/// up to the closing quote, with escapes replaced.
pub open spec fn scan_string(s: Seq<char>) -> Result<Seq<char>, ErrorKind>
    decreases s.len(),
{
    if s.len() == 0 {
        Err(ErrorKind::EofWhileParsingString)
    } else if s[0] == '"' {
        Ok(Seq::empty())
    } else if s[0] == '\\' {
        if s.len() < 2 {
            Err(ErrorKind::EofWhileParsingString)
        } else {
            match escape_of(s[1]) {
                Some(e) => prefixed(seq![e], scan_string(s.skip(2))),
                None => Err(ErrorKind::InvalidEscape),
            }
        }
    } else {
        prefixed(seq![s[0]], scan_string(s.drop_first()))
    }
}

/// How many characters a string whose input after the opening quote is `s`
/// takes up to and including its closing quote.
pub open spec fn string_len(s: Seq<char>) -> nat
    decreases s.len(),
{
    if s.len() == 0 {
        0
    } else if s[0] == '"' {
        1
    } else if s[0] == '\\' {
        if s.len() < 2 || escape_of(s[1]) is None {
            0
        } else {
            2 + string_len(s.skip(2))
        }
    } else {
        1 + string_len(s.drop_first())
    }
}

pub open spec fn newline_text() -> Seq<char> {
    seq!['n', 'e', 'w', 'l', 'i', 'n', 'e']
}

pub open spec fn space_text() -> Seq<char> {
    seq!['s', 'p', 'a', 'c', 'e']
}

pub open spec fn tab_text() -> Seq<char> {
    seq!['t', 'a', 'b']
}

pub open spec fn return_text() -> Seq<char> {
    seq!['r', 'e', 't', 'u', 'r', 'n']
}

/// The character literal whose text after the backslash is `w`.
pub open spec fn char_named(w: Seq<char>) -> Ev {
    if w.len() == 1 {
        Ev::Character(w[0])
    } else if w == newline_text() {
        Ev::Character('\n')
    } else if w == space_text() {
        Ev::Character(' ')
    } else if w == tab_text() {
        Ev::Character('\t')
    } else if w == return_text() {
        Ev::Character('\r')
    } else {
        Ev::Error(ErrorKind::InvalidSyntax)
    }
}

/// The event of a character literal whose input after the backslash is `t`:
/// the next character whatever it is, and the atom that follows it.
pub open spec fn char_event(t: Seq<char>) -> Ev {
    if t.len() == 0 {
        Ev::Error(ErrorKind::EofWhileParsingValue)
    } else {
        let u = t.drop_first();
        char_named(seq![t[0]] + u.take(atom_len(u) as int))
    }
}

/// The event of the element that starts `b`.
pub open spec fn element_event(b: Seq<char>) -> Ev {
    let c = b[0];
    if is_opener(c) {
        Ev::Start(opened(c))
    } else if c == '#' {
        if b.len() > 1 && b[1] == '{' {
            Ev::Start(Coll::Distinct)
        } else {
            Ev::Error(ErrorKind::InvalidSyntax)
        }
    } else if c == '"' {
        match scan_string(b.drop_first()) {
            Ok(t) => Ev::Str(t),
            Err(k) => Ev::Error(k),
        }
    } else if c == '\\' {
        char_event(b.drop_first())
    } else if is_closer(c) {
        Ev::Error(ErrorKind::InvalidSyntax)
    } else {
        atom_value(b.take(atom_len(b) as int))
    }
}

/// The input after the element that starts `b`, when it is read without
/// error.
pub open spec fn element_rest(b: Seq<char>) -> Seq<char> {
    let c = b[0];
    if is_opener(c) {
        b.drop_first()
    } else if c == '#' {
        b.skip(2)
    } else if c == '"' {
        b.skip(1 + string_len(b.drop_first()) as int)
    } else if c == '\\' {
        b.skip(2 + atom_len(b.skip(2)) as int)
    } else {
        b.skip(atom_len(b) as int)
    }
}

/// Where the parse stands between two events.
#[derive(Debug, Clone, Copy, PartialEq, Eq, Structural)]
pub enum RunState {
    /// Nothing read yet.
    Start,
    /// Inside a collection; the innermost open one is on top of the stack.
    Running,
    /// The top-level value is complete; only whitespace may follow.
    BeforeFinish,
    /// The parse has ended; no more events come.
    Finished,
}

/// An open collection: its kind, whether an element has been read, and,
/// for a map, whether a key waits for its value.
#[derive(Debug, Clone, Copy, PartialEq, Eq, Structural)]
pub struct Frame {
    pub kind: Coll,
    pub after_element: bool,
    pub key_open: bool,
}

/// A frame after one more element has begun in it.
pub open spec fn bumped(f: Frame) -> Frame {
    Frame {
        kind: f.kind,
        after_element: true,
        key_open: if f.kind == Coll::Dict {
            !f.key_open
        } else {
            false
        },
    }
}

/// The stack after one more element has begun in its innermost frame.
pub open spec fn bump_top(fs: Seq<Frame>) -> Seq<Frame> {
    if fs.len() == 0 {
        fs
    } else {
        fs.update(fs.len() - 1, bumped(fs.last()))
    }
}

/// The event that the next pull gives, from the run state, the stack and
/// the input at the cursor.
pub open spec fn step_event(st: RunState, fs: Seq<Frame>, a: Seq<char>) -> Option<Ev> {
    let k = crate::cursor::ws_len(a);
    let b = a.skip(k as int);
    match st {
        RunState::Finished => None,
        RunState::BeforeFinish => if b.len() == 0 {
            None
        } else {
            Some(Ev::Error(ErrorKind::TrailingCharacters))
        },
        RunState::Start => if b.len() == 0 {
            Some(Ev::Error(ErrorKind::EofWhileParsingValue))
        } else {
            Some(element_event(b))
        },
        RunState::Running => {
            let top = fs.last();
            if b.len() == 0 {
                Some(Ev::Error(ErrorKind::EofWhileParsingCollection(top.kind)))
            } else if is_closer(b[0]) {
                if b[0] == closer_of(top.kind) {
                    if top.kind == Coll::Dict && top.key_open {
                        Some(Ev::Error(ErrorKind::MissingMapValue))
                    } else {
                        Some(Ev::End(top.kind))
                    }
                } else {
                    Some(Ev::Error(ErrorKind::InvalidSyntax))
                }
            } else if top.after_element && k == 0 {
                Some(Ev::Error(ErrorKind::ExpectedSeparator))
            } else {
                Some(element_event(b))
            }
        },
    }
}

/// Neither a collection boundary nor an error.
pub open spec fn is_scalar(e: Ev) -> bool {
    !(e is Start) && !(e is End) && !(e is Error)
}

pub fn is_digit_char(c: char) -> (r: bool)
    ensures
        r == is_digit(c),
{
    '0' <= c && c <= '9'
}

/// An error event at a position.
pub fn error_at(line: i64, column: i64, kind: ErrorKind) -> (r: Event)
    ensures
        r == Event::Error(ParseError { kind, line, column }),
{
    Event::Error(ParseError { kind, line, column })
}

/// The event that the atom `w` gives; an error carries `line` and `column`.
pub fn atom_event(w: &Vec<char>, line: i64, column: i64) -> (r: Event)
    ensures
        r@ == atom_value(w@),
        r is Error ==> r->Error_0.line == line && r->Error_0.column == column,
{
    let n = w.len();
    let number = n > 0 && (is_digit_char(w[0]) || (n > 1 && (w[0] == '+' || w[0] == '-')
        && is_digit_char(w[1])));
    if number {
        let start: usize = if w[0] == '+' || w[0] == '-' {
            1
        } else {
            0
        };
        let mut i: usize = start;
        while i < n
            invariant
                n == w@.len(),
                number_like(w@),
                start as int == sign_len(w@),
                start <= i <= n,
                forall|j: int| start <= j < i ==> is_digit(#[trigger] w@[j]),
            decreases n - i,
        {
            if !is_digit_char(w[i]) {
                proof {
                    assert(number_like(w@));
                    assert(w@.skip(sign_len(w@))[i - start] == w@[i as int]);
                    assert(!all_digits(w@.skip(sign_len(w@))));
                }
                return error_at(line, column, ErrorKind::InvalidNumber);
            }
            i = i + 1;
        }
        proof {
            assert forall|j: int| 0 <= j < w@.skip(sign_len(w@)).len() implies is_digit(
                #[trigger] w@.skip(sign_len(w@))[j],
            ) by {
                assert(w@.skip(sign_len(w@))[j] == w@[j + start]);
            }
        }
        match parse_int(w) {
            Some(v) => Event::Integer(v),
            None => error_at(line, column, ErrorKind::InvalidNumber),
        }
    } else if n > 0 && w[0] == ':' {
        let mut name: Vec<char> = Vec::new();
        let mut i: usize = 1;
        while i < n
            invariant
                n == w@.len(),
                1 <= i <= n,
                name@ == w@.subrange(1, i as int),
            decreases n - i,
        {
            name.push(w[i]);
            i = i + 1;
            assert(name@ =~= w@.subrange(1, i as int));
        }
        assert(name@ =~= w@.drop_first());
        match classify_text(&name) {
            Some(_) => Event::Keyword(name),
            None => error_at(line, column, ErrorKind::InvalidSyntax),
        }
    } else {
        match classify_text(w) {
            Some(Token::Nil) => Event::Nil,
            Some(Token::Boolean(b)) => Event::Boolean(b),
            Some(Token::Symbol(s)) => Event::Symbol(s),
            _ => error_at(line, column, ErrorKind::InvalidSyntax),
        }
    }
}

/// Reads the atom at the cursor: the characters up to whitespace, a
/// delimiter, or the end of the input.
pub(crate) fn read_atom(cursor: &mut Parser) -> (w: Vec<char>)
    requires
        old(cursor).well_formed(),
        old(cursor).primed(),
    ensures
        final(cursor).well_formed(),
        final(cursor).primed(),
        final(cursor).text() == old(cursor).text(),
        w@ == old(cursor).ahead().take(atom_len(old(cursor).ahead()) as int),
        final(cursor).ahead() == old(cursor).ahead().skip(atom_len(old(cursor).ahead()) as int),
{
    let ghost a = cursor.ahead();
    let mut w: Vec<char> = Vec::new();
    loop
        invariant
            cursor.well_formed(),
            cursor.primed(),
            cursor.text() == old(cursor).text(),
            a == old(cursor).ahead(),
            w@.len() <= a.len(),
            w@ == a.take(w@.len() as int),
            cursor.ahead() == a.skip(w@.len() as int),
            forall|j: int| 0 <= j < w@.len() ==> atom_char(#[trigger] w@[j]),
        ensures
            cursor.well_formed(),
            cursor.primed(),
            cursor.text() == old(cursor).text(),
            w@ == a.take(atom_len(a) as int),
            cursor.ahead() == a.skip(atom_len(a) as int),
        decreases cursor.ahead().len(),
    {
        let done = match cursor.current() {
            Some(c) => {
                let stop = Parser::is_whitespace(&c) || c == '(' || c == ')' || c == '[' || c
                    == ']' || c == '{' || c == '}' || c == '"';
                if !stop {
                    proof {
                        assert(cursor.ahead()[0] == c);
                        assert(a.skip(w@.len() as int)[0] == a[w@.len() as int]);
                    }
                    w.push(c);
                    proof {
                        assert(a[w@.len() - 1] == c);
                        assert(w@ =~= a.take(w@.len() as int));
                    }
                    cursor.next_character();
                    proof {
                        assert(cursor.ahead() =~= a.skip(w@.len() as int));
                    }
                }
                stop
            },
            None => true,
        };
        if done {
            proof {
                let k = w@.len();
                assert forall|j: int| 0 <= j < k implies (|c: char| atom_char(c))(
                    #[trigger] a[j],
                ) by {
                    assert(a[j] == w@[j]);
                }
                if k < a.len() {
                    assert(cursor.ahead()[0] == a[k as int]);
                }
                crate::cursor::lemma_run_len_exact(a, |c: char| atom_char(c), k);
            }
            break;
        }
    }
    w
}

proof fn lemma_prefixed(p: Seq<char>, q: Seq<char>, r: Result<Seq<char>, ErrorKind>)
    ensures
        prefixed(p, prefixed(q, r)) == prefixed(p + q, r),
{
    if let Ok(t) = r {
        assert(p + (q + t) =~= (p + q) + t);
    }
}

pub open spec fn scan_view(r: Result<Vec<char>, ErrorKind>) -> Result<Seq<char>, ErrorKind> {
    match r {
        Ok(t) => Ok(t@),
        Err(k) => Err(k),
    }
}

/// The character that follows a backslash in a string stands for.
pub fn escape_char(c: char) -> (r: Option<char>)
    ensures
        r == escape_of(c),
{
    if c == 'n' {
        Some('\n')
    } else if c == 't' {
        Some('\t')
    } else if c == 'r' {
        Some('\r')
    } else if c == '"' {
        Some('"')
    } else if c == '\\' {
        Some('\\')
    } else {
        None
    }
}

/// Reads a string literal at the cursor, from its opening quote through its
/// closing quote, replacing escapes. On an error the cursor stays on the
/// character that revealed it.
pub(crate) fn read_string(cursor: &mut Parser) -> (r: Result<Vec<char>, ErrorKind>)
    requires
        old(cursor).well_formed(),
        old(cursor).primed(),
        old(cursor).ahead().len() > 0,
        old(cursor).ahead()[0] == '"',
    ensures
        final(cursor).well_formed(),
        final(cursor).primed(),
        final(cursor).text() == old(cursor).text(),
        final(cursor).ahead().len() < old(cursor).ahead().len(),
        scan_view(r) == scan_string(old(cursor).ahead().drop_first()),
        r is Ok ==> final(cursor).ahead() == old(cursor).ahead().skip(
            1 + string_len(old(cursor).ahead().drop_first()) as int,
        ),
{
    let ghost a = cursor.ahead();
    cursor.next_character();
    let ghost mut used: nat = 0;
    assert(cursor.ahead() =~= a.skip(1));
    let mut text: Vec<char> = Vec::new();
    assert(prefixed(text@, scan_string(cursor.ahead())) == scan_string(cursor.ahead())) by {
        lemma_prefixed_empty(scan_string(cursor.ahead()));
    }
    loop
        invariant
            cursor.well_formed(),
            cursor.primed(),
            cursor.text() == old(cursor).text(),
            a == old(cursor).ahead(),
            cursor.ahead().len() < a.len(),
            scan_string(a.drop_first()) == prefixed(text@, scan_string(cursor.ahead())),
            1 + used <= a.len(),
            cursor.ahead() == a.skip(1 + used as int),
            string_len(a.drop_first()) == used + string_len(cursor.ahead()),
        decreases cursor.ahead().len(),
    {
        let ghost here = cursor.ahead();
        match cursor.current() {
            None => {
                return Err(ErrorKind::EofWhileParsingString);
            },
            Some(c) => {
                assert(here[0] == c);
                if c == '"' {
                    cursor.next_character();
                    assert(text@ + Seq::<char>::empty() =~= text@);
                    assert(cursor.ahead() =~= a.skip(1 + used as int + 1));
                    return Ok(text);
                } else if c == '\\' {
                    cursor.next_character();
                    match cursor.current() {
                        None => {
                            return Err(ErrorKind::EofWhileParsingString);
                        },
                        Some(e) => {
                            assert(here[1] == e);
                            match escape_char(e) {
                                Some(x) => {
                                    proof {
                                        lemma_prefixed(text@, seq![x], scan_string(here.skip(2)));
                                        assert(scan_string(here) == prefixed(
                                            seq![x],
                                            scan_string(here.skip(2)),
                                        ));
                                    }
                                    let ghost before = text@;
                                    text.push(x);
                                    assert(text@ =~= before + seq![x]);
                                    cursor.next_character();
                                    assert(cursor.ahead() =~= here.skip(2));
                                    proof {
                                        assert(here.skip(2) =~= a.skip(1 + used as int + 2));
                                        used = used + 2;
                                    }
                                },
                                None => {
                                    return Err(ErrorKind::InvalidEscape);
                                },
                            }
                        },
                    }
                } else {
                    proof {
                        lemma_prefixed(text@, seq![c], scan_string(here.drop_first()));
                        assert(scan_string(here) == prefixed(
                            seq![c],
                            scan_string(here.drop_first()),
                        ));
                    }
                    let ghost before = text@;
                    text.push(c);
                    assert(text@ =~= before + seq![c]);
                    cursor.next_character();
                    assert(cursor.ahead() == here.drop_first());
                    proof {
                        assert(here.drop_first() =~= a.skip(1 + used as int + 1));
                        used = used + 1;
                    }
                }
            },
        }
    }
}

proof fn lemma_prefixed_empty(r: Result<Seq<char>, ErrorKind>)
    ensures
        prefixed(Seq::empty(), r) == r,
{
    if let Ok(t) = r {
        assert(Seq::<char>::empty() + t =~= t);
    }
}

/// Whether the characters of `w` are those of `t`.
pub fn same_text(w: &Vec<char>, t: &str) -> (r: bool)
    ensures
        r == (w@ == t@),
{
    let tc = chars_of(t);
    if w.len() != tc.len() {
        assert(w@.len() != t@.len());
        return false;
    }
    let mut i: usize = 0;
    while i < w.len()
        invariant
            w@.len() == tc@.len(),
            tc@ == t@,
            i <= w@.len(),
            forall|j: int| 0 <= j < i ==> w@[j] == tc@[j],
        decreases w@.len() - i,
    {
        if w[i] != tc[i] {
            assert(w@[i as int] != t@[i as int]);
            return false;
        }
        i = i + 1;
    }
    assert(w@ =~= t@);
    true
}

/// Reads a character literal at the cursor, from its backslash on.
pub(crate) fn read_char(cursor: &mut Parser) -> (r: Event)
    requires
        old(cursor).well_formed(),
        old(cursor).primed(),
        old(cursor).ahead().len() > 0,
        old(cursor).ahead()[0] == '\\',
    ensures
        final(cursor).well_formed(),
        final(cursor).primed(),
        final(cursor).text() == old(cursor).text(),
        final(cursor).ahead().len() < old(cursor).ahead().len(),
        r@ == char_event(old(cursor).ahead().drop_first()),
        r is Error ==> r->Error_0.line == final(cursor).line_spec() && r->Error_0.column
            == final(cursor).character_spec(),
        !(r is Error) ==> old(cursor).ahead().len() >= 2 && final(cursor).ahead() == old(
            cursor,
        ).ahead().skip(2 + atom_len(old(cursor).ahead().skip(2)) as int),
{
    let ghost a = cursor.ahead();
    cursor.next_character();
    match cursor.current() {
        None => {
            assert(a.drop_first().len() == 0);
            error_at(cursor.line(), cursor.character(), ErrorKind::EofWhileParsingValue)
        },
        Some(c) => {
            let ghost t = cursor.ahead();
            assert(t == a.drop_first());
            assert(t[0] == c);
            cursor.next_character();
            assert(cursor.ahead() == t.drop_first());
            assert(t.drop_first() =~= a.skip(2));
            proof {
                crate::cursor::lemma_run_len_bound(t.drop_first(), |ch: char| atom_char(ch));
            }
            let rest = read_atom(cursor);
            let mut w: Vec<char> = Vec::new();
            w.push(c);
            let mut i: usize = 0;
            while i < rest.len()
                invariant
                    i <= rest@.len(),
                    w@ == seq![c] + rest@.take(i as int),
                decreases rest@.len() - i,
            {
                w.push(rest[i]);
                i = i + 1;
                assert(w@ =~= seq![c] + rest@.take(i as int));
            }
            assert(rest@.take(i as int) =~= rest@);
            assert(w@ == seq![t[0]] + t.drop_first().take(atom_len(t.drop_first()) as int));
            proof {
                reveal_strlit("newline");
                reveal_strlit("space");
                reveal_strlit("tab");
                reveal_strlit("return");
                assert("newline"@ =~= newline_text());
                assert("space"@ =~= space_text());
                assert("tab"@ =~= tab_text());
                assert("return"@ =~= return_text());
            }
            assert(cursor.ahead().len() < a.len());
            assert(cursor.ahead() =~= a.skip(2 + atom_len(a.skip(2)) as int));
            if w.len() == 1 {
                assert(w@[0] == c);
                Event::Character(c)
            } else if same_text(&w, "newline") {
                assert(w@ == newline_text());
                Event::Character('\n')
            } else if same_text(&w, "space") {
                assert(w@ == space_text());
                Event::Character(' ')
            } else if same_text(&w, "tab") {
                assert(w@ == tab_text());
                Event::Character('\t')
            } else if same_text(&w, "return") {
                assert(w@ == return_text());
                Event::Character('\r')
            } else {
                error_at(cursor.line(), cursor.character(), ErrorKind::InvalidSyntax)
            }
        },
    }
}

} // verus!
