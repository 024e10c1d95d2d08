use vstd::prelude::*;
use vstd::string::StrSliceExecFns;

use crate::cursor::{is_ws, run_len, ws_len, Parser};

verus! {

/// A token read by the cursor: one of the keywords, a symbol, or a run of
/// whitespace.
#[derive(Debug, Clone, PartialEq)]
pub enum Token {
    Nil,
    Boolean(bool),
    Whitespace(Vec<char>),
    Symbol(Vec<char>),
}

/// The mathematical value of a [`Token`].
pub enum Tok {
    Nil,
    Boolean(bool),
    Whitespace(Seq<char>),
    Symbol(Seq<char>),
}

impl View for Token {
    type V = Tok;

    open spec fn view(&self) -> Tok {
        match self {
            Token::Nil => Tok::Nil,
            Token::Boolean(b) => Tok::Boolean(*b),
            Token::Whitespace(w) => Tok::Whitespace(w@),
            Token::Symbol(s) => Tok::Symbol(s@),
        }
    }
}

impl Token {
    /// A copy of this token.
    pub fn duplicate(&self) -> (r: Token)
        ensures
            r@ == self@,
    {
        match self {
            Token::Nil => Token::Nil,
            Token::Boolean(b) => Token::Boolean(*b),
            Token::Whitespace(w) => Token::Whitespace(w.clone()),
            Token::Symbol(s) => Token::Symbol(s.clone()),
        }
    }
}

/// Whether `c` has Unicode's Alphabetic property.
pub uninterp spec fn alphabetic(c: char) -> bool;

/// Whether `c` is in one of Unicode's numeric categories (Nd, Nl, No).
pub uninterp spec fn numeric(c: char) -> bool;

/// Relies on `char::is_alphabetic`: whether the character is alphabetic,
/// a property of the character alone.
pub assume_specification[ char::is_alphabetic ](c: char) -> (r: bool)
    ensures
        r == alphabetic(c),
;

/// Relies on `char::is_numeric`: whether the character is numeric, a
/// property of the character alone.
pub assume_specification[ char::is_numeric ](c: char) -> (r: bool)
    ensures
        r == numeric(c),
;

/// May begin a symbol besides letters.
pub open spec fn is_leading_special(c: char) -> bool {
    c == '+' || c == '-' || c == '.'
}

/// May stand anywhere in a symbol after its first character.
pub open spec fn is_general_special(c: char) -> bool {
    c == '.' || c == '*' || c == '+' || c == '!' || c == '-' || c == '_' || c == '?' || c == '$'
        || c == '%' || c == '&' || c == '=' || c == '<' || c == '>' || c == '/'
}

/// May stand in a symbol after its first character, but not right after
/// the namespace separator `/`.
pub open spec fn is_extended_special(c: char) -> bool {
    c == '#' || c == ':'
}

/// Whether a symbol whose accepted characters so far are `prefix` may go
/// on with `c`.
pub open spec fn allowed(prefix: Seq<char>, c: char) -> bool {
    if prefix.len() == 0 {
        alphabetic(c) || is_leading_special(c)
    } else if prefix.len() == 1 && is_leading_special(prefix[0]) {
        alphabetic(c) || is_general_special(c) || is_extended_special(c)
    } else if prefix.last() == '/' {
        alphabetic(c) || is_general_special(c)
    } else {
        alphabetic(c) || numeric(c) || is_general_special(c) || is_extended_special(c)
    }
}

/// Every character of `w` may follow the ones before it.
pub open spec fn chars_allowed(w: Seq<char>) -> bool {
    forall|j: int| 0 <= j < w.len() ==> allowed(w.take(j), #[trigger] w[j])
}

/// `w` is a whole symbol: not empty, each character allowed where it
/// stands, and not ending in the namespace separator.
pub open spec fn is_symbol(w: Seq<char>) -> bool {
    w.len() > 0 && chars_allowed(w) && w.last() != '/'
}

pub open spec fn nil_text() -> Seq<char> {
    seq!['n', 'i', 'l']
}

pub open spec fn true_text() -> Seq<char> {
    seq!['t', 'r', 'u', 'e']
}

pub open spec fn false_text() -> Seq<char> {
    seq!['f', 'a', 'l', 's', 'e']
}

/// The token that the characters `w` form, keywords before symbols.
pub open spec fn classify(w: Seq<char>) -> Option<Tok> {
    if w == nil_text() {
        Some(Tok::Nil)
    } else if w == true_text() {
        Some(Tok::Boolean(true))
    } else if w == false_text() {
        Some(Tok::Boolean(false))
    } else if is_symbol(w) {
        Some(Tok::Symbol(w))
    } else {
        None
    }
}

/// The view of an optional token.
pub open spec fn opt_view(t: Option<Token>) -> Option<Tok> {
    match t {
        Some(x) => Some(x@),
        None => None,
    }
}

/// The flag of a candidate after one more character: it starts as the
/// character's verdict and, once false, stays false.
pub open spec fn next_state(last: Option<bool>, ok: bool) -> Option<bool> {
    match last {
        Some(s) => Some(s && ok),
        None => Some(ok),
    }
}

/// The characters of `s`, in order.
pub fn chars_of(s: &str) -> (r: Vec<char>)
    ensures
        r@ == s@,
{
    let n = s.unicode_len();
    let mut chars: Vec<char> = Vec::new();
    let mut i: usize = 0;
    while i < n
        invariant
            n == s@.len(),
            i <= n,
            chars@ == s@.take(i as int),
        decreases n - i,
    {
        chars.push(s.get_char(i));
        i = i + 1;
        assert(chars@ =~= s@.take(i as int));
    }
    assert(chars@ =~= s@);
    chars
}

/// A candidate that accepts exactly one keyword.
pub struct KeywordTokenParser {
    keyword: Vec<char>,
    index: usize,
    result: Token,
    last_state: Option<bool>,
}

impl KeywordTokenParser {
    /// The characters of the keyword not matched yet.
    pub closed spec fn remaining(&self) -> Seq<char> {
        self.keyword@.skip(self.index as int)
    }

    pub closed spec fn result_spec(&self) -> Tok {
        self.result@
    }

    pub closed spec fn state(&self) -> Option<bool> {
        self.last_state
    }

    pub closed spec fn well_formed(&self) -> bool {
        self.index <= self.keyword@.len()
    }

    /// A candidate for `keyword` that reports `result` on a match.
    pub fn new(keyword: &str, result: Token) -> (p: KeywordTokenParser)
        ensures
            p.well_formed(),
            p.remaining() == keyword@,
            p.result_spec() == result@,
            p.state() is None,
    {
        let keyword = chars_of(keyword);
        let p = KeywordTokenParser { keyword, index: 0, result, last_state: None };
        assert(p.remaining() =~= p.keyword@);
        p
    }

    /// Offers the next character: it matches if it is the next character
    /// of the keyword. Returns whether every character so far matched.
    pub fn matches(&mut self, c: &char) -> (r: bool)
        requires
            old(self).well_formed(),
        ensures
            final(self).well_formed(),
            final(self).result_spec() == old(self).result_spec(),
            final(self).remaining() == if old(self).remaining().len() > 0 {
                old(self).remaining().drop_first()
            } else {
                old(self).remaining()
            },
            final(self).state() == next_state(
                old(self).state(),
                old(self).remaining().len() > 0 && old(self).remaining()[0] == *c,
            ),
            r == final(self).state()->0,
    {
        let mut local_state: bool = false;
        if self.index < self.keyword.len() {
            if *c == self.keyword[self.index] {
                local_state = true;
            }
            self.index = self.index + 1;
        }
        proof {
            assert(self.remaining() =~= if old(self).remaining().len() > 0 {
                old(self).remaining().drop_first()
            } else {
                old(self).remaining()
            });
        }
        let s = match self.last_state {
            Some(internal_state) => internal_state && local_state,
            None => local_state,
        };
        self.last_state = Some(s);
        s
    }

    /// The keyword's token, if every character offered matched and the
    /// whole keyword was offered.
    pub fn get_token(&self) -> (r: Option<Token>)
        requires
            self.well_formed(),
        ensures
            r is Some <==> self.state() == Some(true) && self.remaining().len() == 0,
            r is Some ==> r->0@ == self.result_spec(),
    {
        if let Some(s) = self.last_state {
            if s && self.index >= self.keyword.len() {
                return Some(self.result.duplicate());
            }
        }
        None
    }
}

/// A candidate that accepts a bare symbol.
pub struct SymbolParser {
    result: Vec<char>,
    last_state: Option<bool>,
}

impl SymbolParser {
    /// The characters accepted so far.
    pub closed spec fn accepted(&self) -> Seq<char> {
        self.result@
    }

    pub closed spec fn state(&self) -> Option<bool> {
        self.last_state
    }

    /// A candidate that has seen no character.
    pub fn new() -> (p: SymbolParser)
        ensures
            p.accepted() == Seq::<char>::empty(),
            p.state() is None,
    {
        SymbolParser { result: Vec::new(), last_state: None }
    }

    /// Whether `c` may follow the characters accepted so far.
    pub fn is_character_allowed(&self, c: &char) -> (r: bool)
        ensures
            r == allowed(self.accepted(), *c),
    {
        let c = *c;
        let leading = c == '+' || c == '-' || c == '.';
        let general = c == '.' || c == '*' || c == '+' || c == '!' || c == '-' || c == '_' || c
            == '?' || c == '$' || c == '%' || c == '&' || c == '=' || c == '<' || c == '>' || c
            == '/';
        let extended = c == '#' || c == ':';
        let n = self.result.len();
        if n == 0 {
            c.is_alphabetic() || leading
        } else {
            let first = self.result[0];
            let last = self.result[n - 1];
            if n == 1 && (first == '+' || first == '-' || first == '.') {
                c.is_alphabetic() || general || extended
            } else if last == '/' {
                c.is_alphabetic() || general
            } else {
                c.is_alphabetic() || c.is_numeric() || general || extended
            }
        }
    }

    /// Offers the next character: accepted if allowed where it stands.
    /// Returns whether every character so far was accepted.
    pub fn matches(&mut self, c: &char) -> (r: bool)
        ensures
            ({
                let ok = allowed(old(self).accepted(), *c);
                &&& final(self).accepted() == if ok {
                    old(self).accepted().push(*c)
                } else {
                    old(self).accepted()
                }
                &&& final(self).state() == next_state(old(self).state(), ok)
            }),
            r == final(self).state()->0,
    {
        let mut local_state = false;
        if self.is_character_allowed(c) {
            self.result.push(*c);
            local_state = true;
        }
        let s = match self.last_state {
            Some(internal_state) => internal_state && local_state,
            None => local_state,
        };
        self.last_state = Some(s);
        s
    }

    /// The symbol, if every character offered was accepted and it does not
    /// end in the namespace separator.
    pub fn get_token(&self) -> (r: Option<Token>)
        ensures
            r is Some <==> self.state() == Some(true) && self.accepted().len() > 0
                && self.accepted().last() != '/',
            r is Some ==> r->0@ == Tok::Symbol(self.accepted()),
    {
        if let Some(valid) = self.last_state {
            let n = self.result.len();
            if valid && n > 0 && self.result[n - 1] != '/' {
                return Some(Token::Symbol(self.result.clone()));
            }
        }
        None
    }
}

/// Length of the run of characters other than whitespace that starts `s`.
pub open spec fn non_ws_len(s: Seq<char>) -> nat {
    run_len(s, |c: char| !is_ws(c))
}

/// The flag of a keyword candidate for `kw` after being offered `fed`.
pub open spec fn keyword_state(kw: Seq<char>, fed: Seq<char>) -> Option<bool> {
    if fed.len() == 0 {
        None
    } else {
        Some(fed.len() <= kw.len() && fed == kw.take(fed.len() as int))
    }
}

/// What a keyword candidate for `kw` has left to match after `n` characters.
pub open spec fn keyword_left(kw: Seq<char>, n: nat) -> Seq<char> {
    if n <= kw.len() {
        kw.skip(n as int)
    } else {
        kw.skip(kw.len() as int)
    }
}

proof fn lemma_keyword_step(kw: Seq<char>, fed: Seq<char>, c: char)
    ensures
        keyword_state(kw, fed.push(c)) == next_state(
            keyword_state(kw, fed),
            keyword_left(kw, fed.len()).len() > 0 && keyword_left(kw, fed.len())[0] == c,
        ),
        keyword_left(kw, fed.len() + 1) == if keyword_left(kw, fed.len()).len() > 0 {
            keyword_left(kw, fed.len()).drop_first()
        } else {
            keyword_left(kw, fed.len())
        },
{
    let n = fed.len();
    let f2 = fed.push(c);
    if n < kw.len() {
        assert(keyword_left(kw, n)[0] == kw[n as int]);
        assert(keyword_left(kw, n + 1) =~= keyword_left(kw, n).drop_first());
        if n == 0 {
            assert(fed =~= kw.take(0));
        }
        if f2 == kw.take(n + 1 as int) {
            assert(fed =~= kw.take(n as int)) by {
                assert forall|j: int| 0 <= j < n implies fed[j] == kw.take(n as int)[j] by {
                    assert(f2[j] == fed[j]);
                    assert(kw.take(n + 1 as int)[j] == kw[j]);
                }
            }
            assert(f2[n as int] == c);
            assert(kw.take(n + 1 as int)[n as int] == kw[n as int]);
        }
        if fed == kw.take(n as int) && kw[n as int] == c {
            assert(f2 =~= kw.take(n + 1 as int));
        }
    } else {
        assert(keyword_left(kw, n).len() == 0);
        assert(keyword_left(kw, n + 1) =~= keyword_left(kw, n));
    }
}

proof fn lemma_allowed_step(fed: Seq<char>, c: char)
    ensures
        chars_allowed(fed.push(c)) == (chars_allowed(fed) && allowed(fed, c)),
{
    let f2 = fed.push(c);
    assert(f2.take(fed.len() as int) =~= fed);
    assert forall|j: int| 0 <= j < fed.len() implies f2.take(j) =~= fed.take(j) && f2[j]
        == fed[j] by {}
    if chars_allowed(f2) {
        assert(allowed(f2.take(fed.len() as int), f2[fed.len() as int]));
        assert forall|j: int| 0 <= j < fed.len() implies allowed(fed.take(j), #[trigger] fed[j]) by {
            assert(allowed(f2.take(j), f2[j]));
        }
    }
    if chars_allowed(fed) && allowed(fed, c) {
        assert forall|j: int| 0 <= j < f2.len() implies allowed(f2.take(j), #[trigger] f2[j]) by {
            if j < fed.len() {
                assert(allowed(fed.take(j), fed[j]));
            }
        }
    }
}

impl<'a> Parser<'a> {
    /// Reads the characters after the cursor up to the next whitespace,
    /// skips the whitespace after them, and returns the token they form:
    /// `nil`, `true` or `false` exactly, else a symbol, else `None`.
    pub fn parse_value(&mut self) -> (r: Option<Token>)
        requires
            old(self).well_formed(),
        ensures
            final(self).well_formed(),
            final(self).text() == old(self).text(),
            ({
                let r0 = old(self).rest();
                let n = non_ws_len(r0);
                let tail = r0.skip(n as int);
                &&& opt_view(r) == classify(r0.take(n as int))
                &&& final(self).primed()
                &&& final(self).ahead() == tail.skip(ws_len(tail) as int)
            }),
    {
        let ghost r0 = self.rest();
        let ghost p0 = self.pos();
        let mut w: Vec<char> = Vec::new();
        loop
            invariant_except_break
                self.pos() == p0 + w@.len(),
                self.rest() == r0.skip(w@.len() as int),
            invariant
                self.well_formed(),
                self.text() == old(self).text(),
                r0 == old(self).rest(),
                p0 == old(self).pos(),
                w@.len() <= r0.len(),
                w@ == r0.take(w@.len() as int),
                forall|j: int| 0 <= j < w@.len() ==> !is_ws(#[trigger] w@[j]),
            ensures
                self.well_formed(),
                self.text() == old(self).text(),
                self.primed(),
                w@ == r0.take(non_ws_len(r0) as int),
                self.ahead() == r0.skip(non_ws_len(r0) as int),
            decreases r0.len() - w@.len(),
        {
            let ghost before = *self;
            let next = self.next_character();
            match next {
                Some(ch) => {
                    proof {
                        assert(r0[w@.len() as int] == ch) by {
                            assert(before.rest()[0] == ch);
                        }
                    }
                    if !Parser::is_whitespace(&ch) {
                        w.push(ch);
                        proof {
                            assert(w@ =~= r0.take(w@.len() as int));
                            assert(self.rest() =~= r0.skip(w@.len() as int));
                        }
                    } else {
                        proof {
                            let k = w@.len();
                            assert(self.ahead() =~= r0.skip(k as int));
                            assert forall|j: int| 0 <= j < k implies (|c: char| !is_ws(c))(
                                #[trigger] r0[j],
                            ) by {
                                assert(r0[j] == w@[j]);
                            }
                            crate::cursor::lemma_run_len_exact(r0, |c: char| !is_ws(c), k);
                        }
                        break;
                    }
                },
                None => {
                    proof {
                        let k = w@.len();
                        assert(self.ahead() =~= r0.skip(k as int));
                        assert forall|j: int| 0 <= j < k implies (|c: char| !is_ws(c))(
                            #[trigger] r0[j],
                        ) by {
                            assert(r0[j] == w@[j]);
                        }
                        crate::cursor::lemma_run_len_exact(r0, |c: char| !is_ws(c), k);
                    }
                    break;
                },
            }
        }
        let ghost mid = *self;
        self.parse_whitespace();
        proof {
            if mid.cur() is None {
                assert(mid.ahead().skip(0) =~= mid.ahead());
            }
        }
        classify_text(&w)
    }
}

/// Runs the keyword candidates and the symbol candidate over `w`, all in
/// step, and returns the first token one of them accepts.
pub fn classify_text(w: &Vec<char>) -> (r: Option<Token>)
    ensures
        opt_view(r) == classify(w@),
{
    proof {
        reveal_strlit("nil");
        reveal_strlit("true");
        reveal_strlit("false");
    }
    let mut nil_parser = KeywordTokenParser::new("nil", Token::Nil);
    let mut true_parser = KeywordTokenParser::new("true", Token::Boolean(true));
    let mut false_parser = KeywordTokenParser::new("false", Token::Boolean(false));
    let mut symbol_parser = SymbolParser::new();
    assert(nil_parser.remaining() =~= nil_text());
    assert(true_parser.remaining() =~= true_text());
    assert(false_parser.remaining() =~= false_text());
    assert(nil_text().skip(0) =~= nil_text());
    assert(true_text().skip(0) =~= true_text());
    assert(false_text().skip(0) =~= false_text());
    let mut i: usize = 0;
    while i < w.len()
        invariant
            i <= w@.len(),
            nil_parser.well_formed(),
            true_parser.well_formed(),
            false_parser.well_formed(),
            nil_parser.result_spec() == Tok::Nil,
            true_parser.result_spec() == Tok::Boolean(true),
            false_parser.result_spec() == Tok::Boolean(false),
            nil_parser.remaining() == keyword_left(nil_text(), i as nat),
            true_parser.remaining() == keyword_left(true_text(), i as nat),
            false_parser.remaining() == keyword_left(false_text(), i as nat),
            nil_parser.state() == keyword_state(nil_text(), w@.take(i as int)),
            true_parser.state() == keyword_state(true_text(), w@.take(i as int)),
            false_parser.state() == keyword_state(false_text(), w@.take(i as int)),
            symbol_parser.state() == if i == 0 {
                None
            } else {
                Some(chars_allowed(w@.take(i as int)))
            },
            symbol_parser.state() == Some(true) ==> symbol_parser.accepted() == w@.take(i as int),
            i == 0 ==> symbol_parser.accepted() == w@.take(i as int),
        decreases w@.len() - i,
    {
        let ch = w[i];
        let ghost fed = w@.take(i as int);
        proof {
            lemma_keyword_step(nil_text(), fed, ch);
            lemma_keyword_step(true_text(), fed, ch);
            lemma_keyword_step(false_text(), fed, ch);
            lemma_allowed_step(fed, ch);
            assert(fed.push(ch) =~= w@.take(i + 1));
        }
        nil_parser.matches(&ch);
        true_parser.matches(&ch);
        false_parser.matches(&ch);
        symbol_parser.matches(&ch);
        i = i + 1;
    }
    let ghost fed = w@.take(i as int);
    proof {
        assert(fed =~= w@);
        if nil_parser.state() == Some(true) && nil_parser.remaining().len() == 0 {
            assert(fed =~= nil_text());
        }
        if true_parser.state() == Some(true) && true_parser.remaining().len() == 0 {
            assert(fed =~= true_text());
        }
        if false_parser.state() == Some(true) && false_parser.remaining().len() == 0 {
            assert(fed =~= false_text());
        }
        if fed == nil_text() {
            assert(fed.take(3) =~= fed);
        }
        if fed == true_text() {
            assert(fed.take(4) =~= fed);
        }
        if fed == false_text() {
            assert(fed.take(5) =~= fed);
        }
    }
    if let Some(t) = nil_parser.get_token() {
        return Some(t);
    }
    if let Some(t) = true_parser.get_token() {
        return Some(t);
    }
    if let Some(t) = false_parser.get_token() {
        return Some(t);
    }
    symbol_parser.get_token()
}

/// Classifying the text of a symbol again gives the same symbol: when the
/// characters up to the first whitespace of an input classify as the symbol
/// `s`, an input that is just `s` classifies as `s` too.
pub proof fn lemma_symbol_rescan(r0: Seq<char>, s: Seq<char>)
    requires
        classify(r0.take(non_ws_len(r0) as int)) == Some(Tok::Symbol(s)),
    ensures
        classify(s.take(non_ws_len(s) as int)) == Some(Tok::Symbol(s)),
{
    let n = non_ws_len(r0);
    crate::cursor::lemma_run_len_bound(r0, |c: char| !is_ws(c));
    let w = r0.take(n as int);
    assert(s == w);
    assert forall|i: int| 0 <= i < s.len() implies (|c: char| !is_ws(c))(#[trigger] s[i]) by {
        assert(s[i] == r0[i]);
    }
    crate::cursor::lemma_run_len_exact(s, |c: char| !is_ws(c), s.len());
    assert(s.take(s.len() as int) =~= s);
}

} // verus!
