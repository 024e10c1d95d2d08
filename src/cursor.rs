use vstd::prelude::*;
use crate::token::{chars_of, Tok, Token};

verus! {

/// Whitespace for this notation: space, tab, newline, carriage return, and
/// the comma, which separates elements the way whitespace does.
pub open spec fn is_ws(c: char) -> bool {
    c == ' ' || c == ',' || c == '\t' || c == '\n' || c == '\r'
}

/// Length of the longest prefix of `s` whose characters all satisfy `p`.
pub open spec fn run_len(s: Seq<char>, p: spec_fn(char) -> bool) -> nat
    decreases s.len(),
{
    if s.len() > 0 && p(s[0]) {
        1 + run_len(s.drop_first(), p)
    } else {
        0
    }
}

/// Length of the whitespace run that starts `s`.
pub open spec fn ws_len(s: Seq<char>) -> nat {
    run_len(s, |c: char| is_ws(c))
}

/// Number of newline characters in `s`.
pub open spec fn count_nl(s: Seq<char>) -> nat
    decreases s.len(),
{
    if s.len() == 0 {
        0
    } else {
        count_nl(s.drop_last()) + if s.last() == '\n' { 1nat } else { 0nat }
    }
}

/// Number of characters of `s` after its last newline (all of them if it
/// has none).
pub open spec fn col_after(s: Seq<char>) -> nat
    decreases s.len(),
{
    if s.len() == 0 {
        0
    } else if s.last() == '\n' {
        0
    } else {
        col_after(s.drop_last()) + 1
    }
}

pub proof fn lemma_run_len_bound(s: Seq<char>, p: spec_fn(char) -> bool)
    ensures
        run_len(s, p) <= s.len(),
        forall|i: int| 0 <= i < run_len(s, p) ==> p(#[trigger] s[i]),
        run_len(s, p) < s.len() ==> !p(s[run_len(s, p) as int]),
    decreases s.len(),
{
    if s.len() > 0 && p(s[0]) {
        lemma_run_len_bound(s.drop_first(), p);
        assert forall|i: int| 0 <= i < run_len(s, p) implies p(#[trigger] s[i]) by {
            if i > 0 {
                assert(s[i] == s.drop_first()[i - 1]);
            }
        }
    }
}

pub proof fn lemma_counts_bound(s: Seq<char>)
    ensures
        count_nl(s) <= s.len(),
        col_after(s) <= s.len(),
    decreases s.len(),
{
    if s.len() > 0 {
        lemma_counts_bound(s.drop_last());
    }
}

/// Newlines and columns over a concatenation.
pub proof fn lemma_counts_concat(a: Seq<char>, b: Seq<char>)
    ensures
        count_nl(a + b) == count_nl(a) + count_nl(b),
        col_after(a + b) == if count_nl(b) > 0 { col_after(b) } else { col_after(a) + b.len() },
    decreases b.len(),
{
    if b.len() == 0 {
        assert(a + b =~= a);
    } else {
        lemma_counts_concat(a, b.drop_last());
        assert((a + b).drop_last() =~= a + b.drop_last());
    }
}

/// A prefix of `s` of length `n` whose characters satisfy `p`, followed by
/// the end of `s` or by a character that does not, is the run of `p`.
pub proof fn lemma_run_len_exact(s: Seq<char>, p: spec_fn(char) -> bool, n: nat)
    requires
        n <= s.len(),
        forall|i: int| 0 <= i < n ==> p(#[trigger] s[i]),
        n < s.len() ==> !p(s[n as int]),
    ensures
        run_len(s, p) == n,
    decreases n,
{
    if n > 0 {
        assert(p(s[0]));
        let t = s.drop_first();
        assert forall|i: int| 0 <= i < n - 1 implies p(#[trigger] t[i]) by {
            assert(t[i] == s[i + 1]);
        }
        if n - 1 < t.len() {
            assert(t[n - 1] == s[n as int]);
        }
        lemma_run_len_exact(t, p, (n - 1) as nat);
    } else if s.len() > 0 {
        assert(!p(s[0]));
    }
}

proof fn lemma_single(c: char)
    ensures
        count_nl(seq![c]) == if c == '\n' { 1nat } else { 0nat },
        col_after(seq![c]) == if c == '\n' { 0nat } else { 1nat },
{
    let s = seq![c];
    assert(s.drop_last() =~= Seq::<char>::empty());
    assert(s.last() == c);
    assert(count_nl(s.drop_last()) == 0);
    assert(col_after(s.drop_last()) == 0);
}

/// Reads the characters of a borrowed string one at a time, keeping the
/// character under the cursor and its line and column.
pub struct Parser<'a> {
    source: &'a String,
    chars: Vec<char>,
    pos: usize,
    current_character: Option<char>,
    character: i64,
    line: i64,
}

impl<'a> Parser<'a> {
    /// The whole text read by this cursor.
    pub closed spec fn text(&self) -> Seq<char> {
        self.source@
    }

    /// How many characters have been pulled from the text.
    pub closed spec fn pos(&self) -> nat {
        self.pos as nat
    }

    /// The character under the cursor, if any.
    pub closed spec fn cur(&self) -> Option<char> {
        self.current_character
    }

    pub closed spec fn line_spec(&self) -> int {
        self.line as int
    }

    pub closed spec fn character_spec(&self) -> int {
        self.character as int
    }

    /// The characters not pulled yet.
    pub open spec fn rest(&self) -> Seq<char> {
        self.text().skip(self.pos() as int)
    }

    /// The cursor holds a character, or the text is used up.
    pub open spec fn primed(&self) -> bool {
        self.cur() is Some || self.pos() == self.text().len()
    }

    /// The input from the cursor on: the character under it and the rest.
    pub open spec fn ahead(&self) -> Seq<char> {
        if self.cur() is Some {
            self.text().skip(self.pos() - 1)
        } else {
            self.rest()
        }
    }

    /// 1 while the cursor holds a character, else 0.
    pub open spec fn on_char(&self) -> int {
        if self.cur() is Some {
            1
        } else {
            0
        }
    }

    /// The characters whose newlines have been counted.
    pub open spec fn counted(&self) -> Seq<char> {
        if self.cur() is Some {
            self.text().take(self.pos() - 1)
        } else {
            self.text().take(self.pos() as int)
        }
    }

    pub open spec fn wf(&self) -> bool {
        &&& self.pos() <= self.text().len()
        &&& self.text().len() + 2 <= i64::MAX
        &&& (self.cur() is Some ==> self.pos() > 0 && self.cur() == Some(
            self.text()[self.pos() - 1],
        ))
        &&& (self.cur() is None ==> self.pos() == 0 || self.pos() == self.text().len())
        &&& self.line_spec() == 1 + count_nl(self.counted())
        &&& self.character_spec() == col_after(self.counted()) + if self.cur() is Some {
            1int
        } else {
            0int
        }
    }

    /// The cursor's copy of the text matches the text.
    pub closed spec fn copy_ok(&self) -> bool {
        self.chars@ == self.source@
    }

    pub open spec fn well_formed(&self) -> bool {
        &&& self.wf()
        &&& self.copy_ok()
    }

    /// A cursor at the start of `source`, before its first character.
    pub fn new(source: &'a String) -> (p: Parser<'a>)
        requires
            source@.len() + 2 <= i64::MAX,
        ensures
            p.well_formed(),
            p.text() == source@,
            p.pos() == 0,
            p.cur() is None,
            p.line_spec() == 1,
            p.character_spec() == 0,
    {
        let chars = chars_of(source.as_str());
        assert(source@.take(0) =~= Seq::<char>::empty());
        Parser { source, chars, pos: 0, current_character: None, character: 0, line: 1 }
    }

    /// The text this cursor reads.
    pub fn source(&self) -> (r: &String)
        ensures
            r@ == self.text(),
    {
        self.source
    }

    /// The line of the character under the cursor, from 1.
    pub fn line(&self) -> (r: i64)
        ensures
            r == self.line_spec(),
    {
        self.line
    }

    /// The column of the character under the cursor, from 1; 0 before the
    /// first character and right after a final newline.
    pub fn character(&self) -> (r: i64)
        ensures
            r == self.character_spec(),
    {
        self.character
    }

    /// The character under the cursor.
    pub fn current(&self) -> (r: Option<char>)
        ensures
            r == self.cur(),
    {
        self.current_character
    }

    /// Moves to the next character of the text and returns it; `None` once
    /// the text is used up. Passing a newline starts a new line.
    pub fn next_character(&mut self) -> (r: Option<char>)
        requires
            old(self).well_formed(),
        ensures
            final(self).well_formed(),
            final(self).text() == old(self).text(),
            final(self).primed(),
            r == final(self).cur(),
            old(self).rest().len() == 0 <==> r is None,
            r is Some ==> r == Some(old(self).rest()[0]),
            old(self).rest().len() > 0 ==> final(self).pos() == old(self).pos() + 1,
            old(self).rest().len() == 0 ==> final(self).pos() == old(self).pos(),
            old(self).primed() && old(self).ahead().len() > 0 ==> final(self).ahead()
                == old(self).ahead().drop_first(),
            old(self).primed() && old(self).ahead().len() == 0 ==> final(self).ahead()
                == old(self).ahead(),
            !old(self).primed() ==> final(self).ahead() == old(self).ahead(),
            final(self).ahead().len() > 0 ==> r == Some(final(self).ahead()[0]),
            final(self).ahead().len() == 0 ==> r is None,
    {
        let ghost old_counted = self.counted();
        let ch_opt = if self.pos < self.chars.len() {
            let c = self.chars[self.pos];
            self.pos = self.pos + 1;
            Some(c)
        } else {
            None
        };
        proof {
            lemma_counts_bound(old_counted);
        }
        if let Some(p) = self.current_character {
            proof {
                let t = self.source@;
                let k = (old(self).pos - 1) as int;
                assert(t.take(k + 1) =~= old_counted + seq![p]);
                lemma_counts_concat(old_counted, seq![p]);
                lemma_single(p);
                if ch_opt is None {
                    assert(k + 1 == t.len());
                } else {
                    assert(t.take(self.pos - 1) =~= t.take(k + 1));
                }
            }
            if p == '\n' {
                self.line = self.line + 1;
                self.character = 0;
            }
        }
        if ch_opt.is_some() {
            self.character = self.character + 1;
        }
        self.current_character = ch_opt;
        proof {
            let t = self.source@;
            if self.current_character is Some {
                assert(t.skip(self.pos - 1) =~= old(self).ahead().drop_first() || !old(self).primed());
                if !old(self).primed() {
                    assert(t.skip(self.pos - 1) =~= old(self).ahead());
                    assert(t.take(0) =~= t.take(self.pos - 1));
                }
            }
        }
        self.current_character
    }

    proof fn lemma_run_end(&self, start: Seq<char>, start_counted: Seq<char>, ws: Seq<char>)
        requires
            self.well_formed(),
            self.primed(),
            ws == start.take(ws.len() as int),
            ws.len() <= start.len(),
            self.ahead() == start.skip(ws.len() as int),
            self.counted() == start_counted + ws,
            forall|i: int| 0 <= i < ws.len() ==> is_ws(#[trigger] ws[i]),
            self.ahead().len() > 0 ==> !is_ws(self.ahead()[0]),
        ensures
            ws_len(start) == ws.len(),
            count_nl(self.counted()) == count_nl(start_counted) + count_nl(ws),
            col_after(self.counted()) == if count_nl(ws) > 0 {
                col_after(ws)
            } else {
                col_after(start_counted) + ws.len()
            },
    {
        let k = ws.len();
        assert forall|i: int| 0 <= i < k implies (|c: char| is_ws(c))(#[trigger] start[i]) by {
            assert(start[i] == ws[i]);
        }
        if k < start.len() {
            assert(self.ahead()[0] == start[k as int]);
        }
        lemma_run_len_exact(start, |c: char| is_ws(c), k);
        lemma_counts_concat(start_counted, ws);
    }

    /// Whether `ch` separates elements: whitespace or a comma.
    pub fn is_whitespace(ch: &char) -> (r: bool)
        ensures
            r == is_ws(*ch),
    {
        *ch == ' ' || *ch == ',' || *ch == '\t' || *ch == '\n' || *ch == '\r'
    }

    /// Consumes the run of whitespace that starts at the cursor and returns
    /// it, or `None` if the cursor is not on whitespace. Lines and columns
    /// follow each newline of the run.
    pub fn parse_whitespace(&mut self) -> (r: Option<Token>)
        requires
            old(self).well_formed(),
        ensures
            final(self).well_formed(),
            final(self).text() == old(self).text(),
            old(self).cur() is None ==> r is None && final(self).pos() == old(self).pos()
                && final(self).cur() is None,
            old(self).cur() is Some ==> ({
                let k = ws_len(old(self).ahead());
                let w = old(self).ahead().take(k as int);
                &&& final(self).primed()
                &&& final(self).ahead() == old(self).ahead().skip(k as int)
                &&& (k == 0 ==> r is None && final(self).pos() == old(self).pos())
                &&& (k > 0 ==> r is Some && r->0@ == Tok::Whitespace(w))
                &&& final(self).line_spec() == old(self).line_spec() + count_nl(w)
                &&& (count_nl(w) > 0 ==> final(self).character_spec() == col_after(w)
                    + final(self).on_char())
                &&& (count_nl(w) == 0 && k > 0 ==> final(self).character_spec()
                    == old(self).character_spec() + k - 1 + final(self).on_char())
            }),
    {
        let ghost start = self.ahead();
        let ghost start_counted = self.counted();
        let mut ws: Vec<char> = Vec::new();
        loop
            invariant
                self.well_formed(),
                self.text() == old(self).text(),
                old(self).cur() is None ==> ws@.len() == 0 && *self == *old(self),
                old(self).cur() is Some ==> self.primed(),
                old(self).cur() is Some ==> ws@ == start.take(ws@.len() as int),
                old(self).cur() is Some ==> self.ahead() == start.skip(ws@.len() as int),
                old(self).cur() is Some ==> self.counted() == start_counted + ws@,
                ws@.len() <= start.len(),
                forall|i: int| 0 <= i < ws@.len() ==> is_ws(#[trigger] ws@[i]),
                start == old(self).ahead(),
                start_counted == old(self).counted(),
            ensures
                self.well_formed(),
                self.text() == old(self).text(),
                old(self).cur() is None ==> ws@.len() == 0 && *self == *old(self),
                old(self).cur() is Some ==> self.primed(),
                old(self).cur() is Some ==> ws@ == start.take(ws@.len() as int),
                old(self).cur() is Some ==> self.ahead() == start.skip(ws@.len() as int),
                old(self).cur() is Some ==> ws_len(start) == ws@.len(),
                old(self).cur() is Some ==> count_nl(self.counted()) == count_nl(start_counted)
                    + count_nl(ws@),
                old(self).cur() is Some ==> col_after(self.counted()) == if count_nl(ws@) > 0 {
                    col_after(ws@)
                } else {
                    col_after(start_counted) + ws@.len()
                },
            decreases self.text().len() - self.pos(), if self.cur() is Some { 1int } else { 0int },
        {
            match self.current_character {
                Some(c) => {
                    if Parser::is_whitespace(&c) {
                        ws.push(c);
                        proof {
                            assert(self.ahead()[0] == c);
                            assert(start[ws@.len() - 1] == c);
                            assert(ws@ =~= start.take(ws@.len() as int));
                            let k = self.pos - 1;
                            assert(self.text().take(k + 1) =~= self.text().take(k as int) + seq![c]);
                        }
                        self.next_character();
                        proof {
                            assert(self.ahead() =~= start.skip(ws@.len() as int));
                            if self.cur() is Some {
                                assert(self.counted() =~= start_counted + ws@);
                            } else {
                                assert(self.counted() =~= start_counted + ws@);
                            }
                        }
                    } else {
                        proof {
                            assert(self.ahead()[0] == c);
                            self.lemma_run_end(start, start_counted, ws@);
                        }
                        break;
                    }
                },
                None => {
                    proof {
                        if old(self).cur() is Some {
                            self.lemma_run_end(start, start_counted, ws@);
                        }
                    }
                    break;
                },
            }
        }
        if !ws.is_empty() {
            Some(Token::Whitespace(ws))
        } else {
            None
        }
    }
}

} // verus!
