use vstd::prelude::*;

use crate::cursor::{is_ws, ws_len, Parser};
use crate::token::{false_text, nil_text, true_text};
use crate::reader::{
    atom_char, atom_event, atom_len, atom_value, bump_top, element_event, element_rest, error_at, is_closer,
    is_opener, is_scalar, read_atom, read_char, read_string, step_event, Coll, ErrorKind, Event,
    Ev, Frame, ParseError, RunState,
};

verus! {

/// Starts an atom: not whitespace, a delimiter, or a character that begins
/// another kind of element.
pub open spec fn atom_start(c: char) -> bool {
    !is_ws(c) && !is_opener(c) && !is_closer(c) && c != '#' && c != '"' && c != '\\'
}

/// The kinds of a stack of frames, innermost last.
pub open spec fn kinds_of(fs: Seq<Frame>) -> Seq<Coll> {
    fs.map_values(|f: Frame| f.kind)
}

proof fn lemma_kinds(fs: Seq<Frame>, f: Frame)
    ensures
        kinds_of(fs.push(f)) == kinds_of(fs).push(f.kind),
{
    assert(kinds_of(fs.push(f)) =~= kinds_of(fs).push(f.kind));
}

proof fn lemma_kinds_keep(fs: Seq<Frame>)
    ensures
        fs.len() > 0 ==> kinds_of(fs.drop_last()) == kinds_of(fs).drop_last(),
        kinds_of(bump_top(fs)) == kinds_of(fs),
        bump_top(fs).len() == fs.len(),
{
    if fs.len() > 0 {
        assert(kinds_of(fs.drop_last()) =~= kinds_of(fs).drop_last());
    }
    assert(kinds_of(bump_top(fs)) =~= kinds_of(fs));
}

/// Pulls the events of one top-level value from a text, one at a time,
/// keeping the open collections on an explicit stack.
pub struct Reader<'a> {
    cursor: Parser<'a>,
    state: RunState,
    stack: Vec<Frame>,
}

impl<'a> Reader<'a> {
    /// The input from the cursor on.
    pub closed spec fn input(&self) -> Seq<char> {
        self.cursor.ahead()
    }

    pub closed spec fn run_state(&self) -> RunState {
        self.state
    }

    /// The open collections, innermost last.
    pub closed spec fn frames(&self) -> Seq<Frame> {
        self.stack@
    }

    /// Line and column of the character under the cursor.
    pub closed spec fn position(&self) -> (int, int) {
        (self.cursor.line_spec(), self.cursor.character_spec())
    }

    pub closed spec fn cursor_ok(&self) -> bool {
        self.cursor.well_formed() && self.cursor.primed()
    }

    pub open spec fn kinds(&self) -> Seq<Coll> {
        kinds_of(self.frames())
    }

    /// Shrinks with every event.
    pub open spec fn measure(&self) -> nat {
        2 * self.input().len() + if self.run_state() == RunState::Finished {
            0nat
        } else {
            1nat
        }
    }

    pub open spec fn well_formed(&self) -> bool {
        &&& self.cursor_ok()
        &&& (self.run_state() == RunState::Start || self.run_state() == RunState::BeforeFinish
            ==> self.frames().len() == 0)
        &&& (self.run_state() == RunState::Running ==> self.frames().len() > 0)
    }

    /// A reader at the start of `source`.
    pub fn new(source: &'a String) -> (r: Reader<'a>)
        requires
            source@.len() + 2 <= i64::MAX,
        ensures
            r.well_formed(),
            r.input() == source@,
            r.run_state() == RunState::Start,
            r.frames().len() == 0,
    {
        let mut cursor = Parser::new(source);
        assert(cursor.ahead() =~= source@);
        cursor.next_character();
        Reader { cursor, state: RunState::Start, stack: Vec::new() }
    }

    /// The event for an error of kind `kind` at the cursor.
    fn error(&self, kind: ErrorKind) -> (r: Event)
        requires
            self.cursor_ok(),
        ensures
            r == Event::Error(
                ParseError {
                    kind,
                    line: self.position().0 as i64,
                    column: self.position().1 as i64,
                },
            ),
            r->Error_0.line as int == self.position().0,
            r->Error_0.column as int == self.position().1,
    {
        error_at(self.cursor.line(), self.cursor.character(), kind)
    }

    /// After a complete element: the top level is done, or the innermost
    /// collection goes on.
    fn settle(&mut self)
        ensures
            final(self).input() == old(self).input(),
            final(self).frames() == old(self).frames(),
            final(self).position() == old(self).position(),
            final(self).cursor_ok() == old(self).cursor_ok(),
            final(self).run_state() == if old(self).frames().len() == 0 {
                RunState::BeforeFinish
            } else {
                RunState::Running
            },
    {
        if self.stack.len() == 0 {
            self.state = RunState::BeforeFinish;
        } else {
            self.state = RunState::Running;
        }
    }

    /// Reads the element that starts at the cursor, whose character is `c`.
    fn element(&mut self, c: char) -> (r: Event)
        requires
            old(self).cursor_ok(),
            old(self).input().len() > 0,
            old(self).input()[0] == c,
            !is_ws(c),
        ensures
            final(self).cursor_ok(),
            r@ == element_event(old(self).input()),
            final(self).input().len() <= old(self).input().len(),
            !(r is Error) ==> final(self).input().len() < old(self).input().len(),
            !(r is End),
            r is Start ==> final(self).frames() == old(self).frames().push(
                Frame { kind: r->Start_0, after_element: false, key_open: false },
            ) && final(self).run_state() == RunState::Running,
            r is Error ==> final(self).frames() == old(self).frames() && final(self).run_state()
                == RunState::Finished && r->Error_0.line as int == final(self).position().0
                && r->Error_0.column as int == final(self).position().1,
            is_scalar(r@) ==> final(self).frames() == old(self).frames() && final(self).run_state()
                == if old(self).frames().len() == 0 {
                RunState::BeforeFinish
            } else {
                RunState::Running
            },
            !(r is Error) ==> final(self).input() == element_rest(old(self).input()),
    {
        let ghost b = self.input();
        if c == '(' || c == '[' || c == '{' {
            let kind = if c == '(' {
                Coll::List
            } else if c == '[' {
                Coll::Vector
            } else {
                Coll::Dict
            };
            self.cursor.next_character();
            self.stack.push(Frame { kind, after_element: false, key_open: false });
            self.state = RunState::Running;
            Event::Start(kind)
        } else if c == '#' {
            self.cursor.next_character();
            let brace = match self.cursor.current() {
                Some(d) => d == '{',
                None => false,
            };
            if brace {
                assert(b[1] == '{');
                self.cursor.next_character();
                self.stack.push(
                    Frame { kind: Coll::Distinct, after_element: false, key_open: false },
                );
                self.state = RunState::Running;
                Event::Start(Coll::Distinct)
            } else {
                self.state = RunState::Finished;
                self.error(ErrorKind::InvalidSyntax)
            }
        } else if c == '"' {
            match read_string(&mut self.cursor) {
                Ok(t) => {
                    self.settle();
                    Event::Str(t)
                },
                Err(k) => {
                    self.state = RunState::Finished;
                    self.error(k)
                },
            }
        } else if c == '\\' {
            let e = read_char(&mut self.cursor);
            if let Event::Error(_) = e {
                self.state = RunState::Finished;
            } else {
                self.settle();
            }
            e
        } else if c == ')' || c == ']' || c == '}' {
            self.state = RunState::Finished;
            self.error(ErrorKind::InvalidSyntax)
        } else {
            proof {
                crate::cursor::lemma_run_len_bound(b, |ch: char| atom_char(ch));
                assert(atom_char(b[0]));
            }
            let w = read_atom(&mut self.cursor);
            let e = atom_event(&w, self.cursor.line(), self.cursor.character());
            if let Event::Error(_) = e {
                self.state = RunState::Finished;
            } else {
                self.settle();
            }
            e
        }
    }

    /// Pulls the next event: `None` once the parse has ended. An error is
    /// the last event.
    pub fn next_event(&mut self) -> (r: Option<Event>)
        requires
            old(self).well_formed(),
        ensures
            final(self).well_formed(),
            opt_ev(r) == step_event(old(self).run_state(), old(self).frames(), old(self).input()),
            old(self).run_state() == RunState::Finished ==> r is None
                && final(self).input() == old(self).input()
                && final(self).frames() == old(self).frames(),
            old(self).run_state() != RunState::Finished
                ==> final(self).measure() < old(self).measure(),
            r is None ==> final(self).run_state() == RunState::Finished
                && final(self).frames() == old(self).frames(),
            r matches Some(Event::Error(e)) ==> final(self).run_state() == RunState::Finished
                && final(self).kinds() == old(self).kinds()
                && e.line as int == final(self).position().0
                && e.column as int == final(self).position().1,
            r matches Some(Event::Start(k)) ==> final(self).run_state() == RunState::Running
                && final(self).frames() == bump_top(old(self).frames()).push(
                Frame { kind: k, after_element: false, key_open: false },
            ),
            r matches Some(Event::End(k)) ==> old(self).frames().len() > 0
                && old(self).frames().last().kind == k
                && final(self).frames() == old(self).frames().drop_last()
                && final(self).run_state() == settled(final(self).frames()),
            r is Some && is_scalar(r->0@) ==> final(self).frames() == bump_top(old(self).frames())
                && final(self).run_state() == settled(final(self).frames()),
            ({
                let b = old(self).input().skip(ws_len(old(self).input()) as int);
                &&& (r is Some && !(r->0 is Error) && !(r->0 is End) ==> final(self).input()
                    == element_rest(b))
                &&& (r matches Some(Event::End(_)) ==> final(self).input() == b.drop_first())
                &&& (old(self).run_state() != RunState::Finished && r is None
                    ==> final(self).input() == b)
            }),
    {
        let ghost a = self.input();
        match self.state {
            RunState::Finished => None,
            RunState::BeforeFinish => {
                proof {
                    crate::cursor::lemma_run_len_bound(a, |ch: char| is_ws(ch));
                }
                self.cursor.parse_whitespace();
                self.state = RunState::Finished;
                match self.cursor.current() {
                    None => None,
                    Some(_) => Some(self.error(ErrorKind::TrailingCharacters)),
                }
            },
            RunState::Start => {
                self.cursor.parse_whitespace();
                match self.cursor.current() {
                    None => {
                        self.state = RunState::Finished;
                        Some(self.error(ErrorKind::EofWhileParsingValue))
                    },
                    Some(c) => {
                        proof {
                            crate::cursor::lemma_run_len_bound(a, |ch: char| is_ws(ch));
                        }
                        Some(self.element(c))
                    },
                }
            },
            RunState::Running => {
                let n = self.stack.len();
                let top = self.stack[n - 1];
                let ws = self.cursor.parse_whitespace();
                proof {
                    crate::cursor::lemma_run_len_bound(a, |ch: char| is_ws(ch));
                }
                match self.cursor.current() {
                    None => {
                        self.state = RunState::Finished;
                        Some(self.error(ErrorKind::EofWhileParsingCollection(top.kind)))
                    },
                    Some(c) => {
                        if c == ')' || c == ']' || c == '}' {
                            let closer = match top.kind {
                                Coll::List => ')',
                                Coll::Vector => ']',
                                Coll::Dict => '}',
                                Coll::Distinct => '}',
                            };
                            if c == closer {
                                let dangling = match top.kind {
                                    Coll::Dict => top.key_open,
                                    _ => false,
                                };
                                if dangling {
                                    self.state = RunState::Finished;
                                    Some(self.error(ErrorKind::MissingMapValue))
                                } else {
                                    self.stack.pop();
                                    self.cursor.next_character();
                                    self.settle();
                                    Some(Event::End(top.kind))
                                }
                            } else {
                                self.state = RunState::Finished;
                                Some(self.error(ErrorKind::InvalidSyntax))
                            }
                        } else if top.after_element && ws.is_none() {
                            self.state = RunState::Finished;
                            Some(self.error(ErrorKind::ExpectedSeparator))
                        } else {
                            let key_open = match top.kind {
                                Coll::Dict => !top.key_open,
                                _ => false,
                            };
                            self.stack.set(
                                n - 1,
                                Frame { kind: top.kind, after_element: true, key_open },
                            );
                            proof {
                                assert(self.stack@ =~= bump_top(old(self).frames()));
                            }
                            Some(self.element(c))
                        }
                    },
                }
            },
        }
    }
}

/// The run state after a complete element, given the open collections.
pub open spec fn settled(fs: Seq<Frame>) -> RunState {
    if fs.len() == 0 {
        RunState::BeforeFinish
    } else {
        RunState::Running
    }
}

/// The run state after the event `e` in state `st` with frames `fs`.
pub open spec fn next_state(st: RunState, fs: Seq<Frame>, e: Ev) -> RunState {
    match e {
        Ev::Error(_) => RunState::Finished,
        Ev::Start(_) => RunState::Running,
        Ev::End(_) => settled(fs.drop_last()),
        _ => settled(bump_top(fs)),
    }
}

/// The frames after the event `e` (not an error) with frames `fs`.
pub open spec fn next_frames(fs: Seq<Frame>, e: Ev) -> Seq<Frame> {
    match e {
        Ev::Start(k) => bump_top(fs).push(Frame { kind: k, after_element: false, key_open: false }),
        Ev::End(_) => fs.drop_last(),
        _ => bump_top(fs),
    }
}

/// The input after the event `e` (not an error) at input `a`.
pub open spec fn next_input(a: Seq<char>, e: Ev) -> Seq<char> {
    let b = a.skip(ws_len(a) as int);
    match e {
        Ev::End(_) => b.drop_first(),
        _ => element_rest(b),
    }
}

/// The events that a reader in state `st`, with frames `fs` and input `a`,
/// gives in at most `fuel` pulls.
pub open spec fn events_from(st: RunState, fs: Seq<Frame>, a: Seq<char>, fuel: nat) -> Seq<Ev>
    decreases fuel,
{
    if fuel == 0 {
        Seq::empty()
    } else {
        match step_event(st, fs, a) {
            None => Seq::empty(),
            Some(e) => if e is Error {
                seq![e]
            } else {
                seq![e] + events_from(
                    next_state(st, fs, e),
                    next_frames(fs, e),
                    next_input(a, e),
                    (fuel - 1) as nat,
                )
            },
        }
    }
}

/// The event views of an optional event.
pub open spec fn opt_ev(e: Option<Event>) -> Option<Ev> {
    match e {
        Some(x) => Some(x@),
        None => None,
    }
}

/// The collections left open after the events `es`, innermost last, or
/// `None` if an end does not close the innermost open collection.
pub open spec fn open_after(es: Seq<Ev>) -> Option<Seq<Coll>>
    decreases es.len(),
{
    if es.len() == 0 {
        Some(Seq::empty())
    } else {
        match open_after(es.drop_last()) {
            None => None,
            Some(st) => match es.last() {
                Ev::Start(k) => Some(st.push(k)),
                Ev::End(k) => if st.len() > 0 && st.last() == k {
                    Some(st.drop_last())
                } else {
                    None
                },
                _ => Some(st),
            },
        }
    }
}

/// The views of a sequence of events.
pub open spec fn views(es: Seq<Event>) -> Seq<Ev> {
    es.map_values(|e: Event| e@)
}

/// Every prefix of `es` of length 1 to `n` leaves a collection open.
pub open spec fn nested_through(es: Seq<Ev>, n: int) -> bool {
    forall|i: int|
        1 <= i <= n ==> #[trigger] open_after(es.take(i)) is Some && open_after(
            es.take(i),
        )->0.len() > 0
}

/// Once the top-level value is complete, at most an error follows.
pub open spec fn single_value(es: Seq<Ev>) -> bool {
    forall|i: int|
        0 < i < es.len() && #[trigger] open_after(es.take(i)) == Some(Seq::<Coll>::empty()) ==> i
            == es.len() - 1 && es[i] is Error
}

/// No error but the last event.
pub open spec fn errors_last(es: Seq<Ev>) -> bool {
    forall|i: int| 0 <= i < es.len() - 1 ==> !(#[trigger] es[i] is Error)
}

pub open spec fn all_ws(s: Seq<char>) -> bool {
    forall|i: int| 0 <= i < s.len() ==> is_ws(#[trigger] s[i])
}

/// `s` is the keyword `kw` followed by nothing but whitespace.
pub open spec fn lone(s: Seq<char>, kw: Seq<char>) -> bool {
    s.len() >= kw.len() && s.take(kw.len() as int) == kw && all_ws(s.skip(kw.len() as int))
}

/// The event of a text that is one keyword alone, if it is one.
pub open spec fn lone_keyword(s: Seq<char>) -> Option<Ev> {
    if lone(s, nil_text()) {
        Some(Ev::Nil)
    } else if lone(s, true_text()) {
        Some(Ev::Boolean(true))
    } else if lone(s, false_text()) {
        Some(Ev::Boolean(false))
    } else {
        None
    }
}

proof fn lemma_all_ws(t: Seq<char>)
    requires
        all_ws(t),
    ensures
        ws_len(t) == t.len(),
        t.skip(ws_len(t) as int).len() == 0,
{
    assert forall|i: int| 0 <= i < t.len() implies (|c: char| is_ws(c))(#[trigger] t[i]) by {}
    crate::cursor::lemma_run_len_exact(t, |c: char| is_ws(c), t.len());
}

proof fn lemma_lone_keyword(s: Seq<char>, kw: Seq<char>)
    requires
        lone(s, kw),
        kw == nil_text() || kw == true_text() || kw == false_text(),
    ensures
        ws_len(s) == 0,
        s.skip(0) == s,
        atom_start(s[0]),
        atom_len(s) == kw.len(),
        s.take(kw.len() as int) == kw,
        all_ws(s.skip(kw.len() as int)),
        step_event(RunState::Start, Seq::empty(), s) == Some(atom_value(kw)),
        atom_value(kw) == lone_keyword(s)->0,
        is_scalar(atom_value(kw)),
{
    let n = kw.len();
    assert(s[0] == kw[0]);
    assert(s.skip(0) =~= s);
    crate::cursor::lemma_run_len_exact(s, |c: char| is_ws(c), 0);
    assert forall|i: int| 0 <= i < n implies (|c: char| atom_char(c))(#[trigger] s[i]) by {
        assert(s[i] == s.take(n as int)[i]);
    }
    if n < s.len() {
        assert(s[n as int] == s.skip(n as int)[0]);
    }
    crate::cursor::lemma_run_len_exact(s, |c: char| atom_char(c), n);
    if kw == true_text() {
        assert(!lone(s, nil_text())) by {
            if s.len() >= 3 {
                assert(s.take(3)[0] != nil_text()[0]);
            }
        }
    }
    if kw == false_text() {
        assert(!lone(s, nil_text())) by {
            if s.len() >= 3 {
                assert(s.take(3)[0] != nil_text()[0]);
            }
        }
        assert(!lone(s, true_text())) by {
            if s.len() >= 4 {
                assert(s.take(4)[0] != true_text()[0]);
            }
        }
    }
    assert(kw != nil_text() ==> kw.len() != 3 || kw[0] != 'n');
    assert(kw != true_text() ==> kw.len() != 4 || kw[0] != 't');
}

proof fn lemma_take_push(es: Seq<Ev>, e: Ev)
    ensures
        forall|i: int| 0 <= i <= es.len() ==> #[trigger] es.push(e).take(i) == es.take(i),
        es.push(e).take(es.len() + 1 as int) == es.push(e),
        es.push(e).drop_last() == es,
        es.take(es.len() as int) == es,
{
    assert forall|i: int| 0 <= i <= es.len() implies #[trigger] es.push(e).take(i) == es.take(
        i,
    ) by {
        assert(es.push(e).take(i) =~= es.take(i));
    }
    assert(es.push(e).take(es.len() + 1 as int) =~= es.push(e));
    assert(es.push(e).drop_last() =~= es);
    assert(es.take(es.len() as int) =~= es);
}

/// Reading the text of a symbol again gives the same symbol: when an
/// element reads as the symbol `s`, an input that is just `s` reads as `s`
/// too.
pub proof fn lemma_symbol_event_rescan(b: Seq<char>, s: Seq<char>)
    requires
        b.len() > 0,
        element_event(b) == Ev::Symbol(s),
    ensures
        step_event(RunState::Start, Seq::empty(), s) == Some(Ev::Symbol(s)),
        element_event(s) == Ev::Symbol(s),
{
    let n = atom_len(b);
    crate::cursor::lemma_run_len_bound(b, |c: char| atom_char(c));
    let w = b.take(n as int);
    assert(s == w);
    assert(s.len() > 0);
    assert(s[0] == b[0]);
    assert forall|i: int| 0 <= i < s.len() implies (|c: char| atom_char(c))(#[trigger] s[i]) by {
        assert(s[i] == b[i]);
    }
    crate::cursor::lemma_run_len_exact(s, |c: char| atom_char(c), s.len());
    assert(s.take(s.len() as int) =~= s);
    crate::cursor::lemma_run_len_exact(s, |c: char| is_ws(c), 0);
    assert(s.skip(0) =~= s);
}

/// Reads the whole event stream of `source`.
///
/// The stream brackets correctly: every end closes the innermost open
/// collection of its kind. It never stops silently inside a collection:
/// either every collection is closed or the last event is an error, and an
/// error is always the last event. Once the top-level value is complete,
/// only an error for trailing characters may follow. A text that is one of
/// `nil`, `true` or `false` followed by nothing but whitespace gives that
/// one event. The first event is the one a fresh reader gives first.
pub fn parse_all(source: &String) -> (r: Vec<Event>)
    requires
        source@.len() + 2 <= i64::MAX,
    ensures
        open_after(views(r@)) is Some,
        views(r@).len() > 0,
        views(r@).last() is Error || open_after(views(r@)) == Some(Seq::<Coll>::empty()),
        errors_last(views(r@)),
        single_value(views(r@)),
        is_scalar(views(r@)[0]) ==> views(r@).len() == 1 || (views(r@).len() == 2 && views(
            r@,
        )[1] == Ev::Error(ErrorKind::TrailingCharacters)),
        lone_keyword(source@) is Some ==> views(r@) == seq![lone_keyword(source@)->0],
        Some(views(r@)[0]) == step_event(RunState::Start, Seq::empty(), source@),
        views(r@) == events_from(
            RunState::Start,
            Seq::empty(),
            source@,
            2 * source@.len() + 1,
        ),
{
    let mut reader = Reader::new(source);
    let mut events: Vec<Event> = Vec::new();
    let ghost lone_kw = lone_keyword(source@);
    let ghost kw: Seq<char> = if lone(source@, nil_text()) {
        nil_text()
    } else if lone(source@, true_text()) {
        true_text()
    } else {
        false_text()
    };
    assert(views(events@) =~= Seq::<Ev>::empty());
    let ghost mut fuel: nat = 2 * source@.len() + 1;
    let ghost total = events_from(RunState::Start, Seq::empty(), source@, fuel);
    assert(views(events@) + total =~= total);
    assert(reader.frames() =~= Seq::<Frame>::empty());
    loop
        invariant
            reader.measure() <= fuel,
            total == events_from(RunState::Start, Seq::empty(), source@, 2 * source@.len() + 1),
            views(events@) + events_from(
                reader.run_state(),
                reader.frames(),
                reader.input(),
                fuel,
            ) == total,
            reader.well_formed(),
            open_after(views(events@)) == Some(reader.kinds()),
            errors_last(views(events@)),
            reader.run_state() != RunState::Finished ==> forall|i: int|
                0 <= i < views(events@).len() ==> !(#[trigger] views(events@)[i] is Error),
            reader.run_state() == RunState::Start ==> views(events@).len() == 0 && reader.input()
                == source@,
            views(events@).len() > 0 ==> Some(views(events@)[0]) == step_event(
                RunState::Start,
                Seq::empty(),
                source@,
            ),
            reader.run_state() == RunState::Running ==> views(events@).len() > 0 && nested_through(
                views(events@),
                views(events@).len() as int,
            ),
            reader.run_state() == RunState::BeforeFinish ==> views(events@).len() > 0
                && nested_through(views(events@), views(events@).len() - 1),
            reader.run_state() == RunState::Finished ==> views(events@).len() > 0 && (views(
                events@,
            ).last() is Error || open_after(views(events@)) == Some(Seq::<Coll>::empty())),
            reader.run_state() != RunState::Start ==> single_value(views(events@)),
            views(events@).len() > 0 && is_scalar(views(events@)[0]) ==> (reader.run_state()
                == RunState::BeforeFinish && views(events@).len() == 1) || (reader.run_state()
                == RunState::Finished && (views(events@).len() == 1 || (views(events@).len() == 2
                && views(events@)[1] == Ev::Error(ErrorKind::TrailingCharacters)))),
            lone_kw == lone_keyword(source@),
            lone_kw is Some ==> lone(source@, kw) && lone_kw->0 == atom_value(kw) && (kw
                == nil_text() || kw == true_text() || kw == false_text()),
            reader.run_state() == RunState::Finished ==> lone_kw is Some ==> views(events@)
                == seq![lone_kw->0],
            lone_kw is Some ==> (reader.run_state() == RunState::Start && reader.input()
                == source@) || (reader.run_state() == RunState::BeforeFinish && all_ws(
                reader.input(),
            ) && views(events@) == seq![lone_kw->0]) || (reader.run_state()
                == RunState::Finished && views(events@) == seq![lone_kw->0]),
        ensures
            reader.run_state() == RunState::Finished,
            views(events@) == total,
        decreases reader.measure(),
    {
        let ghost es = views(events@);
        let ghost before = reader;
        let ghost rest = events_from(reader.run_state(), reader.frames(), reader.input(), fuel);
        proof {
            if lone_kw is Some {
                if reader.run_state() == RunState::Start {
                    lemma_lone_keyword(source@, kw);
                }
                if reader.run_state() == RunState::BeforeFinish {
                    lemma_all_ws(reader.input());
                }
            }
        }
        match reader.next_event() {
            None => {
                proof {
                    assert(rest =~= Seq::<Ev>::empty());
                    assert(es + rest =~= es);
                    assert(events_from(reader.run_state(), reader.frames(), reader.input(), fuel)
                        =~= Seq::<Ev>::empty());
                }
                break;
            },
            Some(e) => {
                proof {
                    let e2 = e@;
                    lemma_take_push(es, e2);
                    assert(views(events@.push(e)) =~= es.push(e2));
                    lemma_kinds_keep(before.frames());
                    if before.run_state() == RunState::Start {
                        assert(before.frames() =~= Seq::<Frame>::empty());
                    }
                    if let Event::Start(k) = e {
                        lemma_kinds(bump_top(before.frames()), Frame { kind: k, after_element: false, key_open: false });
                    }
                    if lone_kw is Some && before.run_state() == RunState::Start {
                        let b = source@.skip(ws_len(source@) as int);
                        assert(b == source@);
                        assert(reader.input() == source@.skip(kw.len() as int));
                    }
                }
                events.push(e);
                proof {
                    let es2 = views(events@);
                    let e2 = e@;
                    let f2 = (fuel - 1) as nat;
                    if e2 is Error {
                        assert(rest == seq![e2]);
                        assert(events_from(reader.run_state(), reader.frames(), reader.input(), f2)
                            =~= Seq::<Ev>::empty());
                    } else {
                        assert(reader.run_state() == next_state(before.run_state(), before.frames(), e2));
                        assert(reader.frames() == next_frames(before.frames(), e2));
                        assert(reader.input() == next_input(before.input(), e2));
                    }
                    assert(es2 + events_from(reader.run_state(), reader.frames(), reader.input(), f2)
                        =~= total) by {
                        assert(es2 =~= es + seq![e2]);
                    }
                    fuel = f2;
                    assert(es2 == es.push(e@));
                    assert forall|i: int| 1 <= i <= es.len() implies #[trigger] es2.take(i) == es.take(i) by {}
                    if reader.run_state() == RunState::Running || reader.run_state() == RunState::BeforeFinish {
                        assert forall|i: int| 1 <= i <= es2.len() - 1 implies #[trigger] open_after(es2.take(i)) is Some && open_after(es2.take(i))->0.len() > 0 by {
                            assert(es2.take(i) == es.take(i));
                        }
                    }
                    assert forall|i: int| 0 < i < es2.len() && #[trigger] open_after(es2.take(i)) == Some(Seq::<Coll>::empty()) implies i == es2.len() - 1 && es2[i] is Error by {
                        assert(es2.take(i) == es.take(i));
                        if before.run_state() == RunState::BeforeFinish && i == es.len() {
                            assert(es.take(i) == es);
                        }
                    }
                    assert forall|i: int| 0 <= i < es2.len() - 1 implies !(#[trigger] es2[i] is Error) by {
                        assert(es2[i] == es[i]);
                    }
                    if es.len() > 0 {
                        assert(es2[0] == es[0]);
                    }
                }
            },
        }
    }
    events
}

} // verus!
