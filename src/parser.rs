use vstd::prelude::*;
use crate::frames::{
    frames_wf, lemma_frames_count_prefixes, lemma_path_stable, path, prefixes, resolve_post,
    stacks_of, FrameTree, StackFrame,
};
use crate::interner::{intern_post, Atom, Interner};
use crate::lexer::{chars_of, field, has_field, rest_text, split_fields};
use crate::numbers::{ids_of, parse_ids, parse_timestamp, timestamp_of};

verus! {

/// Why a line was refused; any of these ends a conversion.
#[derive(Clone, Copy, Debug, PartialEq, Eq, Structural)]
pub enum ParseError {
    /// Fewer than four whitespace-delimited tokens.
    MissingField,
    /// The `pid/tid` token or the timestamp token is not a number.
    InvalidNumber,
    /// An event kind outside the known set.
    UnknownKind,
    /// An event kind of no characters.
    EmptyKind,
    /// A `return` while no call is open.
    UnmatchedReturn,
}

/// The event kinds that a line may carry, but for the trace marker `tr`.
#[derive(Clone, Copy, Debug, PartialEq, Eq, Structural)]
pub enum Kind {
    Call,
    Return,
    Syscall,
    /// `int` and `iret`: noted on the clock, not emitted.
    Interrupt,
}

pub open spec fn kind_of(t: Seq<char>) -> Result<Kind, ParseError> {
    if t == seq!['c', 'a', 'l', 'l'] {
        Ok(Kind::Call)
    } else if t == seq!['r', 'e', 't', 'u', 'r', 'n'] {
        Ok(Kind::Return)
    } else if t == syscall_name() {
        Ok(Kind::Syscall)
    } else if t == seq!['i', 'n', 't'] || t == seq!['i', 'r', 'e', 't'] {
        Ok(Kind::Interrupt)
    } else if t.len() == 0 {
        Err(ParseError::EmptyKind)
    } else {
        Err(ParseError::UnknownKind)
    }
}

/// The name under which system calls are recorded.
pub open spec fn syscall_name() -> Seq<char> {
    seq!['s', 'y', 's', 'c', 'a', 'l', 'l']
}

/// What a line says once its fields are read.
#[derive(Clone, Copy, Debug, PartialEq, Eq, Structural)]
pub struct LineRecord {
    pub pid: u32,
    pub tid: u32,
    pub stamp: u64,
    pub kind: Kind,
}

/// How a line is judged when `depth` calls are open: refused, skipped (the
/// trace marker `tr`, looked at before any number), or read.
pub open spec fn check_line(l: Seq<char>, depth: nat) -> Result<Option<LineRecord>, ParseError> {
    if !has_field(l, 3) {
        Err(ParseError::MissingField)
    } else if field(l, 3) == seq!['t', 'r'] {
        Ok(None)
    } else {
        match (ids_of(field(l, 1)), timestamp_of(field(l, 2))) {
            (Some(ids), Some(stamp)) => match kind_of(field(l, 3)) {
                Ok(kind) => if kind == Kind::Return && depth == 0 {
                    Err(ParseError::UnmatchedReturn)
                } else {
                    Ok(Some(LineRecord { pid: ids.0, tid: ids.1, stamp, kind }))
                },
                Err(e) => Err(e),
            },
            _ => Err(ParseError::InvalidNumber),
        }
    }
}

#[derive(Clone, Copy, Debug, PartialEq, Eq, Structural)]
#[allow(inconsistent_fields)]
pub enum EventKind {
    /// A call opens: the function and the frame of the stack it tops.
    Begin { name: Atom, sf: usize },
    /// A call closes: the frame of the stack it topped.
    End { sf: usize },
    /// A system call, of no duration, made from the frame `sf` (none at the
    /// top level).
    Complete { name: Atom, sf: Option<usize> },
}

/// One trace event; `ts` counts nanoseconds since the first timestamp read.
#[derive(Clone, Copy, Debug, PartialEq, Eq, Structural)]
pub struct Event {
    pub kind: EventKind,
    pub pid: u32,
    pub tid: u32,
    pub ts: u64,
}

/// The state of a conversion: open calls, interned names, frames met, the
/// first timestamp and the latest one after clamping.
pub struct TraceState {
    pub stack: Seq<Atom>,
    pub names: Seq<Seq<char>>,
    pub frames: Seq<StackFrame>,
    pub start: Option<u64>,
    pub last: u64,
}

/// What reading line `l` does to the state, and what it returns.
pub open spec fn line_post(
    before: TraceState,
    after: TraceState,
    l: Seq<char>,
    r: Result<Option<Event>, ParseError>,
) -> bool {
    match check_line(l, before.stack.len()) {
        Err(e) => r == Err::<Option<Event>, ParseError>(e) && after == before,
        Ok(None) => r == Ok::<Option<Event>, ParseError>(None) && after == before,
        Ok(Some(rec)) => {
            let start = match before.start {
                Some(s) => s,
                None => rec.stamp,
            };
            let now = if rec.stamp >= before.last {
                rec.stamp
            } else {
                before.last
            };
            &&& after.start == Some(start)
            &&& after.last == now
            &&& match rec.kind {
                Kind::Interrupt => {
                    &&& r == Ok::<Option<Event>, ParseError>(None)
                    &&& after.stack == before.stack
                    &&& after.names == before.names
                    &&& after.frames == before.frames
                },
                _ => {
                    &&& r matches Ok(Some(ev))
                    &&& ev.pid == rec.pid
                    &&& ev.tid == rec.tid
                    &&& ev.ts == now - start
                    &&& match rec.kind {
                        Kind::Call => {
                            &&& ev.kind matches EventKind::Begin { name, sf }
                            &&& intern_post(before.names, after.names, rest_text(l), name)
                            &&& after.stack == before.stack.push(name)
                            &&& resolve_post(
                                before.frames,
                                after.frames,
                                after.stack,
                                after.stack.len() as int,
                                Some(sf),
                            )
                        },
                        Kind::Return => {
                            &&& ev.kind matches EventKind::End { sf }
                            &&& after.names == before.names
                            &&& after.stack == before.stack.drop_last()
                            &&& resolve_post(
                                before.frames,
                                after.frames,
                                before.stack,
                                before.stack.len() as int,
                                Some(sf),
                            )
                        },
                        _ => {
                            &&& ev.kind matches EventKind::Complete { name, sf }
                            &&& intern_post(before.names, after.names, syscall_name(), name)
                            &&& after.stack == before.stack
                            &&& resolve_post(
                                before.frames,
                                after.frames,
                                before.stack,
                                before.stack.len() as int,
                                sf,
                            )
                        },
                    }
                },
            }
        },
    }
}

fn word_eq(s: &[char], a: usize, b: usize, w: &[char]) -> (r: bool)
    requires
        a <= b <= s@.len(),
    ensures
        r == (s@.subrange(a as int, b as int) == w@),
{
    if b - a != w.len() {
        return false;
    }
    let mut i: usize = 0;
    while i < w.len()
        invariant
            a <= b <= s@.len(),
            b - a == w@.len(),
            i <= w@.len(),
            forall|j: int| 0 <= j < i ==> s@[a + j] == w@[j],
        decreases w@.len() - i,
    {
        if s[a + i] != w[i] {
            assert(s@.subrange(a as int, b as int)[i as int] != w@[i as int]);
            return false;
        }
        i = i + 1;
    }
    assert(s@.subrange(a as int, b as int) =~= w@);
    true
}

fn classify(s: &[char], a: usize, b: usize) -> (r: Result<Kind, ParseError>)
    requires
        a <= b <= s@.len(),
    ensures
        r == kind_of(s@.subrange(a as int, b as int)),
{
    let call: [char; 4] = ['c', 'a', 'l', 'l'];
    let ret: [char; 6] = ['r', 'e', 't', 'u', 'r', 'n'];
    let sys: [char; 7] = ['s', 'y', 's', 'c', 'a', 'l', 'l'];
    let intr: [char; 3] = ['i', 'n', 't'];
    let iret: [char; 4] = ['i', 'r', 'e', 't'];
    if word_eq(s, a, b, &call) {
        Ok(Kind::Call)
    } else if word_eq(s, a, b, &ret) {
        Ok(Kind::Return)
    } else if word_eq(s, a, b, &sys) {
        Ok(Kind::Syscall)
    } else if word_eq(s, a, b, &intr) || word_eq(s, a, b, &iret) {
        Ok(Kind::Interrupt)
    } else if a == b {
        Err(ParseError::EmptyKind)
    } else {
        Err(ParseError::UnknownKind)
    }
}

/// Turns trace lines into events, keeping the open calls, the interned
/// function names, the frame table and the clock.
pub struct Parser {
    callstack: Vec<Atom>,
    start_time: Option<u64>,
    last_time: u64,
    interner: Interner,
    tree: FrameTree,
    events: Vec<Event>,
}

impl View for Parser {
    type V = TraceState;

    closed spec fn view(&self) -> TraceState {
        TraceState {
            stack: self.callstack@,
            names: self.interner@,
            frames: self.tree@,
            start: self.start_time,
            last: self.last_time,
        }
    }
}

/// Whether each function name that `ev` carries lies in a table of `n` names.
pub open spec fn event_names_below(ev: Event, n: nat) -> bool {
    match ev.kind {
        EventKind::Begin { name, .. } => name.index() < n,
        EventKind::Complete { name, .. } => name.index() < n,
        EventKind::End { .. } => true,
    }
}

impl Parser {
    /// The events kept so far by `feed_line`.
    pub closed spec fn spec_events(&self) -> Seq<Event> {
        self.events@
    }

    /// The tables are sound; before the first timestamp the clock is at zero
    /// and nothing was kept; after it, the clock never stands before it, and
    /// the kept events are in time order and no later than the clock.
    pub closed spec fn wf(&self) -> bool {
        &&& self.interner.wf()
        &&& self.tree.wf()
        &&& frames_wf(self.tree@)
        &&& forall|i: int|
            0 <= i < self.callstack@.len() ==> #[trigger] self.callstack@[i].index()
                < self.interner@.len()
        &&& forall|i: int|
            0 <= i < self.tree@.len() ==> #[trigger] self.tree@[i].name.index()
                < self.interner@.len()
        &&& forall|i: int|
            0 <= i < self.events@.len() ==> event_names_below(
                #[trigger] self.events@[i],
                self.interner@.len(),
            )
        &&& self.start_time is None ==> self.last_time == 0 && self.events@.len() == 0
        &&& self.start_time matches Some(s) ==> {
            &&& s <= self.last_time
            &&& forall|i: int|
                0 <= i < self.events@.len() ==> #[trigger] self.events@[i].ts <= self.last_time
                    - s
        }
        &&& forall|i: int, j: int|
            0 <= i <= j < self.events@.len() ==> #[trigger] self.events@[i].ts
                <= #[trigger] self.events@[j].ts
    }

    pub fn new() -> (r: Parser)
        ensures
            r.wf(),
            r@.stack.len() == 0,
            r@.names.len() == 0,
            r@.frames.len() == 0,
            r@.start is None,
            r@.last == 0,
            frames_wf(r@.frames),
            r.spec_events().len() == 0,
    {
        Parser {
            callstack: Vec::new(),
            start_time: None,
            last_time: 0,
            interner: Interner::new(),
            tree: FrameTree::new(),
            events: Vec::new(),
        }
    }

    /// Reads one trace line: refuses it, skips it, or turns it into at most
    /// one event, updating the open calls, names, frames and clock.
    pub fn parse_line(&mut self, line: &str) -> (r: Result<Option<Event>, ParseError>)
        requires
            old(self).wf(),
        ensures
            final(self).wf(),
            final(self).spec_events() == old(self).spec_events(),
            line_post(old(self)@, final(self)@, line@, r),
            frames_wf(final(self)@.frames),
    {
        let ghost stack0 = self.callstack@;
        let ghost names0 = self.interner@;
        let ghost frames0 = self.tree@;
        let chars = chars_of(line);
        let s = chars.as_slice();
        let fields = match split_fields(s) {
            Some(f) => f,
            None => {
                return Err(ParseError::MissingField);
            },
        };
        let (ka, kb) = fields.bounds[3];
        let tr: [char; 2] = ['t', 'r'];
        if word_eq(s, ka, kb, &tr) {
            return Ok(None);
        }
        let (ia, ib) = fields.bounds[1];
        let (ta, tb) = fields.bounds[2];
        let ids = parse_ids(s, ia, ib);
        let stamp = parse_timestamp(s, ta, tb);
        let (pid, tid, stamp) = match (ids, stamp) {
            (Some(ids), Some(t)) => (ids.0, ids.1, t),
            _ => {
                return Err(ParseError::InvalidNumber);
            },
        };
        let kind = match classify(s, ka, kb) {
            Ok(k) => k,
            Err(e) => {
                return Err(e);
            },
        };
        if kind == Kind::Return && self.callstack.len() == 0 {
            return Err(ParseError::UnmatchedReturn);
        }
        let start = match self.start_time {
            Some(t0) => t0,
            None => {
                self.start_time = Some(stamp);
                stamp
            },
        };
        let now = if stamp >= self.last_time {
            stamp
        } else {
            self.last_time
        };
        self.last_time = now;
        let ts = now - start;
        let ek = match kind {
            Kind::Call => {
                let (ra, rb) = fields.rest;
                let name = self.interner.intern_chars(vstd::slice::slice_subrange(s, ra, rb));
                self.callstack.push(name);
                let depth = self.callstack.len();
                let sf = self.tree.resolve(self.callstack.as_slice(), depth).unwrap();
                proof {
                    assert forall|i: int| 0 <= i < self.callstack@.len() implies #[trigger] self.callstack@[i].index()
                        < self.interner@.len() by {
                        if i < stack0.len() {
                            assert(self.callstack@[i] == stack0[i]);
                        }
                    }
                    lemma_frame_names(frames0, self.tree@, self.callstack@, names0.len(), self.interner@.len());
                }
                EventKind::Begin { name, sf }
            },
            Kind::Return => {
                let depth = self.callstack.len();
                let sf = self.tree.resolve(self.callstack.as_slice(), depth).unwrap();
                proof {
                    lemma_frame_names(frames0, self.tree@, self.callstack@, names0.len(), self.interner@.len());
                }
                self.callstack.pop();
                EventKind::End { sf }
            },
            Kind::Syscall => {
                let depth = self.callstack.len();
                let sf = self.tree.resolve(self.callstack.as_slice(), depth);
                let name = self.interner.intern_chars(&sys_name());
                proof {
                    lemma_frame_names(frames0, self.tree@, self.callstack@, names0.len(), self.interner@.len());
                }
                EventKind::Complete { name, sf }
            },
            Kind::Interrupt => {
                return Ok(None);
            },
        };
        Ok(Some(Event { kind: ek, pid, tid, ts }))
    }
}

impl Parser {
    /// Reads one trace line as `parse_line` does and keeps the event it
    /// yields, if any.
    pub fn feed_line(&mut self, line: &str) -> (r: Result<Option<Event>, ParseError>)
        requires
            old(self).wf(),
        ensures
            final(self).wf(),
            line_post(old(self)@, final(self)@, line@, r),
            frames_wf(final(self)@.frames),
            r matches Ok(Some(ev)) ==> final(self).spec_events() == old(self).spec_events().push(ev),
            !(r is Ok && r->Ok_0 is Some) ==> final(self).spec_events() == old(self).spec_events(),
    {
        let r = self.parse_line(line);
        if let Ok(Some(ev)) = r {
            self.events.push(ev);
        }
        r
    }

    /// The events kept so far, in the order of their lines.
    pub fn events(&self) -> (r: &Vec<Event>)
        ensures
            r@ == self.spec_events(),
            self.wf() ==> forall|i: int|
                0 <= i < r@.len() ==> event_names_below(#[trigger] r@[i], self@.names.len()),
    {
        &self.events
    }

    /// The frame table: frame `i` has id `i`.
    pub fn frames(&self) -> (r: &Vec<StackFrame>)
        ensures
            r@ == self@.frames,
            self.wf() ==> forall|i: int|
                0 <= i < r@.len() ==> #[trigger] r@[i].name.index() < self@.names.len(),
    {
        self.tree.frames()
    }

    /// The text of a function name handed out by this parser.
    pub fn name(&self, a: Atom) -> (r: Option<&Vec<char>>)
        ensures
            r is Some <==> a.index() < self@.names.len(),
            r matches Some(t) ==> t@ == self@.names[a.index() as int],
    {
        self.interner.text(a)
    }

    /// The number of calls open.
    pub fn depth(&self) -> (r: usize)
        ensures
            r == self@.stack.len(),
    {
        self.callstack.len()
    }
}

/// The kept events are in time order: timestamps never decrease from one
/// event to the next, even where the input's timestamps step back.
pub proof fn lemma_events_in_time_order(p: &Parser)
    requires
        p.wf(),
    ensures
        forall|i: int, j: int|
            0 <= i <= j < p.spec_events().len() ==> #[trigger] p.spec_events()[i].ts
                <= #[trigger] p.spec_events()[j].ts,
{
}

/// A call, then any lines that leave the stack as the call left it (frames
/// are only ever appended), then a return: the stack of open calls is as it
/// was before the call, and the end event names the frame of the begin event.
pub proof fn lemma_call_return_balance(
    s0: TraceState,
    s1: TraceState,
    mid: TraceState,
    s2: TraceState,
    call: Seq<char>,
    ret: Seq<char>,
    r1: Result<Option<Event>, ParseError>,
    r2: Result<Option<Event>, ParseError>,
)
    requires
        line_post(s0, s1, call, r1),
        check_line(call, s0.stack.len()) matches Ok(Some(rec)) && rec.kind == Kind::Call,
        mid.stack == s1.stack,
        s1.frames.len() <= mid.frames.len(),
        mid.frames.subrange(0, s1.frames.len() as int) == s1.frames,
        line_post(mid, s2, ret, r2),
        check_line(ret, mid.stack.len()) matches Ok(Some(rec)) && rec.kind == Kind::Return,
        frames_wf(s2.frames),
    ensures
        s2.stack == s0.stack,
        s2.stack.len() == s0.stack.len(),
        r1 matches Ok(Some(b)) && r2 matches Ok(Some(e)) && b.kind matches EventKind::Begin {
            sf: x,
            ..
        } && e.kind matches EventKind::End { sf: y } && x == y,
{
    assert(s1.stack.drop_last() == s0.stack);
    let b = r1->Ok_0->0;
    let e = r2->Ok_0->0;
    let x = b.kind->Begin_sf;
    let y = e.kind->End_sf;
    let n = s1.stack.len() as int;
    assert(s1.stack.subrange(0, n) == s1.stack);
    lemma_path_stable(s1.frames, mid.frames, x as int);
    assert(path(mid.frames, x as int) == mid.stack.subrange(0, n));
    assert(mid.frames == s2.frames);
    assert(path(s2.frames, y as int) == path(s2.frames, x as int));
}

/// The stack whose prefixes reading line `l` resolved: the stack after a
/// call, the stack before a return or a system call, none otherwise.
pub open spec fn resolved_stack(before: TraceState, after: TraceState, l: Seq<char>) -> Seq<Atom> {
    match check_line(l, before.stack.len()) {
        Ok(Some(rec)) => match rec.kind {
            Kind::Call => after.stack,
            Kind::Interrupt => Seq::empty(),
            _ => before.stack,
        },
        _ => Seq::empty(),
    }
}

/// At the level of the parser, the frame table holds one entry per distinct
/// stack prefix met: after a line it stands for the stacks it stood for
/// before and the non-empty prefixes of the stack the line resolved, one
/// frame for each, and it has not shrunk.
pub proof fn lemma_parser_frames_count(
    before: TraceState,
    after: TraceState,
    l: Seq<char>,
    r: Result<Option<Event>, ParseError>,
)
    requires
        line_post(before, after, l, r),
        frames_wf(after.frames),
    ensures
        stacks_of(after.frames) == stacks_of(before.frames).union(
            prefixes(resolved_stack(before, after, l), resolved_stack(before, after, l).len() as int),
        ),
        stacks_of(after.frames).finite(),
        after.frames.len() == stacks_of(after.frames).len(),
        before.frames.len() <= after.frames.len(),
{
    let st = resolved_stack(before, after, l);
    match check_line(l, before.stack.len()) {
        Ok(Some(rec)) => match rec.kind {
            Kind::Call => {
                let sf = r->Ok_0->0.kind->Begin_sf;
                lemma_frames_count_prefixes(before.frames, after.frames, st, st.len() as int, Some(sf));
            },
            Kind::Return => {
                let sf = r->Ok_0->0.kind->End_sf;
                lemma_frames_count_prefixes(before.frames, after.frames, st, st.len() as int, Some(sf));
            },
            Kind::Syscall => {
                let sf = r->Ok_0->0.kind->Complete_sf;
                lemma_frames_count_prefixes(before.frames, after.frames, st, st.len() as int, sf);
            },
            Kind::Interrupt => {
                assert(after.frames.subrange(0, after.frames.len() as int) == after.frames);
                lemma_frames_count_prefixes(before.frames, after.frames, st, 0, None);
            },
        },
        _ => {
            assert(after.frames.subrange(0, after.frames.len() as int) == after.frames);
            lemma_frames_count_prefixes(before.frames, after.frames, st, 0, None);
        },
    }
}

proof fn lemma_frame_names(
    before: Seq<StackFrame>,
    after: Seq<StackFrame>,
    stack: Seq<Atom>,
    n0: nat,
    n1: nat,
)
    requires
        forall|i: int| 0 <= i < before.len() ==> #[trigger] before[i].name.index() < n0,
        n0 <= n1,
        before.len() <= after.len(),
        after.subrange(0, before.len() as int) == before,
        forall|i: int| before.len() <= i < after.len() ==> stack.contains(#[trigger] after[i].name),
        forall|i: int| 0 <= i < stack.len() ==> #[trigger] stack[i].index() < n1,
    ensures
        forall|i: int| 0 <= i < after.len() ==> #[trigger] after[i].name.index() < n1,
{
    assert forall|i: int| 0 <= i < after.len() implies #[trigger] after[i].name.index() < n1 by {
        if i < before.len() {
            assert(after[i] == after.subrange(0, before.len() as int)[i]);
        } else {
            let j = choose|j: int| 0 <= j < stack.len() && stack[j] == after[i].name;
        }
    }
}

fn sys_name() -> (r: [char; 7])
    ensures
        r@ == syscall_name(),
{
    ['s', 'y', 's', 'c', 'a', 'l', 'l']
}

} // verus!
