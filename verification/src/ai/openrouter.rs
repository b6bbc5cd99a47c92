//! The chat-completions wire types and the streaming side of the client:
//! splitting a byte stream into SSE payloads, and folding the payloads
//! into prose and whole tool calls.
//!
//! The format is one line of `data: {json}` per chunk terminated by a
//! blank line, plus a `data: [DONE]` sentinel. Decoding the JSON of one
//! payload is serde's job and happens before [`StreamAccumulator::push`];
//! everything about lines, sentinels and reassembly happens here.

use vstd::pervasive::VecAdditionalExecFns;
use vstd::prelude::*;
use vstd::string::StringExecFns;

use crate::fmt::{decimal, push_decimal};
use crate::text::{blank, chars_of, is_blank, string_from_chars, trim, trim_of};

verus! {

broadcast use vstd::string::group_string_axioms;

// ---------------------------------------------------------------------
// Wire types
// ---------------------------------------------------------------------

/// One message of a conversation.
pub struct Message {
    pub role: String,
    pub content: Option<String>,
    pub tool_calls: Option<Vec<ToolCall>>,
    /// Set on `role: "tool"` messages to say which call this answers.
    pub tool_call_id: Option<String>,
    pub name: Option<String>,
}

/// A tool call the model asked for.
#[derive(Debug, PartialEq)]
pub struct ToolCall {
    pub id: String,
    pub call_type: String,
    pub function: FunctionCall,
}

#[derive(Debug, PartialEq)]
pub struct FunctionCall {
    pub name: String,
    /// A JSON object, as a string. Models stream this in fragments, so it
    /// is only parsed once the stream for that call has finished.
    pub arguments: String,
}

impl Message {
    /// A plain text message from `role`.
    pub fn text(role: &str, content: String) -> (m: Message)
        ensures
            m.role@ == role@,
            m.content matches Some(c) && c@ == content@,
            m.tool_calls is None,
            m.tool_call_id is None,
            m.name is None,
    {
        Message {
            role: role.to_owned(),
            content: Some(content),
            tool_calls: None,
            tool_call_id: None,
            name: None,
        }
    }

    pub fn system(content: String) -> (m: Message)
        ensures
            m.role@ == "system"@,
            m.content matches Some(c) && c@ == content@,
            m.tool_calls is None,
            m.tool_call_id is None,
            m.name is None,
    {
        Message::text("system", content)
    }

    pub fn user(content: String) -> (m: Message)
        ensures
            m.role@ == "user"@,
            m.content matches Some(c) && c@ == content@,
            m.tool_calls is None,
            m.tool_call_id is None,
            m.name is None,
    {
        Message::text("user", content)
    }

    pub fn assistant(content: String) -> (m: Message)
        ensures
            m.role@ == "assistant"@,
            m.content matches Some(c) && c@ == content@,
            m.tool_calls is None,
            m.tool_call_id is None,
            m.name is None,
    {
        Message::text("assistant", content)
    }

    /// The answer to the tool call `call_id`.
    pub fn tool_result(call_id: &str, name: &str, content: String) -> (m: Message)
        ensures
            m.role@ == "tool"@,
            m.content matches Some(c) && c@ == content@,
            m.tool_calls is None,
            m.tool_call_id matches Some(i) && i@ == call_id@,
            m.name matches Some(n) && n@ == name@,
    {
        Message {
            role: String::from_str("tool"),
            content: Some(content),
            tool_calls: None,
            tool_call_id: Some(call_id.to_owned()),
            name: Some(name.to_owned()),
        }
    }

    /// The assistant's turn that asked for `calls`, recorded so each
    /// `tool` answer that follows has the call it answers.
    pub fn tool_calls(calls: Vec<ToolCall>) -> (m: Message)
        ensures
            m.role@ == "assistant"@,
            m.content is None,
            m.tool_calls == Some(calls),
            m.tool_call_id is None,
            m.name is None,
    {
        Message {
            role: String::from_str("assistant"),
            content: None,
            tool_calls: Some(calls),
            tool_call_id: None,
            name: None,
        }
    }
}

// ---------------------------------------------------------------------
// SSE framing
// ---------------------------------------------------------------------

/// `line` without the carriage returns it ends with.
pub open spec fn strip_cr_end(line: Seq<char>) -> Seq<char>
    decreases line.len(),
{
    if line.len() > 0 && line.last() == '\r' {
        strip_cr_end(line.drop_last())
    } else {
        line
    }
}

/// The payload one complete line carries: the trimmed rest of a `data:`
/// line; nothing for blank separators, `:` comments and other fields.
pub open spec fn payload_of(line: Seq<char>) -> Seq<Seq<char>> {
    let l = strip_cr_end(line);
    if l.len() >= 5 && l.take(5) == "data:"@ {
        seq![trim_of(l.skip(5))]
    } else {
        Seq::empty()
    }
}

/// Scanning `s` with `line` gathered so far since the last newline: the
/// payloads of the lines completed in `s`, and what is left unterminated.
pub open spec fn sse_scan(s: Seq<char>, line: Seq<char>) -> (Seq<Seq<char>>, Seq<char>)
    decreases s.len(),
{
    if s.len() == 0 {
        (Seq::empty(), line)
    } else if s[0] == '\n' {
        let r = sse_scan(s.drop_first(), Seq::empty());
        (payload_of(line) + r.0, r.1)
    } else {
        sse_scan(s.drop_first(), line.push(s[0]))
    }
}

/// Splits a byte stream into SSE `data:` payloads.
///
/// Network chunks land on arbitrary boundaries, so a JSON object is
/// routinely cut in half; this holds the remainder until its newline
/// arrives.
pub struct SseDecoder {
    buffer: String,
}

impl SseDecoder {
    /// The unterminated tail held back from earlier chunks.
    pub closed spec fn pending(&self) -> Seq<char> {
        self.buffer@
    }

    /// The held-back tail never holds a whole line.
    pub closed spec fn wf(&self) -> bool {
        !self.buffer@.contains('\n')
    }

    pub fn new() -> (d: SseDecoder)
        ensures
            d.wf(),
            d.pending() == Seq::<char>::empty(),
    {
        SseDecoder { buffer: String::new() }
    }

    /// Feeds one network chunk; returns the payloads of the lines it
    /// completed, in order.
    pub fn feed(&mut self, bytes: &str) -> (out: Vec<String>)
        requires
            old(self).wf(),
        ensures
            final(self).wf(),
            views(out@) == sse_scan(bytes@, old(self).pending()).0,
            final(self).pending() == sse_scan(bytes@, old(self).pending()).1,
    {
        let cs = chars_of(bytes);
        let n = cs.len();
        let mut out: Vec<String> = Vec::new();
        let mut line: Vec<char> = chars_of(self.buffer.as_str());
        let ghost start_line = line@;
        let mut i: usize = 0;
        proof {
            assert(cs@.subrange(0, n as int) =~= cs@);
            assert(views(out@) =~= Seq::<Seq<char>>::empty());
        }
        while i < n
            invariant
                n == cs@.len(),
                cs@ == bytes@,
                i <= n,
                !line@.contains('\n'),
                views(out@) + sse_scan(cs@.subrange(i as int, n as int), line@).0 == sse_scan(
                    bytes@,
                    start_line,
                ).0,
                sse_scan(cs@.subrange(i as int, n as int), line@).1 == sse_scan(bytes@, start_line).1,
            decreases n - i,
        {
            let ghost rest = cs@.subrange(i as int, n as int);
            proof {
                assert(rest.drop_first() =~= cs@.subrange(i + 1, n as int));
                assert(rest[0] == cs@[i as int]);
            }
            if cs[i] == '\n' {
                let ghost before = views(out@);
                let ghost old_line = line@;
                push_payload(&mut out, line.as_slice());
                line = Vec::new();
                proof {
                    let r = sse_scan(rest.drop_first(), Seq::empty());
                    assert(before + (payload_of(old_line) + r.0) =~= (before + payload_of(old_line))
                        + r.0);
                    assert(line@ =~= Seq::<char>::empty());
                }
            } else {
                let ghost old_line = line@;
                line.push(cs[i]);
                proof {
                    assert(line@ == old_line.push(cs@[i as int]));
                    assert forall|k: int| 0 <= k < line@.len() implies line@[k] != '\n' by {
                        if k < old_line.len() {
                            assert(line@[k] == old_line[k]);
                            assert(!old_line.contains('\n'));
                            if old_line[k] == '\n' {
                                assert(old_line.contains('\n'));
                            }
                        }
                    }
                }
            }
            i = i + 1;
        }
        proof {
            assert(cs@.subrange(n as int, n as int) =~= Seq::<char>::empty());
            assert(views(out@) + Seq::<Seq<char>>::empty() =~= views(out@));
        }
        self.buffer = string_from_chars(line.as_slice(), 0, line.len());
        proof {
            assert(line@.subrange(0, line@.len() as int) =~= line@);
        }
        out
    }
}

pub open spec fn views(v: Seq<String>) -> Seq<Seq<char>> {
    v.map_values(|x: String| x@)
}

/// Appends the payload of the complete line `line`, if it carries one.
fn push_payload(out: &mut Vec<String>, line: &[char])
    ensures
        views(final(out)@) == views(old(out)@) + payload_of(line@),
{
    let mut j = line.len();
    proof {
        assert(line@.subrange(0, j as int) =~= line@);
    }
    while j > 0 && line[j - 1] == '\r'
        invariant
            j <= line@.len(),
            strip_cr_end(line@.subrange(0, j as int)) == strip_cr_end(line@),
        decreases j,
    {
        proof {
            assert(line@.subrange(0, j as int).drop_last() =~= line@.subrange(0, j - 1));
        }
        j = j - 1;
    }
    let ghost l = line@.subrange(0, j as int);
    proof {
        assert(strip_cr_end(line@) == l);
        reveal_strlit("data:");
    }
    if j >= 5 && line[0] == 'd' && line[1] == 'a' && line[2] == 't' && line[3] == 'a' && line[4]
        == ':' {
        proof {
            assert(l.take(5) =~= "data:"@);
        }
        let rest = string_from_chars(line, 5, j);
        let payload = trim(rest.as_str());
        let ghost before = out@;
        out.push(payload);
        proof {
            assert(rest@ =~= l.skip(5));
            assert(views(out@) =~= views(before) + seq![trim_of(l.skip(5))]);
        }
    } else {
        proof {
            if l.len() >= 5 && l.take(5) == "data:"@ {
                assert(l.take(5)[0] == 'd');
                assert(l.take(5)[1] == 'a');
                assert(l.take(5)[2] == 't');
                assert(l.take(5)[3] == 'a');
                assert(l.take(5)[4] == ':');
            }
            assert(views(old(out)@) + Seq::<Seq<char>>::empty() =~= views(old(out)@));
        }
    }
}

impl Default for SseDecoder {
    fn default() -> (d: SseDecoder)
        ensures
            d.wf(),
            d.pending() == Seq::<char>::empty(),
    {
        SseDecoder::new()
    }
}

/// Feeding a stream in two pieces yields what feeding it whole would:
/// the payloads of both pieces in order, and the same held-back tail.
pub proof fn law_chunk_boundaries_do_not_matter(a: Seq<char>, b: Seq<char>, pending: Seq<char>)
    ensures
        ({
            let first = sse_scan(a, pending);
            let second = sse_scan(b, first.1);
            sse_scan(a + b, pending) == (first.0 + second.0, second.1)
        }),
    decreases a.len(),
{
    if a.len() == 0 {
        assert(a + b =~= b);
        assert(Seq::<Seq<char>>::empty() + sse_scan(b, pending).0 =~= sse_scan(b, pending).0);
    } else {
        assert((a + b).drop_first() =~= a.drop_first() + b);
        assert((a + b)[0] == a[0]);
        if a[0] == '\n' {
            law_chunk_boundaries_do_not_matter(a.drop_first(), b, Seq::empty());
            let r1 = sse_scan(a.drop_first(), Seq::empty());
            let r2 = sse_scan(b, r1.1);
            assert(payload_of(pending) + (r1.0 + r2.0) =~= (payload_of(pending) + r1.0) + r2.0);
        } else {
            law_chunk_boundaries_do_not_matter(a.drop_first(), b, pending.push(a[0]));
        }
    }
}

// ---------------------------------------------------------------------
// Reassembling the stream
// ---------------------------------------------------------------------

/// One thing that happened while the model was responding.
#[derive(Debug, PartialEq)]
pub enum StreamEvent {
    /// The model finished and wants these tools run.
    ToolCalls(Vec<ToolCall>),
    /// The response ended without tool calls.
    Done,
}

/// One fragment of a tool call, keyed by the call's `index`.
pub struct DeltaCall {
    pub index: usize,
    pub id: Option<String>,
    pub name: Option<String>,
    pub arguments: Option<String>,
}

/// One choice of a streamed chunk.
pub struct ChunkChoice {
    pub content: Option<String>,
    pub tool_calls: Option<Vec<DeltaCall>>,
    pub finish_reason: Option<String>,
}

/// What one decoded `data:` payload holds.
pub struct Chunk {
    pub choices: Vec<ChunkChoice>,
    /// Set when the provider reports a hard error mid-stream.
    pub error: Option<String>,
}

/// A tool call being gathered: `(id, name, arguments)` so far.
pub type Slot = (Seq<char>, Seq<char>, Seq<char>);

pub open spec fn text_or_empty(o: Option<String>) -> Seq<char> {
    match o {
        Some(s) => s@,
        None => Seq::empty(),
    }
}

/// `slots` lengthened with empty slots up to `len`.
pub open spec fn grown(slots: Seq<Slot>, len: int) -> Seq<Slot> {
    if slots.len() >= len {
        slots
    } else {
        slots + Seq::new((len - slots.len()) as nat, |i: int| (Seq::empty(), Seq::empty(), Seq::empty()))
    }
}

/// One fragment folded into the slots: the id replaced when given, the
/// name and the arguments extended.
pub open spec fn apply_delta(slots: Seq<Slot>, d: DeltaCall) -> Seq<Slot> {
    let g = grown(slots, d.index + 1);
    let old = g[d.index as int];
    let id = match d.id {
        Some(x) => x@,
        None => old.0,
    };
    g.update(d.index as int, (id, old.1 + text_or_empty(d.name), old.2 + text_or_empty(d.arguments)))
}

pub open spec fn apply_deltas(slots: Seq<Slot>, ds: Seq<DeltaCall>) -> Seq<Slot>
    decreases ds.len(),
{
    if ds.len() == 0 {
        slots
    } else {
        apply_deltas(apply_delta(slots, ds[0]), ds.drop_first())
    }
}

/// `(text, slots, finished, prose emitted by this chunk)`.
pub type AccState = (Seq<char>, Seq<Slot>, bool, Option<Seq<char>>);

/// One choice folded into the state.
pub open spec fn apply_choice(st: AccState, ch: ChunkChoice) -> AccState {
    let (text, emitted) = match ch.content {
        Some(t) => if t@.len() > 0 {
            (
                st.0 + t@,
                Some(
                    match st.3 {
                        Some(prev) => prev + t@,
                        None => t@,
                    },
                ),
            )
        } else {
            (st.0, st.3)
        },
        None => (st.0, st.3),
    };
    let slots = match ch.tool_calls {
        Some(cs) => apply_deltas(st.1, cs@),
        None => st.1,
    };
    (text, slots, st.2 || ch.finish_reason is Some, emitted)
}

pub open spec fn apply_choices(st: AccState, chs: Seq<ChunkChoice>) -> AccState
    decreases chs.len(),
{
    if chs.len() == 0 {
        st
    } else {
        apply_choices(apply_choice(st, chs[0]), chs.drop_first())
    }
}

/// Whether every fragment index of `c` leaves room for one more slot.
pub open spec fn indices_fit(c: Chunk) -> bool {
    forall|k: int|
        0 <= k < c.choices@.len() ==> match (#[trigger] c.choices@[k]).tool_calls {
            Some(cs) => forall|j: int| 0 <= j < cs@.len() ==> (#[trigger] cs@[j]).index < usize::MAX,
            None => true,
        }
}

/// What pushing `payload` (decoded as `decoded`) does to
/// `(text, slots, finished)`, and what it returns.
pub open spec fn push_spec(
    state: (Seq<char>, Seq<Slot>, bool),
    payload: Seq<char>,
    decoded: Option<Chunk>,
) -> ((Seq<char>, Seq<Slot>, bool), Result<Option<Seq<char>>, Seq<char>>) {
    let t = trim_of(payload);
    if t.len() == 0 {
        (state, Ok(None))
    } else if t == "[DONE]"@ {
        ((state.0, state.1, true), Ok(None))
    } else {
        match decoded {
            None => (state, Ok(None)),
            Some(c) => match c.error {
                Some(m) => (state, Err(m@)),
                None => {
                    let st = apply_choices((state.0, state.1, state.2, None), c.choices@);
                    ((st.0, st.1, st.2), Ok(st.3))
                },
            },
        }
    }
}

pub open spec fn result_view(r: Result<Option<String>, String>) -> Result<Option<Seq<char>>, Seq<char>> {
    match r {
        Ok(Some(s)) => Ok(Some(s@)),
        Ok(None) => Ok(None),
        Err(e) => Err(e@),
    }
}

/// The slots whose call has a name, in index order; a slot that only
/// ever received arguments is no call.
pub open spec fn named_slots(slots: Seq<Slot>) -> Seq<Slot>
    decreases slots.len(),
{
    if slots.len() == 0 {
        Seq::empty()
    } else if slots.last().1.len() > 0 {
        named_slots(slots.drop_last()).push(slots.last())
    } else {
        named_slots(slots.drop_last())
    }
}

/// The `k`-th named slot as a finished call `(id, type, name, arguments)`:
/// a missing id becomes `call_k`, and no arguments become `{}` so the
/// call still carries a JSON object.
pub open spec fn finished_call(k: int, s: Slot) -> (Seq<char>, Seq<char>, Seq<char>, Seq<char>) {
    (
        if s.0.len() == 0 {
            "call_"@ + decimal(k as nat)
        } else {
            s.0
        },
        "function"@,
        s.1,
        if is_blank(s.2) {
            "{}"@
        } else {
            s.2
        },
    )
}

pub open spec fn call_view(c: ToolCall) -> (Seq<char>, Seq<char>, Seq<char>, Seq<char>) {
    (c.id@, c.call_type@, c.function.name@, c.function.arguments@)
}

struct PartialCall {
    id: String,
    name: String,
    arguments: String,
}

impl PartialCall {
    spec fn view(&self) -> Slot {
        (self.id@, self.name@, self.arguments@)
    }

    fn blank() -> (p: PartialCall)
        ensures
            p.view() == (Seq::<char>::empty(), Seq::<char>::empty(), Seq::<char>::empty()),
    {
        PartialCall { id: String::new(), name: String::new(), arguments: String::new() }
    }
}

spec fn slot_views(v: Seq<PartialCall>) -> Seq<Slot> {
    v.map_values(|p: PartialCall| p.view())
}

/// Accumulates streamed chunks into whole events.
///
/// Tool calls arrive in pieces — the name in one chunk, the arguments
/// across several more, keyed by an `index` — so this reassembles them
/// rather than treating each chunk as a call.
pub struct StreamAccumulator {
    text: String,
    calls: Vec<PartialCall>,
    finished: bool,
}

impl Default for StreamAccumulator {
    fn default() -> (a: StreamAccumulator)
        ensures
            a.text_view() == Seq::<char>::empty(),
            a.slots() == Seq::<Slot>::empty(),
            !a.is_finished(),
    {
        StreamAccumulator::new()
    }
}

impl StreamAccumulator {
    /// All prose streamed so far.
    pub closed spec fn text_view(&self) -> Seq<char> {
        self.text@
    }

    /// The tool calls gathered so far, by index.
    pub closed spec fn slots(&self) -> Seq<Slot> {
        slot_views(self.calls@)
    }

    /// Whether the stream said it is over.
    pub closed spec fn is_finished(&self) -> bool {
        self.finished
    }

    pub open spec fn state(&self) -> (Seq<char>, Seq<Slot>, bool) {
        (self.text_view(), self.slots(), self.is_finished())
    }

    pub fn new() -> (a: StreamAccumulator)
        ensures
            a.text_view() == Seq::<char>::empty(),
            a.slots() == Seq::<Slot>::empty(),
            !a.is_finished(),
    {
        let a = StreamAccumulator { text: String::new(), calls: Vec::new(), finished: false };
        proof {
            assert(slot_views(a.calls@) =~= Seq::<Slot>::empty());
        }
        a
    }

    fn apply_delta_call(&mut self, d: &DeltaCall)
        requires
            d.index < usize::MAX,
        ensures
            final(self).text_view() == old(self).text_view(),
            final(self).is_finished() == old(self).is_finished(),
            final(self).slots() == apply_delta(old(self).slots(), *d),
    {
        let ghost s0 = self.slots();
        while self.calls.len() <= d.index
            invariant
                d.index < usize::MAX,
                self.text@ == old(self).text@,
                self.finished == old(self).finished,
                self.calls@.len() >= s0.len(),
                slot_views(self.calls@) == if self.calls@.len() == s0.len() {
                    s0
                } else {
                    grown(s0, self.calls@.len() as int)
                },
                self.calls@.len() <= grown(s0, d.index + 1).len(),
            decreases d.index + 1 - self.calls@.len(),
        {
            let ghost before = self.calls@;
            self.calls.push(PartialCall::blank());
            proof {
                let g = grown(s0, self.calls@.len() as int);
                let v = slot_views(self.calls@);
                assert(v.len() == g.len());
                assert forall|i: int| 0 <= i < g.len() implies v[i] == g[i] by {
                    if i < before.len() {
                        assert(self.calls@[i] == before[i]);
                        assert(slot_views(before)[i] == v[i]);
                        if i < s0.len() {
                            assert(g[i] == s0[i]);
                        }
                    }
                }
                assert(v =~= g);
            }
        }
        proof {
            if self.calls@.len() == s0.len() {
                assert(grown(s0, d.index + 1) == s0);
            }
            assert(slot_views(self.calls@) == grown(s0, d.index + 1));
        }
        let mut slot = PartialCall::blank();
        self.calls.set_and_swap(d.index, &mut slot);
        match &d.id {
            Some(id) => {
                slot.id = id.clone();
            },
            None => {},
        }
        match &d.name {
            Some(n) => slot.name.append(n.as_str()),
            None => {},
        }
        match &d.arguments {
            Some(a) => slot.arguments.append(a.as_str()),
            None => {},
        }
        let ghost mid = self.calls@;
        self.calls.set(d.index, slot);
        proof {
            assert(slot_views(self.calls@) =~= apply_delta(s0, *d));
        }
    }

    fn apply_choice_of(&mut self, ch: &ChunkChoice, emitted: &mut Option<String>)
        requires
            match ch.tool_calls {
                Some(cs) => forall|j: int| 0 <= j < cs@.len() ==> (#[trigger] cs@[j]).index < usize::MAX,
                None => true,
            },
        ensures
            ({
                let st = apply_choice(
                    (
                        old(self).text_view(),
                        old(self).slots(),
                        old(self).is_finished(),
                        match *old(emitted) {
                            Some(e) => Some(e@),
                            None => None,
                        },
                    ),
                    *ch,
                );
                &&& final(self).text_view() == st.0
                &&& final(self).slots() == st.1
                &&& final(self).is_finished() == st.2
                &&& match *final(emitted) {
                    Some(e) => st.3 == Some(e@),
                    None => st.3 is None,
                }
            }),
    {
        match &ch.content {
            Some(t) => {
                if !t.as_str().is_empty() {
                    self.text.append(t.as_str());
                    match emitted {
                        Some(prev) => prev.append(t.as_str()),
                        None => {
                            *emitted = Some(t.clone());
                        },
                    }
                }
            },
            None => {},
        }
        match &ch.tool_calls {
            Some(cs) => {
                let ghost s0 = self.slots();
                let ghost txt = self.text@;
                let mut k: usize = 0;
                proof {
                    assert(cs@.skip(0) =~= cs@);
                }
                while k < cs.len()
                    invariant
                        k <= cs@.len(),
                        forall|j: int| 0 <= j < cs@.len() ==> (#[trigger] cs@[j]).index < usize::MAX,
                        apply_deltas(self.slots(), cs@.skip(k as int)) == apply_deltas(s0, cs@),
                        self.text@ == txt,
                        self.finished == old(self).finished,
                    decreases cs@.len() - k,
                {
                    proof {
                        assert(cs@.skip(k as int).drop_first() =~= cs@.skip(k + 1));
                        assert(cs@.skip(k as int)[0] == cs@[k as int]);
                    }
                    self.apply_delta_call(&cs[k]);
                    k = k + 1;
                }
                proof {
                    assert(cs@.skip(k as int) =~= Seq::<DeltaCall>::empty());
                }
            },
            None => {},
        }
        if ch.finish_reason.is_some() {
            self.finished = true;
        }
    }

    /// Feeds one `data:` payload, together with serde's decoding of it
    /// (`None` when it is not a chunk object). Returns prose to show
    /// immediately, if any.
    ///
    /// An `Err` here is a hard API error (bad key, no credit, unknown
    /// model); an unparseable line is *not* an error — providers routinely
    /// emit keep-alive comments and padding that must be skipped rather
    /// than aborting a working stream.
    pub fn push(&mut self, payload: &str, decoded: Option<Chunk>) -> (r: Result<Option<String>, String>)
        requires
            decoded matches Some(c) ==> indices_fit(c),
        ensures
            (final(self).state(), result_view(r)) == push_spec(old(self).state(), payload@, decoded),
    {
        proof {
            reveal_strlit("[DONE]");
        }
        let t = trim(payload);
        if t.as_str().is_empty() {
            return Ok(None);
        }
        if t == String::from_str("[DONE]") {
            self.finished = true;
            return Ok(None);
        }
        match decoded {
            None => Ok(None),
            Some(chunk) => {
                match chunk.error {
                    Some(m) => {
                        return Err(m);
                    },
                    None => {},
                }
                let mut emitted: Option<String> = None;
                let ghost st0: AccState = (self.text@, self.slots(), self.finished, None);
                let mut k: usize = 0;
                proof {
                    assert(chunk.choices@.skip(0) =~= chunk.choices@);
                }
                while k < chunk.choices.len()
                    invariant
                        k <= chunk.choices@.len(),
                        indices_fit(chunk),
                        apply_choices(
                            (
                                self.text@,
                                self.slots(),
                                self.finished,
                                match emitted {
                                    Some(e) => Some(e@),
                                    None => None,
                                },
                            ),
                            chunk.choices@.skip(k as int),
                        ) == apply_choices(st0, chunk.choices@),
                    decreases chunk.choices@.len() - k,
                {
                    proof {
                        assert(chunk.choices@.skip(k as int).drop_first() =~= chunk.choices@.skip(k + 1));
                        assert(chunk.choices@.skip(k as int)[0] == chunk.choices@[k as int]);
                    }
                    self.apply_choice_of(&chunk.choices[k], &mut emitted);
                    k = k + 1;
                }
                proof {
                    assert(chunk.choices@.skip(k as int) =~= Seq::<ChunkChoice>::empty());
                }
                Ok(emitted)
            },
        }
    }

    /// What the model ultimately asked for.
    pub fn finish(self) -> (e: StreamEvent)
        ensures
            ({
                let named = named_slots(self.slots());
                &&& named.len() == 0 ==> e is Done
                &&& named.len() > 0 ==> (e matches StreamEvent::ToolCalls(v) && v@.len() == named.len()
                    && forall|k: int| 0 <= k < v@.len() ==> call_view(#[trigger] v@[k]) == finished_call(k, named[k]))
            }),
    {
        let ghost all = self.slots();
        let mut out: Vec<ToolCall> = Vec::new();
        let mut k: usize = 0;
        while k < self.calls.len()
            invariant
                k <= self.calls@.len(),
                all == slot_views(self.calls@),
                out@.len() == named_slots(all.take(k as int)).len(),
                forall|m: int|
                    0 <= m < out@.len() ==> call_view(#[trigger] out@[m]) == finished_call(
                        m,
                        named_slots(all.take(k as int))[m],
                    ),
            decreases self.calls@.len() - k,
        {
            proof {
                assert(all.take(k + 1).drop_last() =~= all.take(k as int));
                assert(all.take(k + 1).last() == all[k as int]);
                assert(all[k as int] == self.calls@[k as int].view());
            }
            let c = &self.calls[k];
            if !c.name.as_str().is_empty() {
                let i = out.len();
                let mut id = String::new();
                if c.id.as_str().is_empty() {
                    id.append("call_");
                    push_decimal(&mut id, i as u128);
                } else {
                    id = c.id.clone();
                }
                let arguments = if blank(c.arguments.as_str()) {
                    String::from_str("{}")
                } else {
                    c.arguments.clone()
                };
                let call = ToolCall {
                    id,
                    call_type: String::from_str("function"),
                    function: FunctionCall { name: c.name.clone(), arguments },
                };
                let ghost before = out@;
                out.push(call);
                proof {
                    let named = named_slots(all.take(k + 1));
                    assert(named =~= named_slots(all.take(k as int)).push(all[k as int]));
                    assert forall|m: int| 0 <= m < out@.len() implies call_view(#[trigger] out@[m])
                        == finished_call(m, named[m]) by {
                        if m < before.len() {
                            assert(out@[m] == before[m]);
                        }
                    }
                }
            } else {
                proof {
                    assert(named_slots(all.take(k + 1)) =~= named_slots(all.take(k as int)));
                }
            }
            k = k + 1;
        }
        proof {
            assert(all.take(k as int) =~= all);
        }
        if out.len() == 0 {
            StreamEvent::Done
        } else {
            StreamEvent::ToolCalls(out)
        }
    }

    /// All prose streamed so far.
    pub fn text(&self) -> (s: &str)
        ensures
            s@ == self.text_view(),
    {
        self.text.as_str()
    }
}

/// What an HTTP failure's detail reads: the service's own message when
/// the body carried one, otherwise the body's first 200 characters.
pub open spec fn error_detail_text(message: Option<Seq<char>>, body: Seq<char>) -> Seq<char> {
    match message {
        Some(m) => m,
        None => if body.len() <= 200 {
            body
        } else {
            body.take(200)
        },
    }
}

pub fn error_detail(message: Option<String>, body: &str) -> (d: String)
    ensures
        d@ == error_detail_text(
            match message {
                Some(m) => Some(m@),
                None => None,
            },
            body@,
        ),
{
    match message {
        Some(m) => m,
        None => {
            let cs = chars_of(body);
            let end = if cs.len() <= 200 {
                cs.len()
            } else {
                200
            };
            let d = string_from_chars(cs.as_slice(), 0, end);
            proof {
                assert(cs@.subrange(0, end as int) =~= if body@.len() <= 200 {
                    body@
                } else {
                    body@.take(200)
                });
            }
            d
        },
    }
}

/// An HTTP failure put in words the user can act on: the common refusals
/// by their code, anything else by its status line (`status`).
pub open spec fn friendly_error_text(code: u16, status: Seq<char>, detail: Seq<char>) -> Seq<char> {
    if code == 401 {
        "OpenRouter rejected the API key. Check it in Settings. ("@ + detail + ")"@
    } else if code == 402 {
        "This model needs credit on your OpenRouter account. ("@ + detail + ")"@
    } else if code == 404 {
        "That model isn't available. Pick another in Settings. ("@ + detail + ")"@
    } else if code == 429 {
        "Rate limited by OpenRouter — free models throttle hard. Wait a moment or pick another model. ("@
            + detail + ")"@
    } else {
        "OpenRouter returned "@ + status + ": "@ + detail
    }
}

pub fn friendly_error(code: u16, status: &str, detail: &str) -> (s: String)
    ensures
        s@ == friendly_error_text(code, status@, detail@),
{
    let mut s = if code == 401 {
        String::from_str("OpenRouter rejected the API key. Check it in Settings. (")
    } else if code == 402 {
        String::from_str("This model needs credit on your OpenRouter account. (")
    } else if code == 404 {
        String::from_str("That model isn't available. Pick another in Settings. (")
    } else if code == 429 {
        String::from_str(
            "Rate limited by OpenRouter — free models throttle hard. Wait a moment or pick another model. (",
        )
    } else {
        let mut t = String::from_str("OpenRouter returned ");
        t.append(status);
        t.append(": ");
        t
    };
    s.append(detail);
    if code == 401 || code == 402 || code == 404 || code == 429 {
        s.append(")");
    }
    s
}

} // verus!
