//! The assistant's verified core: what a turn opens with, how much of the
//! conversation is carried, the wire types of the chat stream, and the
//! read-only tools.
//!
//! Shape of a turn:
//!
//! 1. Build a system prompt: how to behave, plus a compact scan digest.
//! 2. Ask the model, streaming.
//! 3. If the model asks for tools, run them against the in-memory tree,
//!    append the results, and ask again — up to [`MAX_TOOL_ROUNDS`].
//! 4. Stream the final prose to the panel.
//!
//! The tree is never serialized into the prompt; the model gets a small
//! digest and calls tools to look at specific folders.

pub mod models;
pub mod openrouter;
pub mod tools;

use vstd::prelude::*;
use vstd::string::StringExecFns;

use crate::digest::{reclaimable, reclaimable_text, scan_digest, scan_digest_text};
use crate::tree::{NodeId, Tree};
use crate::volume::VolumeInfo;
use openrouter::{Message, StreamEvent, ToolCall};
use tools::{describe, describe_text, dispatch, dispatch_text, min_mb_of, resolved, text_or_empty, ToolArgs};

verus! {

broadcast use vstd::string::group_string_axioms;

/// How many times the model may call tools before it must answer.
pub const MAX_TOOL_ROUNDS: usize = 8;

/// Roughly how much conversation to carry, in tokens.
pub const HISTORY_TOKEN_BUDGET: usize = 3000;

pub const SYSTEM_PROMPT: &'static str = "\
You are the disk-space assistant inside SpaceTree, a tool that has already scanned \
the user's drive. Your job is to tell them what is using space and what is safe to \
remove.

How to work:
- The scan summary below is already in front of you. Use it before calling anything.
- To look deeper, call the tools. They read the scan that is already in memory, so \
they are instant and free — prefer calling one over guessing.
- When asked what can be deleted, call find_reclaimable first.

Rules that matter:
- Never invent a path, a size or a percentage. Every number you give must have come \
from the summary or a tool result. If you don't know, say so and call a tool.
- The safety notes in tool results are authoritative. If a note says something must \
not be deleted, say that plainly — do not soften it or substitute your own opinion. \
Steering someone away from deleting WinSxS or the Installer cache is a genuinely \
useful answer, not a failure to help.
- You cannot delete anything and must not imply you can. Tell the user what to \
remove and let them do it: they right-click any row in the tree and choose \
'Move to Recycle Bin'.
- Lead with the largest wins. Quote real sizes, and give paths exactly as they \
appear in tool output so the app can link them.
- Be brief. A few sentences and a short list beats an essay.";

/// Told to a model that cannot call tools, ahead of the reclaimable list.
pub const NO_TOOLS_NOTE: &'static str = "\n\nNOTE: this model cannot call tools, so the summary below is all you have. \
Answer from it and say plainly when something would need a closer look.\n\n";

/// Shown when a model ends its answer without saying anything.
pub const EMPTY_ANSWER_NOTE: &'static str = "That model returned an empty answer. Free models throttle and truncate under load — try again, or pick a different one in Settings.";

/// A tool call shown in the panel's trace.
pub struct ToolEvent {
    pub id: String,
    pub label: String,
    pub detail: String,
}

pub struct ErrorEvent {
    pub message: String,
}

/// One prior exchange, as the frontend remembers it.
pub struct HistoryTurn {
    pub role: String,
    pub content: String,
}

/// The length `str::len` reports: bytes of UTF-8.
pub open spec fn byte_len(s: Seq<char>) -> usize {
    vstd::utf8::encode_utf8(s).len() as usize
}

/// A turn's rough token cost: a token per four bytes, plus overhead.
pub open spec fn turn_cost(t: HistoryTurn) -> int {
    byte_len(t.content@) / 4 + 8
}

/// How many of the newest turns fit in `budget`, counting back from the
/// newest and stopping at the first that does not fit.
pub open spec fn kept_turns(h: Seq<HistoryTurn>, budget: int) -> nat
    decreases h.len(),
{
    if h.len() == 0 || turn_cost(h.last()) > budget {
        0
    } else {
        1 + kept_turns(h.drop_last(), budget - turn_cost(h.last()))
    }
}

pub open spec fn total_cost(h: Seq<HistoryTurn>) -> int
    decreases h.len(),
{
    if h.len() == 0 {
        0
    } else {
        total_cost(h.drop_last()) + turn_cost(h.last())
    }
}

/// Keep recent conversation within budget, oldest first.
///
/// Tool results are deliberately not carried across turns: they are by
/// far the bulkiest messages and the least reusable, since the model can
/// simply call the tool again if it needs the data.
pub fn trim_history(history: Vec<HistoryTurn>) -> (kept: Vec<HistoryTurn>)
    ensures
        kept@ == history@.skip(history@.len() - kept_turns(history@, HISTORY_TOKEN_BUDGET as int)),
{
    let ghost h = history@;
    let n = history.len();
    let mut i = n;
    let mut budget = HISTORY_TOKEN_BUDGET;
    proof {
        assert(h.take(n as int) =~= h);
    }
    while i > 0
        invariant
            i <= n == h.len(),
            history@ == h,
            kept_turns(h, HISTORY_TOKEN_BUDGET as int) == (n - i) + kept_turns(h.take(i as int), budget as int),
        ensures
            i <= n,
            history@ == h,
            kept_turns(h, HISTORY_TOKEN_BUDGET as int) == n - i,
        decreases i,
    {
        proof {
            assert(h.take(i as int).last() == h[i - 1]);
            assert(h.take(i as int).drop_last() =~= h.take(i - 1));
        }
        let cost = history[i - 1].content.as_str().len() / 4 + 8;
        if cost > budget {
            break;
        }
        budget = budget - cost;
        i = i - 1;
    }
    let mut history = history;
    let kept = history.split_off(i);
    proof {
        assert(kept@ =~= h.skip(i as int));
    }
    kept
}

proof fn lemma_kept_within(h: Seq<HistoryTurn>, budget: int)
    requires
        budget >= 0,
    ensures
        kept_turns(h, budget) <= h.len(),
        total_cost(h.skip(h.len() - kept_turns(h, budget))) <= budget,
    decreases h.len(),
{
    if h.len() > 0 && turn_cost(h.last()) <= budget {
        let b2 = budget - turn_cost(h.last());
        lemma_kept_within(h.drop_last(), b2);
        let k = kept_turns(h, budget);
        let tail = h.skip(h.len() - k);
        assert(tail.drop_last() =~= h.drop_last().skip(h.drop_last().len() - kept_turns(h.drop_last(), b2)));
        assert(tail.last() == h.last());
    } else {
        assert(h.skip(h.len() as int) =~= Seq::<HistoryTurn>::empty());
    }
}

/// Adding the next older turn to what is kept goes over the budget.
proof fn lemma_next_turn_exceeds(h: Seq<HistoryTurn>, budget: int)
    requires
        budget >= 0,
        kept_turns(h, budget) < h.len(),
    ensures
        turn_cost(h[h.len() - kept_turns(h, budget) - 1]) + total_cost(
            h.skip(h.len() - kept_turns(h, budget)),
        ) > budget,
    decreases h.len(),
{
    lemma_kept_within(h, budget);
    if turn_cost(h.last()) <= budget {
        let b2 = budget - turn_cost(h.last());
        let d = h.drop_last();
        lemma_next_turn_exceeds(d, b2);
        lemma_kept_within(d, b2);
        let k = kept_turns(h, budget);
        let tail = h.skip(h.len() - k);
        assert(tail.drop_last() =~= d.skip(d.len() - kept_turns(d, b2)));
        assert(tail.last() == h.last());
        assert(h[h.len() - k - 1] == d[d.len() - kept_turns(d, b2) - 1]);
    } else {
        assert(h.skip(h.len() as int) =~= Seq::<HistoryTurn>::empty());
    }
}

proof fn lemma_total_cost_front(s: Seq<HistoryTurn>)
    requires
        s.len() > 0,
    ensures
        total_cost(s) == turn_cost(s[0]) + total_cost(s.drop_first()),
    decreases s.len(),
{
    if s.len() > 1 {
        lemma_total_cost_front(s.drop_last());
        assert(s.drop_last().drop_first() =~= s.drop_first().drop_last());
    } else {
        assert(s.drop_first() =~= Seq::<HistoryTurn>::empty());
        assert(s.drop_last() =~= Seq::<HistoryTurn>::empty());
    }
}

/// Every suffix longer than the one kept costs more than the budget.
proof fn lemma_longer_suffixes_exceed(h: Seq<HistoryTurn>, budget: int, j: int)
    requires
        budget >= 0,
        0 <= j < h.len() - kept_turns(h, budget),
    ensures
        total_cost(h.skip(j)) > budget,
    decreases h.len() - j,
{
    lemma_kept_within(h, budget);
    let k = kept_turns(h, budget) as int;
    lemma_total_cost_front(h.skip(j));
    assert(h.skip(j).drop_first() =~= h.skip(j + 1));
    if j == h.len() - k - 1 {
        lemma_next_turn_exceeds(h, budget);
    } else {
        lemma_longer_suffixes_exceed(h, budget, j + 1);
    }
}

/// What is kept of a conversation never costs more than the budget, it
/// is the newest turns, in their order, and it is the longest such run:
/// any longer run of newest turns costs more than the budget.
pub proof fn law_history_fits_the_budget(h: Seq<HistoryTurn>)
    ensures
        kept_turns(h, HISTORY_TOKEN_BUDGET as int) <= h.len(),
        total_cost(h.skip(h.len() - kept_turns(h, HISTORY_TOKEN_BUDGET as int))) <= HISTORY_TOKEN_BUDGET,
        forall|j: int|
            0 <= j < h.len() - kept_turns(h, HISTORY_TOKEN_BUDGET as int) ==> #[trigger] total_cost(h.skip(j))
                > HISTORY_TOKEN_BUDGET,
{
    lemma_kept_within(h, HISTORY_TOKEN_BUDGET as int);
    assert forall|j: int| 0 <= j < h.len() - kept_turns(h, HISTORY_TOKEN_BUDGET as int) implies #[trigger] total_cost(
        h.skip(j),
    ) > HISTORY_TOKEN_BUDGET by {
        lemma_longer_suffixes_exceed(h, HISTORY_TOKEN_BUDGET as int, j);
    }
}

/// A remembered turn as sent: the assistant's own turns as `assistant`,
/// anything else as `user`.
pub open spec fn history_role(t: HistoryTurn) -> Seq<char> {
    if t.role@ == "assistant"@ {
        "assistant"@
    } else {
        "user"@
    }
}

/// A message's `(role, content)`, for messages that carry text.
pub open spec fn text_message(m: Message) -> (Seq<char>, Option<Seq<char>>) {
    (
        m.role@,
        match m.content {
            Some(c) => Some(c@),
            None => None,
        },
    )
}

/// The messages a turn opens with: the system prompt, the kept history,
/// then the question.
pub fn opening_messages(system: String, history: Vec<HistoryTurn>, question: String) -> (msgs: Vec<Message>)
    ensures
        ({
            let kept = history@.skip(history@.len() - kept_turns(history@, HISTORY_TOKEN_BUDGET as int));
            &&& msgs@.len() == kept.len() + 2
            &&& text_message(msgs@[0]) == ("system"@, Some(system@))
            &&& forall|k: int|
                0 <= k < kept.len() ==> text_message(#[trigger] msgs@[k + 1]) == (
                    history_role(kept[k]),
                    Some(kept[k].content@),
                )
            &&& text_message(msgs@[kept.len() + 1int]) == ("user"@, Some(question@))
        }),
{
    proof {
        reveal_strlit("assistant");
    }
    let kept = trim_history(history);
    let ghost kv = kept@;
    let mut msgs: Vec<Message> = Vec::new();
    msgs.push(Message::system(system));
    let mut rest = kept;
    let mut k: usize = 0;
    let n = rest.len();
    let mut reversed: Vec<HistoryTurn> = Vec::new();
    while rest.len() > 0
        invariant
            rest@.len() + reversed@.len() == kv.len(),
            kv.len() == n,
            forall|j: int| 0 <= j < rest@.len() ==> rest@[j] == kv[j],
            forall|j: int| 0 <= j < reversed@.len() ==> reversed@[j] == kv[kv.len() - 1 - j],
        decreases rest@.len(),
    {
        let t = rest.pop().unwrap();
        reversed.push(t);
    }
    while reversed.len() > 0
        invariant
            reversed@.len() + k == kv.len(),
            kv.len() == n,
            msgs@.len() == k + 1,
            forall|j: int| 0 <= j < reversed@.len() ==> reversed@[j] == kv[kv.len() - 1 - j],
            text_message(msgs@[0]) == ("system"@, Some(system@)),
            forall|j: int|
                0 <= j < k ==> text_message(#[trigger] msgs@[j + 1]) == (history_role(kv[j]), Some(kv[j].content@)),
        decreases reversed@.len(),
    {
        let t = reversed.pop().unwrap();
        let ghost before = msgs@;
        let is_assistant = t.role == String::from_str("assistant");
        let m = if is_assistant {
            Message::assistant(t.content)
        } else {
            Message::user(t.content)
        };
        msgs.push(m);
        proof {
            assert forall|j: int| 0 <= j < k + 1 implies text_message(#[trigger] msgs@[j + 1]) == (
                history_role(kv[j]),
                Some(kv[j].content@),
            ) by {
                if j < k {
                    assert(msgs@[j + 1] == before[j + 1]);
                }
            }
        }
        k = k + 1;
    }
    msgs.push(Message::user(question));
    msgs
}

/// The system text of a turn: the standing instructions, then the scan
/// digest. A model without tools sees nothing but this, so it gets a
/// deeper digest and the reclaimable list too.
pub open spec fn system_text(t: &Tree, root: int, volume: Option<&VolumeInfo>, use_tools: bool) -> Seq<char> {
    SYSTEM_PROMPT@ + "\n\n"@ + scan_digest_text(
        t,
        root,
        volume,
        true,
        if use_tools {
            20
        } else {
            40
        },
        if use_tools {
            10
        } else {
            20
        },
    ) + if use_tools {
        Seq::empty()
    } else {
        NO_TOOLS_NOTE@ + reclaimable_text(t, root, true, 15)
    }
}

pub fn compose_system(tree: &Tree, root: NodeId, volume: Option<&VolumeInfo>, use_tools: bool) -> (s: String)
    requires
        tree.wf(),
        root < tree.node_total(),
    ensures
        s@ == system_text(tree, root as int, volume, use_tools),
{
    let digest = scan_digest(
        tree,
        root,
        volume,
        true,
        if use_tools {
            20
        } else {
            40
        },
        if use_tools {
            10
        } else {
            20
        },
    );
    let mut s = String::from_str(SYSTEM_PROMPT);
    s.append("\n\n");
    s.append(digest.as_str());
    if !use_tools {
        s.append(NO_TOOLS_NOTE);
        let list = reclaimable(tree, root, true, 15);
        s.append(list.as_str());
    } else {
        proof {
            assert(s@ + Seq::<char>::empty() =~= s@);
        }
    }
    s
}

/// Whether the model is offered the tools in round `round`: never in the
/// last round, so it is forced to answer rather than loop forever.
pub fn tools_for_round(round: usize, use_tools: bool) -> (b: bool)
    ensures
        b == (use_tools && round != MAX_TOOL_ROUNDS),
{
    use_tools && round != MAX_TOOL_ROUNDS
}

/// One tool call the model asked for, answered against the scan (sizes on
/// disk): the entry for the panel's trace, and the `tool` message that
/// hands the result back to the model under the call's id and name.
pub fn answer_call(tree: &Tree, root: NodeId, call: &ToolCall, args: &ToolArgs) -> (r: (
    ToolEvent,
    Message,
))
    requires
        tree.wf(),
        root < tree.node_total(),
        call.function.name@ == "find_large_files"@ && resolved(
            tree,
            root as int,
            text_or_empty(args.path),
        ) is Some ==> min_mb_of(args) * 1048576 <= u64::MAX,
    ensures
        r.0.id@ == call.id@,
        r.0.label@ == describe_text(call.function.name@, args),
        r.0.detail@ == dispatch_text(tree, root as int, true, call.function.name@, args),
        r.1.role@ == "tool"@,
        r.1.content matches Some(c) && c@ == r.0.detail@,
        r.1.tool_calls is None,
        r.1.tool_call_id matches Some(i) && i@ == call.id@,
        r.1.name matches Some(n) && n@ == call.function.name@,
{
    let name = call.function.name.as_str();
    let label = describe(name, args);
    let result = dispatch(tree, root, true, name, args);
    let message = Message::tool_result(call.id.as_str(), name, result.clone());
    (ToolEvent { id: call.id.clone(), label, detail: result }, message)
}

/// How a round of the turn ends, once the stream is over.
pub enum RoundEnd {
    /// The model answered in prose; `note` says whether it said nothing,
    /// so that [`EMPTY_ANSWER_NOTE`] is shown in its place.
    Reply { note: bool },
    /// The model asked for tools: `record` is the assistant message that
    /// goes into the conversation first, then each call in `calls` is
    /// answered in order (see [`answer_call`]) before the next round.
    Calls { record: Message, calls: Vec<ToolCall> },
}

fn copy_call(c: &ToolCall) -> (r: ToolCall)
    ensures
        r == *c,
{
    ToolCall {
        id: c.id.clone(),
        call_type: c.call_type.clone(),
        function: openrouter::FunctionCall {
            name: c.function.name.clone(),
            arguments: c.function.arguments.clone(),
        },
    }
}

fn copy_calls(v: &Vec<ToolCall>) -> (r: Vec<ToolCall>)
    ensures
        r@ == v@,
{
    let mut r: Vec<ToolCall> = Vec::new();
    let mut i: usize = 0;
    while i < v.len()
        invariant
            i <= v@.len(),
            r@ == v@.take(i as int),
        decreases v@.len() - i,
    {
        r.push(copy_call(&v[i]));
        proof {
            assert(r@ =~= v@.take(i + 1));
        }
        i = i + 1;
    }
    proof {
        assert(v@.take(v@.len() as int) =~= v@);
    }
    r
}

/// What the turn does when a round's stream ends with `event`, the prose
/// of the round being blank when `said_nothing`: a prose answer ends the
/// turn (with the empty-answer note if it said nothing); tool calls are
/// recorded as one assistant message and then answered one by one.
pub fn end_of_round(said_nothing: bool, event: StreamEvent) -> (r: RoundEnd)
    ensures
        event is Done ==> r == (RoundEnd::Reply { note: said_nothing }),
        event matches StreamEvent::ToolCalls(v) ==> (r matches RoundEnd::Calls { record, calls } && calls@
            == v@ && record.role@ == "assistant"@ && record.content is None && record.tool_calls == Some(
            v,
        ) && record.tool_call_id is None && record.name is None),
{
    match event {
        StreamEvent::Done => RoundEnd::Reply { note: said_nothing },
        StreamEvent::ToolCalls(v) => {
            let calls = copy_calls(&v);
            RoundEnd::Calls { record: Message::tool_calls(v), calls }
        },
    }
}

} // verus!
