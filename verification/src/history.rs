//! Which messages of the earlier conversation go into a request, within a token budget.
use vstd::prelude::*;
use vstd::string::StringSliceAdditionalSpecFns;
use crate::budget::{estimated_tokens, estimate_tokens};
use crate::message::{ChatMessage, MessageView, text_message, new_text_message, messages_view};
use crate::text::{lit, push_all, bytes_eq, concat, slice_copy, is_boundary, is_boundary_at};

verus! {

/// One part of an earlier message: its `type` and its `text`, where they are strings.
pub struct HistoryPart {
    pub kind: Option<Vec<u8>>,
    pub text: Option<Vec<u8>>,
}

/// An earlier message of the conversation: its `role`, where it is a string, and its `parts`.
pub struct HistoryEntry {
    pub role: Option<Vec<u8>>,
    pub parts: Vec<HistoryPart>,
}

/// The text that a part adds: its `text`, where its `type` is `"text"`.
pub open spec fn part_text(p: HistoryPart) -> Seq<u8> {
    match (p.kind, p.text) {
        (Some(k), Some(t)) => if k@ == "text".spec_bytes() { t@ } else { seq![] },
        _ => seq![],
    }
}

/// The texts of the parts, one after the other.
pub open spec fn parts_text(ps: Seq<HistoryPart>) -> Seq<u8>
    decreases ps.len(),
{
    if ps.len() == 0 {
        seq![]
    } else {
        parts_text(ps.drop_last()) + part_text(ps.last())
    }
}

/// The whole text of an earlier message.
pub open spec fn entry_text(e: HistoryEntry) -> Seq<u8> {
    parts_text(e.parts@)
}

/// The role of an earlier message; `"user"` where it has none.
pub open spec fn entry_role(e: HistoryEntry) -> Seq<u8> {
    match e.role {
        Some(r) => r@,
        None => "user".spec_bytes(),
    }
}

/// The marker in front of a message that was cut to fit.
pub open spec fn truncated_marker() -> Seq<u8> {
    "...[TRUNCATED HISTORY] ".spec_bytes()
}

/// Where the kept end of a message of `len` bytes starts, when `budget` tokens are left.
pub open spec fn cut_start(len: nat, budget: nat) -> int {
    if len >= budget * 4 { len - budget * 4 } else { 0 }
}

/// The messages taken from `entries[..k]`, newest first, when `budget` tokens are left:
/// empty messages are passed over; a message that fits with 50 tokens to spare is taken whole
/// and its tokens are spent; else, where more than 200 tokens are left, the end of the message
/// that they cover is taken, behind a marker, and the selection stops; else it stops.
pub open spec fn select_recent(entries: Seq<HistoryEntry>, k: int, budget: nat) -> Seq<MessageView>
    decreases k,
{
    if k <= 0 || k > entries.len() {
        seq![]
    } else {
        let e = entries[k - 1];
        let t = entry_text(e);
        let cost = estimated_tokens(t.len());
        if t.len() == 0 {
            select_recent(entries, k - 1, budget)
        } else if budget > cost + 50 {
            seq![text_message(entry_role(e), t)] + select_recent(entries, k - 1, (budget - cost) as nat)
        } else if budget > 200 {
            seq![text_message(entry_role(e), truncated_marker() + t.subrange(cut_start(t.len(), budget), t.len() as int))]
        } else {
            seq![]
        }
    }
}

/// The selection of `select_recent` cuts no message inside a character (where `str` slicing
/// would panic).
pub open spec fn select_cuts_ok(entries: Seq<HistoryEntry>, k: int, budget: nat) -> bool
    decreases k,
{
    if k <= 0 || k > entries.len() {
        true
    } else {
        let e = entries[k - 1];
        let t = entry_text(e);
        let cost = estimated_tokens(t.len());
        if t.len() == 0 {
            select_cuts_ok(entries, k - 1, budget)
        } else if budget > cost + 50 {
            select_cuts_ok(entries, k - 1, (budget - cost) as nat)
        } else if budget > 200 {
            is_boundary(t, cut_start(t.len(), budget))
        } else {
            true
        }
    }
}

/// Every earlier message's text fits in a `String` (at most `isize::MAX` bytes).
pub open spec fn entries_fit(entries: Seq<HistoryEntry>) -> bool {
    forall|i: int| 0 <= i < entries.len() ==> #[trigger] entry_text(entries[i]).len() <= isize::MAX
}

/// The history that goes into the request: the selection, oldest first.
pub open spec fn history_selection(entries: Seq<HistoryEntry>, budget: nat) -> Seq<MessageView> {
    select_recent(entries, entries.len() as int, budget).reverse()
}

/// The text of an earlier message: the texts of its `"text"` parts, one after the other.
pub fn entry_text_of(e: &HistoryEntry) -> (t: Vec<u8>)
    ensures
        t@ == entry_text(*e),
{
    let text_kind = lit("text");
    let mut t: Vec<u8> = Vec::new();
    let mut i: usize = 0;
    while i < e.parts.len()
        invariant
            i <= e.parts@.len(),
            text_kind@ == "text".spec_bytes(),
            t@ == parts_text(e.parts@.subrange(0, i as int)),
        decreases e.parts@.len() - i,
    {
        let p = &e.parts[i];
        let ghost before = t@;
        match (&p.kind, &p.text) {
            (Some(k), Some(x)) => {
                if bytes_eq(k.as_slice(), text_kind.as_slice()) {
                    push_all(&mut t, x.as_slice());
                }
            },
            _ => {},
        }
        proof {
            let pre = e.parts@.subrange(0, i as int);
            let post = e.parts@.subrange(0, i + 1);
            assert(post.drop_last() =~= pre);
            assert(post.last() == e.parts@[i as int]);
            assert(t@ =~= before + part_text(e.parts@[i as int]));
        }
        i = i + 1;
    }
    assert(e.parts@.subrange(0, e.parts@.len() as int) =~= e.parts@);
    t
}

/// The role of an earlier message; `"user"` where it has none.
pub fn entry_role_of(e: &HistoryEntry) -> (r: Vec<u8>)
    ensures
        r@ == entry_role(*e),
{
    match &e.role {
        Some(r) => slice_copy(r.as_slice(), 0, r.len()),
        None => lit("user"),
    }
}

proof fn lemma_select_unfold(entries: Seq<HistoryEntry>, k: int, budget: nat)
    requires
        0 < k <= entries.len(),
    ensures
        select_recent(entries, k, budget) == ({
            let e = entries[k - 1];
            let t = entry_text(e);
            let cost = estimated_tokens(t.len());
            if t.len() == 0 {
                select_recent(entries, k - 1, budget)
            } else if budget > cost + 50 {
                seq![text_message(entry_role(e), t)] + select_recent(entries, k - 1, (budget - cost) as nat)
            } else if budget > 200 {
                seq![text_message(entry_role(e), truncated_marker() + t.subrange(cut_start(t.len(), budget), t.len() as int))]
            } else {
                seq![]
            }
        }),
{
}

/// Reverses a list of messages.
fn reverse_messages(v: Vec<ChatMessage>) -> (r: Vec<ChatMessage>)
    ensures
        messages_view(r@) == messages_view(v@).reverse(),
{
    let mut v = v;
    let ghost orig = v@;
    let mut r: Vec<ChatMessage> = Vec::new();
    while v.len() > 0
        invariant
            v@.len() + r@.len() == orig.len(),
            v@ == orig.subrange(0, v@.len() as int),
            messages_view(r@) == messages_view(orig).reverse().subrange(0, r@.len() as int),
        decreases v@.len(),
    {
        let m = v.pop().unwrap();
        proof {
            let n = orig.len() as int;
            let k = r@.len() as int;
            assert(messages_view(r@.push(m)) =~= messages_view(orig).reverse().subrange(0, k + 1)) by {
                assert(m == orig[n - k - 1]);
            }
        }
        r.push(m);
        assert(v@ =~= orig.subrange(0, v@.len() as int));
    }
    assert(messages_view(orig).reverse().subrange(0, orig.len() as int) =~= messages_view(orig).reverse());
    r
}

/// The earlier messages that go into the request, oldest first. They are examined newest
/// first: an empty message is passed over; one that fits in the remaining budget with 50
/// tokens to spare is kept whole; otherwise, where more than 200 tokens remain, its last
/// `remaining * 4` bytes are kept behind `"...[TRUNCATED HISTORY] "` and older ones are dropped;
/// otherwise older ones are dropped.
pub fn select_history(entries: &Vec<HistoryEntry>, budget: usize) -> (r: Vec<ChatMessage>)
    requires
        entries_fit(entries@),
        select_cuts_ok(entries@, entries@.len() as int, budget as nat),
    ensures
        messages_view(r@) == history_selection(entries@, budget as nat),
{
    let marker = lit("...[TRUNCATED HISTORY] ");
    let mut picked: Vec<ChatMessage> = Vec::new();
    let mut remaining: usize = budget;
    let mut k: usize = entries.len();
    let ghost total = select_recent(entries@, entries@.len() as int, budget as nat);
    loop
        invariant_except_break
            select_cuts_ok(entries@, k as int, remaining as nat),
            total == messages_view(picked@) + select_recent(entries@, k as int, remaining as nat),
        invariant
            k <= entries@.len(),
            marker@ == truncated_marker(),
            entries_fit(entries@),
            total == select_recent(entries@, entries@.len() as int, budget as nat),
        ensures
            total == select_recent(entries@, entries@.len() as int, budget as nat),
            total == messages_view(picked@),
        decreases k,
    {
        if k == 0 {
            assert(messages_view(picked@) + seq![] =~= messages_view(picked@));
            break;
        }
        let e = &entries[k - 1];
        let text = entry_text_of(e);
        proof {
            lemma_select_unfold(entries@, k as int, remaining as nat);
            assert(entry_text(entries@[k - 1]).len() <= isize::MAX);
        }
        if text.len() == 0 {
            k = k - 1;
            continue;
        }
        let cost = estimate_tokens(text.as_slice());
        if remaining > cost + 50 {
            let role = entry_role_of(e);
            let m = new_text_message(role, text);
            proof {
                assert(messages_view(picked@.push(m)) =~= messages_view(picked@).push(m@));
            }
            picked.push(m);
            remaining = remaining - cost;
            k = k - 1;
            proof {
                assert(total =~= messages_view(picked@) + select_recent(entries@, k as int, remaining as nat));
            }
        } else if remaining > 200 {
            let limit = remaining * 4;
            let from = if text.len() >= limit { text.len() - limit } else { 0 };
            let tail = slice_copy(text.as_slice(), from, text.len());
            let content = concat(marker.as_slice(), tail.as_slice());
            let role = entry_role_of(e);
            let m = new_text_message(role, content);
            proof {
                assert(messages_view(picked@.push(m)) =~= messages_view(picked@).push(m@));
                assert(total =~= messages_view(picked@.push(m)));
            }
            picked.push(m);
            break;
        } else {
            assert(total =~= messages_view(picked@));
            break;
        }
    }
    reverse_messages(picked)
}

/// Whether `select_history` cuts every message it shortens at a character boundary; where it
/// does not, the slicing of the text would panic.
pub fn history_cuts_ok(entries: &Vec<HistoryEntry>, budget: usize) -> (b: bool)
    requires
        entries_fit(entries@),
    ensures
        b == select_cuts_ok(entries@, entries@.len() as int, budget as nat),
{
    let mut remaining: usize = budget;
    let mut k: usize = entries.len();
    let ghost goal = select_cuts_ok(entries@, entries@.len() as int, budget as nat);
    loop
        invariant
            k <= entries@.len(),
            entries_fit(entries@),
            goal == select_cuts_ok(entries@, k as int, remaining as nat),
            goal == select_cuts_ok(entries@, entries@.len() as int, budget as nat),
        decreases k,
    {
        if k == 0 {
            return true;
        }
        let text = entry_text_of(&entries[k - 1]);
        proof {
            assert(entry_text(entries@[k - 1]).len() <= isize::MAX);
        }
        if text.len() == 0 {
            k = k - 1;
            continue;
        }
        let cost = estimate_tokens(text.as_slice());
        if remaining > cost + 50 {
            remaining = remaining - cost;
            k = k - 1;
        } else if remaining > 200 {
            let limit = remaining * 4;
            let from = if text.len() >= limit { text.len() - limit } else { 0 };
            return is_boundary_at(text.as_slice(), from);
        } else {
            return true;
        }
    }
}


/// The tokens spent on the messages that `select_recent` keeps whole.
pub open spec fn whole_cost(entries: Seq<HistoryEntry>, k: int, budget: nat) -> nat
    decreases k,
{
    if k <= 0 || k > entries.len() {
        0
    } else {
        let t = entry_text(entries[k - 1]);
        let cost = estimated_tokens(t.len());
        if t.len() == 0 {
            whole_cost(entries, k - 1, budget)
        } else if budget > cost + 50 {
            cost + whole_cost(entries, k - 1, (budget - cost) as nat)
        } else {
            0
        }
    }
}

/// Where the examination of `entries[..k]`, newest first, stops: every message from there on
/// was kept whole or was empty.
pub open spec fn stop_index(entries: Seq<HistoryEntry>, k: int, budget: nat) -> int
    decreases k,
{
    if k <= 0 || k > entries.len() {
        k
    } else {
        let t = entry_text(entries[k - 1]);
        let cost = estimated_tokens(t.len());
        if t.len() == 0 {
            stop_index(entries, k - 1, budget)
        } else if budget > cost + 50 {
            stop_index(entries, k - 1, (budget - cost) as nat)
        } else {
            k
        }
    }
}

/// The tokens left when the examination stops.
pub open spec fn budget_at_stop(entries: Seq<HistoryEntry>, k: int, budget: nat) -> nat
    decreases k,
{
    if k <= 0 || k > entries.len() {
        budget
    } else {
        let t = entry_text(entries[k - 1]);
        let cost = estimated_tokens(t.len());
        if t.len() == 0 {
            budget_at_stop(entries, k - 1, budget)
        } else if budget > cost + 50 {
            budget_at_stop(entries, k - 1, (budget - cost) as nat)
        } else {
            budget
        }
    }
}

/// The non-empty messages of `entries[m..k]`, newest first, whole.
pub open spec fn recent_messages(entries: Seq<HistoryEntry>, m: int, k: int) -> Seq<MessageView>
    decreases k - m,
{
    if k <= m {
        seq![]
    } else {
        let e = entries[k - 1];
        let t = entry_text(e);
        if t.len() == 0 {
            recent_messages(entries, m, k - 1)
        } else {
            seq![text_message(entry_role(e), t)] + recent_messages(entries, m, k - 1)
        }
    }
}

proof fn lemma_select_shape(entries: Seq<HistoryEntry>, k: int, budget: nat)
    requires
        0 <= k <= entries.len(),
    ensures
        ({
            let sel = select_recent(entries, k, budget);
            let m = stop_index(entries, k, budget);
            let whole = recent_messages(entries, m, k);
            let left = budget_at_stop(entries, k, budget);
            &&& 0 <= m <= k
            &&& whole_cost(entries, k, budget) + left == budget
            &&& sel.len() == whole.len() || sel.len() == whole.len() + 1
            &&& sel.subrange(0, whole.len() as int) == whole
            &&& sel.len() == whole.len() + 1 ==> m >= 1 && left > 200 && sel.last() == text_message(
                entry_role(entries[m - 1]),
                truncated_marker() + entry_text(entries[m - 1]).subrange(
                    cut_start(entry_text(entries[m - 1]).len(), left),
                    entry_text(entries[m - 1]).len() as int,
                ),
            )
        }),
    decreases k,
{
    if k > 0 {
        let t = entry_text(entries[k - 1]);
        let cost = estimated_tokens(t.len());
        if t.len() == 0 {
            lemma_select_shape(entries, k - 1, budget);
        } else if budget > cost + 50 {
            let b2 = (budget - cost) as nat;
            lemma_select_shape(entries, k - 1, b2);
            let m = stop_index(entries, k - 1, b2);
            let head = seq![text_message(entry_role(entries[k - 1]), t)];
            let rest = select_recent(entries, k - 1, b2);
            let whole = recent_messages(entries, m, k - 1);
            assert(recent_messages(entries, m, k) == head + whole);
            assert((head + rest).subrange(0, (head + whole).len() as int) =~= head + rest.subrange(0, whole.len() as int));
            if rest.len() == whole.len() + 1 {
                assert((head + rest).last() == rest.last());
            }
        } else {
            assert(recent_messages(entries, k, k) == Seq::<MessageView>::empty());
            let sel = select_recent(entries, k, budget);
            assert(sel.subrange(0, 0) =~= Seq::<MessageView>::empty());
        }
    } else {
        let sel = select_recent(entries, k, budget);
        assert(sel.subrange(0, 0) =~= Seq::<MessageView>::empty());
    }
}

/// Recency: the history that goes into a request is the non-empty messages of a final stretch
/// of the conversation, in their order and unchanged, possibly preceded by the end of the
/// message just before that stretch, behind `"...[TRUNCATED HISTORY] "`; and the messages kept
/// whole, together, take no more tokens than the budget.
pub proof fn law_history_keeps_recent_messages(entries: Seq<HistoryEntry>, budget: nat)
    ensures
        ({
            let n = entries.len() as int;
            let sel = history_selection(entries, budget);
            let m = stop_index(entries, n, budget);
            let whole = recent_messages(entries, m, n).reverse();
            let left = budget_at_stop(entries, n, budget);
            &&& 0 <= m <= n
            &&& whole_cost(entries, n, budget) <= budget
            &&& sel.len() == whole.len() || sel.len() == whole.len() + 1
            &&& sel.subrange(sel.len() - whole.len(), sel.len() as int) == whole
            &&& sel.len() == whole.len() + 1 ==> m >= 1 && left > 200 && sel[0] == text_message(
                entry_role(entries[m - 1]),
                truncated_marker() + entry_text(entries[m - 1]).subrange(
                    cut_start(entry_text(entries[m - 1]).len(), left),
                    entry_text(entries[m - 1]).len() as int,
                ),
            )
        }),
{
    let n = entries.len() as int;
    lemma_select_shape(entries, n, budget);
    let raw = select_recent(entries, n, budget);
    let sel = raw.reverse();
    let m = stop_index(entries, n, budget);
    let w = recent_messages(entries, m, n);
    assert(sel.subrange(sel.len() - w.len(), sel.len() as int) =~= raw.subrange(0, w.len() as int).reverse());
    if raw.len() == w.len() + 1 {
        assert(sel[0] == raw.last());
    }
}

/// The history that goes into a request has at most as many messages as the conversation.
pub proof fn law_history_not_longer_than_conversation(entries: Seq<HistoryEntry>, budget: nat)
    ensures
        history_selection(entries, budget).len() <= entries.len(),
{
    lemma_selection_len(entries, entries.len() as int, budget);
}

proof fn lemma_selection_len(entries: Seq<HistoryEntry>, k: int, budget: nat)
    requires
        0 <= k <= entries.len(),
    ensures
        select_recent(entries, k, budget).len() <= k,
    decreases k,
{
    if k > 0 {
        let t = entry_text(entries[k - 1]);
        let cost = estimated_tokens(t.len());
        if t.len() == 0 {
            lemma_selection_len(entries, k - 1, budget);
        } else if budget > cost + 50 {
            lemma_selection_len(entries, k - 1, (budget - cost) as nat);
        }
    }
}

} // verus!
