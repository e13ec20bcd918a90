//! The messages of the first request: system prompt, the history that fits, the user message.
use vstd::prelude::*;
use vstd::string::StringSliceAdditionalSpecFns;
use crate::budget::{estimated_tokens, estimate_tokens, sat_sub, SAFETY_MARGIN};
use crate::history::{HistoryEntry, history_selection, entries_fit, select_cuts_ok, select_history, history_cuts_ok, entry_text_of};
use crate::message::{ChatMessage, ContentPart, MessageContent, MessageView, ContentView, PartView, text_message, messages_view, new_text_message};
use crate::prompt::{
    Profile, ActiveFile, KnowledgeDoc, Attachment, system_text, context_text, context_text_ok,
    with_attachments, parts_view, build_system_text, build_active_file_block, active_file_block_fits,
    build_knowledge_blocks, knowledge_blocks_fit, add_attachments,
};
use crate::text::{lit, push_all, concat, slice_copy};

verus! {

/// What the first request of a chat is built from.
pub struct ConversationInput {
    pub profile: Option<Profile>,
    /// The new prompt of the user.
    pub prompt: Vec<u8>,
    pub attachments: Vec<Attachment>,
    pub active_file: Option<ActiveFile>,
    /// The knowledge documents that were read, in the order of the context's list.
    pub knowledge: Vec<KnowledgeDoc>,
    /// The earlier messages, oldest first, without the new prompt.
    pub history: Vec<HistoryEntry>,
    pub context_window: usize,
    pub output_reserve: usize,
    pub file_budget: usize,
    pub knowledge_budget: usize,
}

/// The context of the input.
pub open spec fn input_context(inp: ConversationInput) -> Seq<u8> {
    context_text(inp.profile, inp.active_file, inp.knowledge@, inp.file_budget as nat, inp.knowledge_budget as nat)
}

/// The parts of the user message and the text its size is estimated from: the prompt and the
/// attachments; where there is context, the first part and the estimation become the context,
/// a blank line and the prompt.
pub open spec fn user_parts(inp: ConversationInput) -> (Seq<PartView>, Seq<u8>) {
    let (ps, est) = with_attachments(seq![PartView::Text(inp.prompt@)], inp.prompt@, inp.attachments@);
    let ctx = input_context(inp);
    if ctx.len() > 0 {
        let np = ctx + "\n\n".spec_bytes() + inp.prompt@;
        let ps2 = if ps.len() > 0 && ps[0] is Text { ps.update(0, PartView::Text(np)) } else { ps };
        (ps2, np)
    } else {
        (ps, est)
    }
}

/// The tokens left for the history: the window less the reply's reserve, the safety margin,
/// the system prompt and the user message.
pub open spec fn history_budget(inp: ConversationInput) -> nat {
    sat_sub(
        sat_sub(
            sat_sub(sat_sub(inp.context_window as nat, inp.output_reserve as nat), SAFETY_MARGIN as nat),
            estimated_tokens(system_text(inp.profile).len()),
        ),
        estimated_tokens(user_parts(inp).1.len()),
    )
}

/// The user message: plain text where it has one part, else the list of parts.
pub open spec fn user_message(ps: Seq<PartView>) -> MessageView {
    if ps.len() == 1 {
        text_message("user".spec_bytes(), match ps[0] {
            PartView::Text(t) => t,
            PartView::ImageUrl(_) => Seq::<u8>::empty(),
        })
    } else {
        MessageView { role: "user".spec_bytes(), content: ContentView::Parts(ps) }
    }
}

/// The messages of the first request: the system prompt where it is not empty, the history
/// that fits, and the user message.
pub open spec fn conversation(inp: ConversationInput) -> Seq<MessageView> {
    let sys = system_text(inp.profile);
    let head: Seq<MessageView> = if sys.len() > 0 { seq![text_message("system".spec_bytes(), sys)] } else { seq![] };
    head + history_selection(inp.history@, history_budget(inp)) + seq![user_message(user_parts(inp).0)]
}

/// The first request can be built: every earlier message fits in a `String`, no block or
/// message is cut inside a character (where `str` slicing panics) and no block's byte limit
/// overflows `usize` (where the multiplication panics).
pub open spec fn conversation_ok(inp: ConversationInput) -> bool {
    &&& context_text_ok(inp.profile, inp.active_file, inp.knowledge@, inp.file_budget as nat, inp.knowledge_budget as nat)
    &&& entries_fit(inp.history@)
    &&& select_cuts_ok(inp.history@, inp.history@.len() as int, history_budget(inp))
}

/// Builds the context text.
fn build_context(inp: &ConversationInput) -> (c: Vec<u8>)
    requires
        context_text_ok(inp.profile, inp.active_file, inp.knowledge@, inp.file_budget as nat, inp.knowledge_budget as nat),
    ensures
        c@ == input_context(*inp),
{
    let a = build_active_file_block(&inp.profile, &inp.active_file, inp.file_budget);
    let k = build_knowledge_blocks(&inp.knowledge, inp.knowledge_budget);
    concat(a.as_slice(), k.as_slice())
}

/// Builds the parts of the user message and the estimation text.
fn build_user_parts(inp: &ConversationInput, ctx: &Vec<u8>) -> (r: (Vec<ContentPart>, Vec<u8>))
    requires
        ctx@ == input_context(*inp),
    ensures
        (parts_view(r.0@), r.1@) == user_parts(*inp),
{
    let first = slice_copy(inp.prompt.as_slice(), 0, inp.prompt.len());
    assert(first@ =~= inp.prompt@);
    let mut parts: Vec<ContentPart> = Vec::new();
    parts.push(ContentPart::Text(first));
    let mut est = slice_copy(inp.prompt.as_slice(), 0, inp.prompt.len());
    assert(est@ =~= inp.prompt@);
    assert(parts_view(parts@) =~= seq![PartView::Text(inp.prompt@)]);
    add_attachments(&mut parts, &mut est, &inp.attachments);
    if ctx.len() > 0 {
        let sep = lit("\n\n");
        let mut np = concat(ctx.as_slice(), sep.as_slice());
        push_all(&mut np, inp.prompt.as_slice());
        let ghost ps = parts_view(parts@);
        let is_text = parts.len() > 0 && match &parts[0] {
            ContentPart::Text(_) => true,
            ContentPart::ImageUrl(_) => false,
        };
        let np2 = slice_copy(np.as_slice(), 0, np.len());
        assert(np2@ =~= np@);
        if is_text {
            parts.set(0, ContentPart::Text(np2));
            assert(parts_view(parts@) =~= ps.update(0, PartView::Text(np@)));
        }
        (parts, np)
    } else {
        (parts, est)
    }
}

/// Builds the user message from its parts.
fn build_user_message(parts: Vec<ContentPart>) -> (m: ChatMessage)
    ensures
        m@ == user_message(parts_view(parts@)),
{
    let role = lit("user");
    if parts.len() == 1 {
        let text = match &parts[0] {
            ContentPart::Text(t) => slice_copy(t.as_slice(), 0, t.len()),
            ContentPart::ImageUrl(_) => Vec::new(),
        };
        proof {
            match parts@[0] {
                ContentPart::Text(t) => assert(t@.subrange(0, t@.len() as int) =~= t@),
                ContentPart::ImageUrl(_) => assert(text@ =~= Seq::<u8>::empty()),
            }
        }
        new_text_message(role, text)
    } else {
        ChatMessage { role, content: MessageContent::Parts(parts) }
    }
}

/// The tokens left for the history, computed.
fn history_budget_of(inp: &ConversationInput, system: &Vec<u8>, estimation: &Vec<u8>) -> (b: usize)
    requires
        system@ == system_text(inp.profile),
        estimation@ == user_parts(*inp).1,
    ensures
        b == history_budget(*inp),
{
    inp.context_window.saturating_sub(inp.output_reserve).saturating_sub(SAFETY_MARGIN).saturating_sub(
        estimate_tokens(system.as_slice()),
    ).saturating_sub(estimate_tokens(estimation.as_slice()))
}

/// Builds the messages of the first request (see `conversation`).
pub fn build_conversation(inp: &ConversationInput) -> (r: Vec<ChatMessage>)
    requires
        conversation_ok(*inp),
    ensures
        messages_view(r@) == conversation(*inp),
{
    let system = build_system_text(&inp.profile);
    let ctx = build_context(inp);
    let (parts, est) = build_user_parts(inp, &ctx);
    let budget = history_budget_of(inp, &system, &est);
    let hist = select_history(&inp.history, budget);
    let mut msgs: Vec<ChatMessage> = Vec::new();
    let ghost sys_view = system@;
    if system.len() > 0 {
        let role = lit("system");
        msgs.push(new_text_message(role, system));
    }
    let ghost head = messages_view(msgs@);
    assert(head =~= (if sys_view.len() > 0 { seq![text_message("system".spec_bytes(), sys_view)] } else { Seq::<MessageView>::empty() }));
    let mut hist = hist;
    let ghost hv = messages_view(hist@);
    msgs.append(&mut hist);
    assert(messages_view(msgs@) =~= head + hv);
    let user = build_user_message(parts);
    let ghost before = messages_view(msgs@);
    msgs.push(user);
    assert(messages_view(msgs@) =~= before + seq![user@]);
    msgs
}

/// Whether `build_conversation` can build the first request (see `conversation_ok`).
pub fn conversation_fits(inp: &ConversationInput) -> (b: bool)
    ensures
        b == conversation_ok(*inp),
{
    if !active_file_block_fits(&inp.profile, &inp.active_file, inp.file_budget) {
        return false;
    }
    if !knowledge_blocks_fit(&inp.knowledge, inp.knowledge_budget) {
        return false;
    }
    let mut i: usize = 0;
    while i < inp.history.len()
        invariant
            i <= inp.history@.len(),
            forall|j: int| 0 <= j < i ==> #[trigger] crate::history::entry_text(inp.history@[j]).len() <= isize::MAX,
        decreases inp.history@.len() - i,
    {
        let t = entry_text_of(&inp.history[i]);
        if t.len() > isize::MAX as usize {
            return false;
        }
        i = i + 1;
    }
    let system = build_system_text(&inp.profile);
    let ctx = build_context(inp);
    let (_parts, est) = build_user_parts(inp, &ctx);
    let budget = history_budget_of(inp, &system, &est);
    history_cuts_ok(&inp.history, budget)
}

/// The context is put in front of the user's prompt, never into the system prompt: the first
/// message of a request depends on the profile alone, so that two requests of the same
/// profile start alike whatever their prompts, attachments, files and history.
pub proof fn law_system_prompt_independent_of_context(a: ConversationInput, b: ConversationInput)
    requires
        a.profile == b.profile,
        system_text(a.profile).len() > 0,
    ensures
        conversation(a)[0] == conversation(b)[0],
        conversation(a)[0] == text_message("system".spec_bytes(), system_text(a.profile)),
{
}

/// The user's message always comes last, after the system prompt and the history.
pub proof fn law_user_message_last(inp: ConversationInput)
    ensures
        conversation(inp).len() >= 1,
        conversation(inp).last() == user_message(user_parts(inp).0),
{
}

/// The history gets what the window leaves: the window less the reply's reserve, the 500-token
/// margin, the system prompt's tokens and the user message's tokens (a quarter of the bytes,
/// rounded up), or nothing where they fill the window; so the system prompt, the user
/// message, the history budget, the reserve and the margin never exceed the window together.
pub proof fn law_history_budget_fills_the_window(inp: ConversationInput)
    ensures
        ({
            let sys = (system_text(inp.profile).len() + 3) / 4;
            let user = (user_parts(inp).1.len() + 3) / 4;
            let taken = inp.output_reserve + 500 + sys + user;
            history_budget(inp) == if inp.context_window >= taken { inp.context_window - taken } else { 0 }
        }),
        history_budget(inp) > 0 ==> (system_text(inp.profile).len() + 3) / 4 + (user_parts(inp).1.len() + 3) / 4
            + history_budget(inp) + inp.output_reserve + 500 <= inp.context_window,
{
}

} // verus!
