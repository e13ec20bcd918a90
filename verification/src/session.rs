//! The round trips of one chat: the messages streamed to the client, the cap on model
//! requests, and what a tool round adds to the conversation.
use vstd::prelude::*;
use vstd::string::StringSliceAdditionalSpecFns;
use crate::message::{ChatMessage, MessageView, text_message, messages_view, new_text_message};
use crate::text::{lit, concat, slice_copy, find, lemma_find_from_range};
use crate::stream::{
    SseBuffer, StreamState, StreamView, ToolCommand, split_line, line_kind, SseLine, SseLineView, classify_line,
    parse_delta, delta_of, event_delta_fields, delta_step, chunks_view, utf8_lossy,
};
use crate::tools::{ToolPlan, ToolOutcome, planned, plan_tool, announce, announcement, display_arg_ok, display_arg_fits};

verus! {

/// The most requests made to the model for one prompt.
pub const MAX_ITERATIONS: usize = 15;

/// A message streamed to the client: `message_id` is the request id (`"mock_msg"` where there
/// is none); `chunk` is absent on an empty final message.
pub struct StreamMessage {
    pub message_id: Vec<u8>,
    pub chunk: Option<Vec<u8>>,
    pub done: bool,
    pub request_id: Option<Vec<u8>>,
}

pub open spec fn opt_bytes(o: Option<Vec<u8>>) -> Option<Seq<u8>> {
    match o {
        Some(v) => Some(v@),
        None => None,
    }
}

fn copy_opt(o: &Option<Vec<u8>>) -> (r: Option<Vec<u8>>)
    ensures
        opt_bytes(r) == opt_bytes(*o),
{
    match o {
        Some(v) => {
            assert(v@.subrange(0, v@.len() as int) =~= v@);
            Some(slice_copy(v.as_slice(), 0, v.len()))
        },
        None => None,
    }
}

/// The message that carries a chunk of the reply to the client.
pub fn stream_message(chunk: Vec<u8>, done: bool, request_id: &Option<Vec<u8>>) -> (m: StreamMessage)
    ensures
        m.message_id@ == match opt_bytes(*request_id) {
            Some(id) => id,
            None => "mock_msg".spec_bytes(),
        },
        opt_bytes(m.chunk) == (if chunk@.len() == 0 && done { None } else { Some(chunk@) }),
        m.done == done,
        opt_bytes(m.request_id) == opt_bytes(*request_id),
{
    let message_id = match request_id {
        Some(id) => {
            assert(id@.subrange(0, id@.len() as int) =~= id@);
            slice_copy(id.as_slice(), 0, id.len())
        },
        None => lit("mock_msg"),
    };
    let c = if chunk.len() == 0 && done { None } else { Some(chunk) };
    StreamMessage { message_id, chunk: c, done, request_id: copy_opt(request_id) }
}

/// The text sent when the requests for a prompt run out.
pub open spec fn exhausted_text() -> Seq<u8> {
    "\n\n**Error:** Max codebase iterations reached.".spec_bytes()
}

/// The text sent when the model cannot be reached; `error` is how the error displays.
pub open spec fn connect_error_text(error: Seq<u8>) -> Seq<u8> {
    "\n\n**Error:** Failed to connect to AI provider: ".spec_bytes() + error
}

/// The text sent when the requests for a prompt run out.
pub fn exhausted_message() -> (t: Vec<u8>)
    ensures
        t@ == exhausted_text(),
{
    lit("\n\n**Error:** Max codebase iterations reached.")
}

/// The text sent when the model cannot be reached.
pub fn connect_error_message(error: &[u8]) -> (t: Vec<u8>)
    ensures
        t@ == connect_error_text(error@),
{
    let head = lit("\n\n**Error:** Failed to connect to AI provider: ");
    concat(head.as_slice(), error)
}

/// The conversation of one prompt across its requests to the model.
pub struct AgentLoop {
    /// Requests made so far.
    pub iteration: usize,
    /// The messages of the next request.
    pub messages: Vec<ChatMessage>,
}

/// Whether another request may be made after `iteration` requests, and the count then.
pub open spec fn next_round(iteration: nat) -> (bool, nat) {
    if iteration >= MAX_ITERATIONS { (false, iteration) } else { (true, iteration + 1) }
}

/// The messages that a tool round adds: what the assistant wrote, and the tool's result as a
/// system message.
pub open spec fn tool_round_messages(response: Seq<u8>, result: Seq<u8>) -> Seq<MessageView> {
    seq![
        text_message("assistant".spec_bytes(), response),
        text_message("system".spec_bytes(), "Tool Result:\n".spec_bytes() + result),
    ]
}

impl AgentLoop {
    /// Starts with the messages of the first request.
    pub fn new(messages: Vec<ChatMessage>) -> (l: AgentLoop)
        ensures
            l.iteration == 0,
            l.messages@ == messages@,
    {
        AgentLoop { iteration: 0, messages }
    }

    /// Whether another request may be made; counts it where it may.
    pub fn begin_round(&mut self) -> (go: bool)
        ensures
            (go, final(self).iteration as nat) == next_round(old(self).iteration as nat),
            final(self).messages@ == old(self).messages@,
    {
        if self.iteration >= MAX_ITERATIONS {
            false
        } else {
            self.iteration = self.iteration + 1;
            true
        }
    }

    /// Adds a tool round: the assistant's reply so far and the tool's result.
    pub fn record_tool_round(&mut self, response: Vec<u8>, result: &[u8])
        ensures
            messages_view(final(self).messages@) == messages_view(old(self).messages@) + tool_round_messages(response@, result@),
            final(self).iteration == old(self).iteration,
    {
        let ghost before = messages_view(self.messages@);
        let ghost rv = response@;
        self.messages.push(new_text_message(lit("assistant"), response));
        let head = lit("Tool Result:\n");
        let content = concat(head.as_slice(), result);
        self.messages.push(new_text_message(lit("system"), content));
        assert(messages_view(self.messages@) =~= before + tool_round_messages(rv, result@));
    }
}

/// A message to send to the client: a chunk of the reply, and whether it ends the reply.
pub struct Outgoing {
    pub chunk: Vec<u8>,
    pub done: bool,
}

pub open spec fn outgoing_view(v: Seq<Outgoing>) -> Seq<(Seq<u8>, bool)> {
    v.map_values(|o: Outgoing| (o.chunk@, o.done))
}

/// Where a chat stands: before a request, reading the model's stream, waiting for a tool,
/// or finished.
pub enum Phase {
    Ready,
    Streaming,
    Tool,
    Done,
}

/// One chat, from the prompt's first request to the end of the reply.
pub struct ChatSession {
    pub agent: AgentLoop,
    pub phase: Phase,
    /// The text of the current stream that does not yet end a line.
    pub buffer: SseBuffer,
    /// The reply streamed by the current request.
    pub stream: StreamState,
    /// The project root, empty where there is none.
    pub root: Vec<u8>,
}

/// Whether the session starts another request after a round: `Request` to make it, or the
/// final message where the requests have run out.
pub enum RoundStart {
    Request,
    Exhausted(Outgoing),
}

pub open spec fn initial_stream() -> StreamView {
    StreamView { is_reasoning: false, reasoning_field_used: false, response: Seq::<u8>::empty(), command: None }
}

/// What a line of the stream does to the reply: a `data:` line whose event has a delta takes
/// that delta in; any other line nothing.
pub open spec fn line_step(s: StreamView, line: Seq<u8>) -> (StreamView, Seq<Seq<u8>>) {
    match line_kind(line) {
        SseLineView::Data(data) => match delta_of(event_delta_fields(data)) {
            Some((reasoning, content)) => delta_step(s, reasoning, content),
            None => (s, seq![]),
        },
        _ => (s, seq![]),
    }
}

/// Every complete line of `buffer` taken in, in order: the text left, the reply's state, and
/// the chunks sent.
pub open spec fn drain_lines(buffer: Seq<u8>, s: StreamView) -> (Seq<u8>, StreamView, Seq<Seq<u8>>)
    decreases buffer.len(),
{
    match split_line(buffer) {
        Some((line, rest)) => {
            proof {
                lemma_find_from_range(buffer, seq![10u8], 0);
            }
            let (s1, c1) = line_step(s, line);
            let (b2, s2, c2) = drain_lines(rest, s1);
            (b2, s2, c1 + c2)
        },
        None => (buffer, s, seq![]),
    }
}

/// The messages of a step end the reply at most once, with the last of them, and do so
/// exactly where the step ends the session.
pub open spec fn ends_once(out: Seq<(Seq<u8>, bool)>, ended: bool) -> bool {
    &&& forall|i: int| 0 <= i < out.len() - 1 ==> !(#[trigger] out[i]).1
    &&& out.len() > 0 ==> (out.last().1 <==> ended)
    &&& ended ==> out.len() > 0
}

impl ChatSession {
    /// A session for the messages of the first request.
    pub fn new(messages: Vec<ChatMessage>, root: Vec<u8>) -> (c: ChatSession)
        ensures
            c.phase is Ready,
            c.agent.iteration == 0,
            c.agent.messages@ == messages@,
            c.root@ == root@,
    {
        ChatSession { agent: AgentLoop::new(messages), phase: Phase::Ready, buffer: SseBuffer::new(), stream: StreamState::new(), root }
    }

    /// Starts a round: a new request while the requests last, with an empty stream; else the
    /// final message, which ends the session.
    pub fn start_round(&mut self) -> (r: RoundStart)
        requires
            old(self).phase is Ready,
        ensures
            final(self).agent.iteration as nat == next_round(old(self).agent.iteration as nat).1,
            final(self).agent.messages@ == old(self).agent.messages@,
            final(self).root@ == old(self).root@,
            next_round(old(self).agent.iteration as nat).0 ==> r is Request && final(self).phase is Streaming
                && final(self).buffer.buffer@ == Seq::<u8>::empty() && final(self).stream@ == initial_stream(),
            !next_round(old(self).agent.iteration as nat).0 ==> (r matches RoundStart::Exhausted(m)
                && m.chunk@ == exhausted_text() && m.done) && final(self).phase is Done,
    {
        if self.agent.begin_round() {
            self.phase = Phase::Streaming;
            self.buffer = SseBuffer::new();
            self.stream = StreamState::new();
            RoundStart::Request
        } else {
            self.phase = Phase::Done;
            RoundStart::Exhausted(Outgoing { chunk: exhausted_message(), done: true })
        }
    }

    /// The model could not be reached: the final message, which ends the session.
    pub fn connect_failed(&mut self, error: &[u8]) -> (m: Outgoing)
        requires
            old(self).phase is Streaming,
        ensures
            m.chunk@ == connect_error_text(error@),
            m.done,
            final(self).phase is Done,
            final(self).agent == old(self).agent,
    {
        self.phase = Phase::Done;
        Outgoing { chunk: connect_error_message(error), done: true }
    }

    /// Takes in what the stream delivered next: a chunk of the body, or `None` where the
    /// chunk failed. Where the request was cancelled, nothing is taken in and reading stops.
    /// Else every line that the chunk completes is taken in, and the chunks to send are
    /// returned (none ends the reply); reading goes on until the reply holds a tool command.
    pub fn on_chunk(&mut self, chunk: Option<&[u8]>, cancelled: bool) -> (r: (Vec<Vec<u8>>, bool))
        requires
            old(self).phase is Streaming,
        ensures
            final(self).phase is Streaming,
            final(self).agent == old(self).agent,
            final(self).root == old(self).root,
            cancelled ==> r.0@.len() == 0 && !r.1 && final(self).buffer.buffer@ == old(self).buffer.buffer@
                && final(self).stream@ == old(self).stream@,
            !cancelled ==> {
                let text = match chunk {
                    Some(c) => utf8_lossy(c@),
                    None => Seq::<u8>::empty(),
                };
                let (b, s, cs) = drain_lines(old(self).buffer.buffer@ + text, old(self).stream@);
                &&& final(self).buffer.buffer@ == b
                &&& final(self).stream@ == s
                &&& chunks_view(r.0@) == cs
                &&& r.1 == (s.command is None)
            },
    {
        let mut out: Vec<Vec<u8>> = Vec::new();
        if cancelled {
            return (out, false);
        }
        match chunk {
            Some(c) => self.buffer.push_chunk(c),
            None => {
                assert(self.buffer.buffer@ =~= self.buffer.buffer@ + Seq::<u8>::empty());
            },
        }
        let ghost target = drain_lines(self.buffer.buffer@, self.stream@);
        assert(chunks_view(out@) =~= Seq::<Seq<u8>>::empty());
        loop
            invariant
                self.phase is Streaming,
                self.agent == old(self).agent,
                self.root == old(self).root,
                ({
                    let (b, s, cs) = drain_lines(self.buffer.buffer@, self.stream@);
                    target == (b, s, chunks_view(out@) + cs)
                }),
            ensures
                self.phase is Streaming,
                self.agent == old(self).agent,
                self.root == old(self).root,
                target == (self.buffer.buffer@, self.stream@, chunks_view(out@)),
            decreases self.buffer.buffer@.len(),
        {
            let ghost b0 = self.buffer.buffer@;
            let ghost s0 = self.stream@;
            let ghost o0 = chunks_view(out@);
            match self.buffer.next_line() {
                Some(line) => {
                    proof {
                        lemma_find_from_range(b0, seq![10u8], 0);
                    }
                    let mut sent: Vec<Vec<u8>> = Vec::new();
                    if let SseLine::Data(data) = classify_line(line.as_slice()) {
                        if let Some(delta) = parse_delta(data.as_slice()) {
                            sent = self.stream.on_delta(&delta);
                        }
                    }
                    assert(chunks_view(sent@) == line_step(s0, line@).1);
                    assert(self.stream@ == line_step(s0, line@).0);
                    let ghost before = out@;
                    out.append(&mut sent);
                    proof {
                        let (b2, s2, c2) = drain_lines(self.buffer.buffer@, self.stream@);
                        assert(chunks_view(out@) =~= o0 + line_step(s0, line@).1);
                        assert(o0 + (line_step(s0, line@).1 + c2) =~= chunks_view(out@) + c2);
                    }
                },
                None => {
                    proof {
                        assert(chunks_view(out@) + Seq::<Seq<u8>>::empty() =~= chunks_view(out@));
                    }
                    break;
                },
            }
        }
        let keep = self.stream.command.is_none();
        (out, keep)
    }

    /// Whether the tool command of the reply, if any, can be announced (`display_arg_ok`).
    pub fn command_fits(&self) -> (b: bool)
        ensures
            b == (self.stream@.command matches Some((name, arg)) ==> display_arg_ok(name, arg)),
    {
        match &self.stream.command {
            Some(c) => display_arg_fits(c.name.as_slice(), c.arg.as_slice()),
            None => true,
        }
    }

    /// Ends the stream of a request: a `</think>` where the reply stopped inside reasoning
    /// without a tool command; then, where the reply holds a tool command, its announcement
    /// and the tool's plan, and the session waits for the tool; else the empty message that
    /// ends the reply, and the session is done.
    pub fn end_stream(&mut self) -> (r: (Vec<Outgoing>, Option<ToolPlan>))
        requires
            old(self).phase is Streaming,
            old(self).stream@.command matches Some((name, arg)) ==> display_arg_ok(name, arg),
        ensures
            final(self).agent == old(self).agent,
            final(self).root == old(self).root,
            final(self).stream@.response == old(self).stream@.response,
            ({
                let close: Seq<(Seq<u8>, bool)> = if old(self).stream@.is_reasoning && old(self).stream@.command is None {
                    seq![("</think>".spec_bytes(), false)]
                } else {
                    seq![]
                };
                match old(self).stream@.command {
                    Some((name, arg)) => outgoing_view(r.0@) == close + seq![(announcement(name, arg), false)]
                        && (r.1 matches Some(p) && planned(p, name, arg, old(self).root@)) && final(self).phase is Tool,
                    None => outgoing_view(r.0@) == close + seq![(Seq::<u8>::empty(), true)] && r.1 is None
                        && final(self).phase is Done,
                }
            }),
            ends_once(outgoing_view(r.0@), final(self).phase is Done),
    {
        let mut out: Vec<Outgoing> = Vec::new();
        if let Some(close) = self.stream.finish() {
            out.push(Outgoing { chunk: close, done: false });
        }
        let ghost close_view = outgoing_view(out@);
        match self.stream.take_command() {
            Some(cmd) => {
                let ann = announce(cmd.name.as_slice(), cmd.arg.as_slice());
                out.push(Outgoing { chunk: ann, done: false });
                let plan = plan_tool(cmd.name.as_slice(), cmd.arg.as_slice(), self.root.as_slice());
                self.phase = Phase::Tool;
                assert(outgoing_view(out@) =~= close_view + seq![(announcement(cmd.name@, cmd.arg@), false)]);
                (out, Some(plan))
            },
            None => {
                out.push(Outgoing { chunk: Vec::new(), done: true });
                self.phase = Phase::Done;
                assert(outgoing_view(out@) =~= close_view + seq![(Seq::<u8>::empty(), true)]);
                (out, None)
            },
        }
    }

    /// The tool has run: its feedback for the user, and a tool round added to the messages of
    /// the next request (the reply streamed so far and the tool's result).
    pub fn tool_finished(&mut self, outcome: ToolOutcome) -> (m: Outgoing)
        requires
            old(self).phase is Tool,
        ensures
            m.chunk@ == outcome.ui@,
            !m.done,
            final(self).phase is Ready,
            final(self).agent.iteration == old(self).agent.iteration,
            messages_view(final(self).agent.messages@) == messages_view(old(self).agent.messages@)
                + tool_round_messages(old(self).stream@.response, outcome.result@),
            final(self).root@ == old(self).root@,
    {
        let response = slice_copy(self.stream.response.as_slice(), 0, self.stream.response.len());
        assert(self.stream.response@.subrange(0, self.stream.response@.len() as int) =~= self.stream.response@);
        self.agent.record_tool_round(response, outcome.result.as_slice());
        self.phase = Phase::Ready;
        Outgoing { chunk: outcome.ui, done: false }
    }
}

/// The messages of the steps of a session, one after the other.
pub open spec fn all_messages(steps: Seq<Seq<(Seq<u8>, bool)>>) -> Seq<(Seq<u8>, bool)>
    decreases steps.len(),
{
    if steps.len() == 0 {
        seq![]
    } else {
        all_messages(steps.drop_last()) + steps.last()
    }
}

/// A session sends exactly one message that ends the reply, and it is the last: where every
/// step ends the reply at most once, with its last message and only where it ends the
/// session (as every step of `ChatSession` does), and no step follows the one that ends it
/// (every step requires a session that is not done), no message before the last ends the
/// reply, and the last does exactly where the session ended.
pub proof fn law_reply_ends_once(steps: Seq<Seq<(Seq<u8>, bool)>>, ended: Seq<bool>)
    requires
        steps.len() == ended.len(),
        forall|i: int| 0 <= i < steps.len() ==> ends_once(#[trigger] steps[i], ended[i]),
        forall|i: int| 0 <= i < steps.len() - 1 ==> !#[trigger] ended[i],
    ensures
        ends_once(all_messages(steps), steps.len() > 0 && ended.last()),
    decreases steps.len(),
{
    if steps.len() > 0 {
        let prev = steps.drop_last();
        let pe = ended.drop_last();
        assert forall|i: int| 0 <= i < prev.len() implies ends_once(#[trigger] prev[i], pe[i]) by {
            assert(prev[i] == steps[i]);
            assert(pe[i] == ended[i]);
        }
        assert forall|i: int| 0 <= i < prev.len() - 1 implies !#[trigger] pe[i] by {
            assert(pe[i] == ended[i]);
        }
        law_reply_ends_once(prev, pe);
        let a = all_messages(prev);
        let b = steps.last();
        assert(ends_once(b, ended.last())) by {
            assert(b == steps[steps.len() - 1]);
        }
        if prev.len() > 0 {
            assert(!ended[prev.len() - 1]);
            assert(pe.last() == ended[prev.len() - 1]);
        }
        let all = a + b;
        assert forall|i: int| 0 <= i < all.len() - 1 implies !(#[trigger] all[i]).1 by {
            if i < a.len() {
                assert(all[i] == a[i]);
                if i == a.len() - 1 {
                    assert(a.last() == a[i]);
                }
            } else {
                assert(all[i] == b[i - a.len()]);
            }
        }
        if b.len() > 0 {
            assert(all.last() == b.last());
        } else if a.len() > 0 {
            assert(all.last() == a.last());
        }
    }
}

/// The requests granted by `calls` calls of `begin_round` from `iteration`.
pub open spec fn rounds_granted(iteration: nat, calls: nat) -> nat
    decreases calls,
{
    if calls == 0 {
        0
    } else {
        let (go, next) = next_round(iteration);
        (if go { 1nat } else { 0nat }) + rounds_granted(next, (calls - 1) as nat)
    }
}

/// However often a new loop asks, at most `MAX_ITERATIONS` requests are made to the model
/// for one prompt, and every request is granted until then.
pub proof fn law_requests_are_capped(calls: nat)
    ensures
        rounds_granted(0, calls) == if calls <= MAX_ITERATIONS { calls } else { MAX_ITERATIONS as nat },
{
    lemma_rounds_granted(0, calls);
}

proof fn lemma_rounds_granted(iteration: nat, calls: nat)
    requires
        iteration <= MAX_ITERATIONS,
    ensures
        rounds_granted(iteration, calls) == if calls <= MAX_ITERATIONS - iteration { calls } else { (MAX_ITERATIONS - iteration) as nat },
    decreases calls,
{
    if calls > 0 {
        let (go, next) = next_round(iteration);
        lemma_rounds_granted(next, (calls - 1) as nat);
    }
}

} // verus!
