//! The server-sent-event stream of a chat completion: lines, `data:` payloads, and what the
//! reasoning and content deltas make of the reply shown to the user.
use vstd::prelude::*;
use vstd::string::StringSliceAdditionalSpecFns;
use vstd::utf8::valid_utf8;
use crate::json::{JsonNode, JsonView, parse_json, get_field, parse_str, field, json_str, json_node, fields_view, texts_view};
use crate::text::{find, find_from, lemma_find_skip, lemma_rfind_skip, rfind, rfind_at_most, occurs_at, trim, trim_end, starts_with, contains, lemma_find_from_range, find_in, rfind_in, trim_end_len, trimmed, slice_copy, push_all, concat, lit, starts_with_in, bytes_eq, contains_in};

verus! {

/// What `String::from_utf8_lossy` makes of a byte chunk, as UTF-8 bytes.
pub uninterp spec fn utf8_lossy(bytes: Seq<u8>) -> Seq<u8>;

/// `String::from_utf8_lossy`: the chunk, with each invalid sequence replaced by U+FFFD; a
/// chunk that is valid UTF-8 is returned unchanged.
#[verifier::external_body]
pub(crate) fn decode_lossy(bytes: &[u8]) -> (r: Vec<u8>)
    ensures
        r@ == utf8_lossy(bytes@),
        valid_utf8(bytes@) ==> r@ == bytes@,
{
    String::from_utf8_lossy(bytes).into_owned().into_bytes()
}

/// The text received so far that does not yet end a line.
pub struct SseBuffer {
    pub buffer: Vec<u8>,
}

/// The line that `next_line` takes from a buffer, and the buffer that is left, where the
/// buffer holds a newline.
pub open spec fn split_line(buffer: Seq<u8>) -> Option<(Seq<u8>, Seq<u8>)> {
    match find(buffer, seq![10u8]) {
        Some(p) => Some((trim_end(buffer.subrange(0, p)), buffer.subrange(p + 1, buffer.len() as int))),
        None => None,
    }
}

impl SseBuffer {
    pub fn new() -> (b: SseBuffer)
        ensures
            b.buffer@ == Seq::<u8>::empty(),
    {
        SseBuffer { buffer: Vec::new() }
    }

    /// Adds a chunk of the response body, decoded as `String::from_utf8_lossy` decodes it.
    pub fn push_chunk(&mut self, chunk: &[u8])
        ensures
            final(self).buffer@ == old(self).buffer@ + utf8_lossy(chunk@),
            valid_utf8(chunk@) ==> final(self).buffer@ == old(self).buffer@ + chunk@,
    {
        let text = decode_lossy(chunk);
        self.push_text(text.as_slice());
    }

    /// Adds decoded text to the buffer.
    pub fn push_text(&mut self, text: &[u8])
        ensures
            final(self).buffer@ == old(self).buffer@ + text@,
    {
        push_all(&mut self.buffer, text);
    }

    /// Takes the first complete line, without its newline and trailing whitespace.
    pub fn next_line(&mut self) -> (r: Option<Vec<u8>>)
        ensures
            match split_line(old(self).buffer@) {
                Some((line, rest)) => r matches Some(l) && l@ == line && final(self).buffer@ == rest,
                None => r is None && final(self).buffer@ == old(self).buffer@,
            },
    {
        let nl: [u8; 1] = [10u8];
        assert(nl@ =~= seq![10u8]);
        match find_in(self.buffer.as_slice(), &nl) {
            Some(p) => {
                proof {
                    lemma_find_from_range(self.buffer@, seq![10u8], 0);
                }
                let end = trim_end_len(vstd::slice::slice_subrange(self.buffer.as_slice(), 0, p));
                let ghost head = self.buffer@.subrange(0, p as int);
                assert(self.buffer@.subrange(0, p as int) =~= head);
                let line = slice_copy(self.buffer.as_slice(), 0, end);
                let n = self.buffer.len();
                let rest = slice_copy(self.buffer.as_slice(), p + 1, n);
                proof {
                    assert(head.subrange(0, end as int) =~= self.buffer@.subrange(0, end as int));
                }
                self.buffer = rest;
                Some(line)
            },
            None => None,
        }
    }
}

/// A line of the event stream.
pub enum SseLine {
    /// `data: [DONE]`
    Done,
    /// `data: <payload>`
    Data(Vec<u8>),
    /// Any other line.
    Other,
}

pub enum SseLineView {
    Done,
    Data(Seq<u8>),
    Other,
}

impl View for SseLine {
    type V = SseLineView;

    open spec fn view(&self) -> SseLineView {
        match self {
            SseLine::Done => SseLineView::Done,
            SseLine::Data(d) => SseLineView::Data(d@),
            SseLine::Other => SseLineView::Other,
        }
    }
}

/// What a line of the stream is: a `data: ` line carries the rest of the line, unless the rest
/// is `[DONE]`.
pub open spec fn line_kind(line: Seq<u8>) -> SseLineView {
    let prefix = "data: ".spec_bytes();
    if starts_with(line, prefix) {
        let data = line.subrange(prefix.len() as int, line.len() as int);
        if data == "[DONE]".spec_bytes() {
            SseLineView::Done
        } else {
            SseLineView::Data(data)
        }
    } else {
        SseLineView::Other
    }
}

/// Classifies a line of the stream.
pub fn classify_line(line: &[u8]) -> (r: SseLine)
    ensures
        r@ == line_kind(line@),
{
    let prefix = lit("data: ");
    if starts_with_in(line, prefix.as_slice()) {
        let data = slice_copy(line, prefix.len(), line.len());
        let done = lit("[DONE]");
        if bytes_eq(data.as_slice(), done.as_slice()) {
            SseLine::Done
        } else {
            SseLine::Data(data)
        }
    } else {
        SseLine::Other
    }
}

/// The first choice's `delta` of a stream event: its reasoning text (`reasoning_content`, or
/// `reasoning` where that key is absent) and its `content`, where they are strings.
pub struct StreamDelta {
    pub reasoning: Option<Vec<u8>>,
    pub content: Option<Vec<u8>>,
}

/// The fields of a delta: whether it has a `reasoning_content` key, and the strings of its
/// `reasoning_content`, `reasoning` and `content` keys, where they are strings.
pub type DeltaFields = Option<(bool, Option<Vec<u8>>, Option<Vec<u8>>, Option<Vec<u8>>)>;

pub open spec fn delta_fields_view(f: DeltaFields) -> Option<(bool, Option<Seq<u8>>, Option<Seq<u8>>, Option<Seq<u8>>)> {
    match f {
        Some((has_rc, rc, rs, c)) => Some((has_rc, opt_view(rc), opt_view(rs), opt_view(c))),
        None => None,
    }
}

/// The string of a field's value, where the field is there and its value a string.
pub open spec fn field_str(fields: Seq<(Seq<u8>, Seq<u8>)>, key: Seq<u8>) -> Option<Seq<u8>> {
    match field(fields, key) {
        Some(t) => json_str(t),
        None => None,
    }
}

/// The fields of the delta of a delta value's text: a delta that is no object has none of them.
pub open spec fn delta_value_fields(text: Seq<u8>) -> Option<(bool, Option<Seq<u8>>, Option<Seq<u8>>, Option<Seq<u8>>)> {
    match json_node(text) {
        Some(JsonView::Object(d)) => Some((
            field(d, "reasoning_content".spec_bytes()) is Some,
            field_str(d, "reasoning_content".spec_bytes()),
            field_str(d, "reasoning".spec_bytes()),
            field_str(d, "content".spec_bytes()),
        )),
        Some(_) => Some((false, None, None, None)),
        None => None,
    }
}

/// The delta fields of a stream event's JSON text: those of `choices[0].delta`, where the
/// text is a JSON object whose `choices` is a non-empty array whose first element is an object
/// with a `delta`; else `None`.
pub open spec fn event_delta_fields(data: Seq<u8>) -> Option<(bool, Option<Seq<u8>>, Option<Seq<u8>>, Option<Seq<u8>>)> {
    match json_node(data) {
        Some(JsonView::Object(top)) => match field(top, "choices".spec_bytes()) {
            Some(ct) => match json_node(ct) {
                Some(JsonView::Array(items)) => if items.len() > 0 {
                    match json_node(items[0]) {
                        Some(JsonView::Object(choice)) => match field(choice, "delta".spec_bytes()) {
                            Some(dt) => delta_value_fields(dt),
                            None => None,
                        },
                        _ => None,
                    }
                } else {
                    None
                },
                _ => None,
            },
            None => None,
        },
        _ => None,
    }
}

fn str_field(fields: &Vec<(Vec<u8>, Vec<u8>)>, key: &[u8]) -> (r: Option<Vec<u8>>)
    ensures
        opt_view(r) == field_str(fields_view(fields@), key@),
{
    match get_field(fields, key) {
        Some(t) => parse_str(t.as_slice()),
        None => None,
    }
}

/// The delta fields of a stream event's JSON text (see `event_delta_fields`).
pub fn delta_fields(data: &[u8]) -> (r: DeltaFields)
    ensures
        delta_fields_view(r) == event_delta_fields(data@),
{
    let top = match parse_json(data) {
        Some(JsonNode::Object(top)) => top,
        _ => return None,
    };
    let ct = match get_field(&top, lit("choices").as_slice()) {
        Some(ct) => ct,
        None => return None,
    };
    let items = match parse_json(ct.as_slice()) {
        Some(JsonNode::Array(items)) => items,
        _ => return None,
    };
    if items.len() == 0 {
        return None;
    }
    assert(texts_view(items@)[0] == items@[0]@);
    let choice = match parse_json(items[0].as_slice()) {
        Some(JsonNode::Object(choice)) => choice,
        _ => return None,
    };
    let dt = match get_field(&choice, lit("delta").as_slice()) {
        Some(dt) => dt,
        None => return None,
    };
    match parse_json(dt.as_slice()) {
        Some(JsonNode::Object(d)) => {
            let rc_key = lit("reasoning_content");
            let has_rc = get_field(&d, rc_key.as_slice()).is_some();
            let rc = str_field(&d, rc_key.as_slice());
            let rs = str_field(&d, lit("reasoning").as_slice());
            let c = str_field(&d, lit("content").as_slice());
            Some((has_rc, rc, rs, c))
        },
        Some(_) => Some((false, None, None, None)),
        None => None,
    }
}

/// The delta that the fields of an event make: its reasoning is `reasoning_content` where the
/// delta has that key, else `reasoning`; its content is `content`.
pub open spec fn delta_of(f: Option<(bool, Option<Seq<u8>>, Option<Seq<u8>>, Option<Seq<u8>>)>) -> Option<(Option<Seq<u8>>, Option<Seq<u8>>)> {
    match f {
        Some((has_rc, rc, rs, c)) => Some((if has_rc { rc } else { rs }, c)),
        None => None,
    }
}

pub open spec fn delta_view(d: Option<StreamDelta>) -> Option<(Option<Seq<u8>>, Option<Seq<u8>>)> {
    match d {
        Some(d) => Some((opt_view(d.reasoning), opt_view(d.content))),
        None => None,
    }
}

/// The delta of an event from its fields (see `delta_of`).
pub fn delta_from_fields(f: DeltaFields) -> (d: Option<StreamDelta>)
    ensures
        delta_view(d) == delta_of(delta_fields_view(f)),
{
    match f {
        Some((has_rc, rc, rs, c)) => Some(StreamDelta { reasoning: if has_rc { rc } else { rs }, content: c }),
        None => None,
    }
}

/// The delta of a stream event, from the event's JSON text.
pub fn parse_delta(data: &[u8]) -> (d: Option<StreamDelta>)
    ensures
        delta_view(d) == delta_of(event_delta_fields(data@)),
{
    delta_from_fields(delta_fields(data))
}

/// A tool command that the model wrote, as `(command, argument)`.
pub struct ToolCommand {
    pub name: Vec<u8>,
    pub arg: Vec<u8>,
}

impl View for ToolCommand {
    type V = (Seq<u8>, Seq<u8>);

    open spec fn view(&self) -> (Seq<u8>, Seq<u8>) {
        (self.name@, self.arg@)
    }
}

/// The state of one streamed reply.
pub struct StreamState {
    /// Inside a reasoning section.
    pub is_reasoning: bool,
    /// The reasoning section was opened by the reasoning field (not by a tag in the content).
    pub reasoning_field_used: bool,
    /// The content received so far.
    pub response: Vec<u8>,
    /// The last tool command found in the content.
    pub command: Option<ToolCommand>,
}

pub struct StreamView {
    pub is_reasoning: bool,
    pub reasoning_field_used: bool,
    pub response: Seq<u8>,
    pub command: Option<(Seq<u8>, Seq<u8>)>,
}

impl View for StreamState {
    type V = StreamView;

    open spec fn view(&self) -> StreamView {
        StreamView {
            is_reasoning: self.is_reasoning,
            reasoning_field_used: self.reasoning_field_used,
            response: self.response@,
            command: match self.command {
                Some(c) => Some(c@),
                None => None,
            },
        }
    }
}

pub open spec fn opt_view(o: Option<Vec<u8>>) -> Option<Seq<u8>> {
    match o {
        Some(v) => Some(v@),
        None => None,
    }
}

/// The text between a tool marker that ends at `start` and the next `@@`, trimmed.
pub open spec fn command_text(r: Seq<u8>, start: int) -> Option<Seq<u8>> {
    let after = r.subrange(start, r.len() as int);
    match find(after, "@@".spec_bytes()) {
        Some(e) => Some(trim(after.subrange(0, e))),
        None => None,
    }
}

/// A `@@CODE: <cmd> <arg>@@` command: the command is the text up to the first space.
pub open spec fn split_code_command(full: Seq<u8>) -> (Seq<u8>, Seq<u8>) {
    match find(full, seq![32u8]) {
        Some(sp) => (trim(full.subrange(0, sp)), trim(full.subrange(sp, full.len() as int))),
        None => (full, seq![]),
    }
}

/// The tool command that the reply so far ends with, looked for in this order: the last
/// `@@MEMORY:`, else the last `@@RUN:`, else the last `@@CODE:`, each closed by `@@`.
pub open spec fn detect_command(r: Seq<u8>) -> Option<(Seq<u8>, Seq<u8>)> {
    let mem = "@@MEMORY:".spec_bytes();
    let run = "@@RUN:".spec_bytes();
    let code = "@@CODE:".spec_bytes();
    match rfind(r, mem) {
        Some(i) => match command_text(r, i + mem.len()) {
            Some(t) => Some(("memory".spec_bytes(), t)),
            None => None,
        },
        None => match rfind(r, run) {
            Some(i) => match command_text(r, i + run.len()) {
                Some(t) => Some(("run".spec_bytes(), t)),
                None => None,
            },
            None => match rfind(r, code) {
                Some(i) => match command_text(r, i + code.len()) {
                    Some(t) => Some(split_code_command(t)),
                    None => None,
                },
                None => None,
            },
        },
    }
}

/// The chunks sent for the reasoning text of a delta, and whether reasoning is then open.
pub open spec fn reasoning_chunks(is_reasoning: bool, reasoning: Option<Seq<u8>>) -> Seq<Seq<u8>> {
    match reasoning {
        Some(r) => if !is_reasoning { seq!["<think>\n".spec_bytes() + r] } else { seq![r] },
        None => seq![],
    }
}

/// A content opens reasoning where it holds `<think>` or `<|think|>`.
pub open spec fn opens_think(c: Seq<u8>) -> bool {
    contains(c, "<think>".spec_bytes()) || contains(c, "<|think|>".spec_bytes())
}

/// A content closes reasoning where it holds `</think>` or `</|think|>`.
pub open spec fn closes_think(c: Seq<u8>) -> bool {
    contains(c, "</think>".spec_bytes()) || contains(c, "</|think|>".spec_bytes())
}

/// What a delta does to the state of the reply, and the chunks sent to the user for it, in
/// order.
pub open spec fn delta_step(s: StreamView, reasoning: Option<Seq<u8>>, content: Option<Seq<u8>>) -> (StreamView, Seq<Seq<u8>>) {
    let r_chunks = reasoning_chunks(s.is_reasoning, reasoning);
    let is_r1 = s.is_reasoning || reasoning is Some;
    let used1 = s.reasoning_field_used || reasoning is Some;
    match content {
        None => (StreamView { is_reasoning: is_r1, reasoning_field_used: used1, ..s }, r_chunks),
        Some(c) => {
            let closes = is_r1 && used1 && c.len() > 0;
            let close_chunk: Seq<Seq<u8>> = if closes { seq!["\n</think>\n".spec_bytes()] } else { seq![] };
            let is_r2 = if closes { false } else { is_r1 };
            let used2 = if closes { false } else { used1 };
            let is_r3 = if opens_think(c) { true } else { is_r2 };
            let is_r4 = if closes_think(c) { false } else { is_r3 };
            let response = s.response + c;
            let command = match detect_command(response) {
                Some(cmd) => Some(cmd),
                None => s.command,
            };
            (
                StreamView { is_reasoning: is_r4, reasoning_field_used: used2, response, command },
                r_chunks + close_chunk + seq![c],
            )
        },
    }
}

pub open spec fn chunks_view(cs: Seq<Vec<u8>>) -> Seq<Seq<u8>> {
    cs.map_values(|c: Vec<u8>| c@)
}

proof fn lemma_rfind_range(s: Seq<u8>, pat: Seq<u8>, i: int)
    ensures
        rfind_at_most(s, pat, i) matches Some(p) ==> p <= i && occurs_at(s, pat, p),
    decreases i + 1,
{
    if i >= 0 && !occurs_at(s, pat, i) {
        lemma_rfind_range(s, pat, i - 1);
    }
}

/// The text between a marker ending at `start` and the next `@@`, trimmed.
fn command_text_of(r: &[u8], start: usize) -> (t: Option<Vec<u8>>)
    requires
        start <= r@.len(),
    ensures
        opt_view(t) == command_text(r@, start as int),
{
    let after = slice_copy(r, start, r.len());
    let close = lit("@@");
    match find_in(after.as_slice(), close.as_slice()) {
        Some(e) => {
            proof {
                lemma_find_from_range(after@, close@, 0);
            }
            let head = slice_copy(after.as_slice(), 0, e);
            Some(trimmed(head.as_slice()))
        },
        None => None,
    }
}

fn split_code_command_of(full: Vec<u8>) -> (c: ToolCommand)
    ensures
        c@ == split_code_command(full@),
{
    let sp: [u8; 1] = [32u8];
    assert(sp@ =~= seq![32u8]);
    match find_in(full.as_slice(), &sp) {
        Some(i) => {
            proof {
                lemma_find_from_range(full@, seq![32u8], 0);
            }
            let a = slice_copy(full.as_slice(), 0, i);
            let b = slice_copy(full.as_slice(), i, full.len());
            ToolCommand { name: trimmed(a.as_slice()), arg: trimmed(b.as_slice()) }
        },
        None => ToolCommand { name: full, arg: Vec::new() },
    }
}

/// The tool command that a reply ends with (see `detect_command`).
pub fn detect_command_in(r: &[u8]) -> (c: Option<ToolCommand>)
    ensures
        match c {
            Some(cmd) => detect_command(r@) == Some(cmd@),
            None => detect_command(r@) is None,
        },
{
    let n = r.len();
    let mem = lit("@@MEMORY:");
    let run = lit("@@RUN:");
    let code = lit("@@CODE:");
    proof {
        lemma_rfind_range(r@, mem@, r@.len() - mem@.len());
        lemma_rfind_range(r@, run@, r@.len() - run@.len());
        lemma_rfind_range(r@, code@, r@.len() - code@.len());
    }
    match rfind_in(r, mem.as_slice()) {
        Some(i) => match command_text_of(r, i + mem.len()) {
            Some(t) => Some(ToolCommand { name: lit("memory"), arg: t }),
            None => None,
        },
        None => match rfind_in(r, run.as_slice()) {
            Some(i) => match command_text_of(r, i + run.len()) {
                Some(t) => Some(ToolCommand { name: lit("run"), arg: t }),
                None => None,
            },
            None => match rfind_in(r, code.as_slice()) {
                Some(i) => match command_text_of(r, i + code.len()) {
                    Some(t) => Some(split_code_command_of(t)),
                    None => None,
                },
                None => None,
            },
        },
    }
}

impl StreamState {
    pub fn new() -> (s: StreamState)
        ensures
            s@ == (StreamView {
                is_reasoning: false,
                reasoning_field_used: false,
                response: Seq::<u8>::empty(),
                command: None,
            }),
    {
        StreamState { is_reasoning: false, reasoning_field_used: false, response: Vec::new(), command: None }
    }

    /// Takes in a delta of the stream and returns the chunks to send to the user, in order:
    /// the reasoning text (behind `<think>\n` where it opens reasoning); `\n</think>\n` where
    /// non-empty content ends reasoning that the reasoning field opened; the content itself.
    /// The content is added to the reply, and the tool command that the reply then ends with,
    /// if any, replaces the one found before.
    pub fn on_delta(&mut self, delta: &StreamDelta) -> (chunks: Vec<Vec<u8>>)
        ensures
            (final(self)@, chunks_view(chunks@)) == delta_step(old(self)@, opt_view(delta.reasoning), opt_view(delta.content)),
    {
        let ghost s0 = self@;
        let mut chunks: Vec<Vec<u8>> = Vec::new();
        match &delta.reasoning {
            Some(r) => {
                self.reasoning_field_used = true;
                if !self.is_reasoning {
                    self.is_reasoning = true;
                    let open = lit("<think>\n");
                    chunks.push(concat(open.as_slice(), r.as_slice()));
                    assert(chunks_view(chunks@) =~= seq!["<think>\n".spec_bytes() + r@]);
                } else {
                    chunks.push(slice_copy(r.as_slice(), 0, r.len()));
                    assert(r@.subrange(0, r@.len() as int) =~= r@);
                    assert(chunks_view(chunks@) =~= seq![r@]);
                }
            },
            None => {
                assert(chunks_view(chunks@) =~= Seq::<Seq<u8>>::empty());
            },
        }
        let ghost r_chunks = chunks_view(chunks@);
        assert(r_chunks =~= reasoning_chunks(s0.is_reasoning, opt_view(delta.reasoning)));
        match &delta.content {
            Some(c) => {
                let ghost before_close = chunks@;
                if self.is_reasoning && self.reasoning_field_used && c.len() > 0 {
                    chunks.push(lit("\n</think>\n"));
                    self.is_reasoning = false;
                    self.reasoning_field_used = false;
                }
                let ghost after_close = chunks@;
                let t1 = lit("<think>");
                let t2 = lit("<|think|>");
                if contains_in(c.as_slice(), t1.as_slice()) || contains_in(c.as_slice(), t2.as_slice()) {
                    self.is_reasoning = true;
                }
                chunks.push(slice_copy(c.as_slice(), 0, c.len()));
                push_all(&mut self.response, c.as_slice());
                let e1 = lit("</think>");
                let e2 = lit("</|think|>");
                if contains_in(c.as_slice(), e1.as_slice()) || contains_in(c.as_slice(), e2.as_slice()) {
                    self.is_reasoning = false;
                }
                match detect_command_in(self.response.as_slice()) {
                    Some(cmd) => {
                        self.command = Some(cmd);
                    },
                    None => {},
                }
                proof {
                    assert(c@.subrange(0, c@.len() as int) =~= c@);
                    let closes = (s0.is_reasoning || delta.reasoning is Some) && (s0.reasoning_field_used
                        || delta.reasoning is Some) && c@.len() > 0;
                    let close_chunk: Seq<Seq<u8>> = if closes { seq!["\n</think>\n".spec_bytes()] } else { seq![] };
                    assert(chunks_view(after_close) =~= r_chunks + close_chunk);
                    assert(chunks_view(chunks@) =~= r_chunks + close_chunk + seq![c@]);
                }
            },
            None => {},
        }
        chunks
    }

    /// The closing `</think>` sent when the stream ends inside reasoning without a tool
    /// command.
    pub fn finish(&self) -> (r: Option<Vec<u8>>)
        ensures
            opt_view(r) == (if self.is_reasoning && self.command is None { Some("</think>".spec_bytes()) } else { None }),
    {
        if self.is_reasoning && self.command.is_none() {
            Some(lit("</think>"))
        } else {
            None
        }
    }

    /// The tool command found in the reply, if any.
    pub fn take_command(&mut self) -> (c: Option<ToolCommand>)
        ensures
            match c {
                Some(cmd) => old(self)@.command == Some(cmd@),
                None => old(self)@.command is None,
            },
            final(self)@.command is None,
            final(self)@.response == old(self)@.response,
    {
        self.command.take()
    }
}


/// A stream of deltas taken in one after the other: the final state and every chunk sent.
pub open spec fn run_deltas(s: StreamView, deltas: Seq<(Option<Seq<u8>>, Option<Seq<u8>>)>) -> (StreamView, Seq<Seq<u8>>)
    decreases deltas.len(),
{
    if deltas.len() == 0 {
        (s, seq![])
    } else {
        let (s1, c1) = run_deltas(s, deltas.drop_last());
        let (s2, c2) = delta_step(s1, deltas.last().0, deltas.last().1);
        (s2, c1 + c2)
    }
}

/// The contents of a list of deltas, one after the other.
pub open spec fn contents_of(deltas: Seq<(Option<Seq<u8>>, Option<Seq<u8>>)>) -> Seq<u8>
    decreases deltas.len(),
{
    if deltas.len() == 0 {
        seq![]
    } else {
        contents_of(deltas.drop_last()) + match deltas.last().1 {
            Some(c) => c,
            None => seq![],
        }
    }
}

/// The reply that a stream builds is the contents of its deltas, in order, added to what
/// came before; and once a tool command has been found, there is one until it is taken.
pub proof fn law_reply_is_the_contents(s: StreamView, deltas: Seq<(Option<Seq<u8>>, Option<Seq<u8>>)>)
    ensures
        run_deltas(s, deltas).0.response == s.response + contents_of(deltas),
        s.command is Some ==> run_deltas(s, deltas).0.command is Some,
    decreases deltas.len(),
{
    if deltas.len() > 0 {
        law_reply_is_the_contents(s, deltas.drop_last());
        let s1 = run_deltas(s, deltas.drop_last()).0;
        assert(s.response + contents_of(deltas) =~= s1.response + match deltas.last().1 {
            Some(c) => c,
            None => seq![],
        });
    }
}

/// Every content of a delta reaches the user unchanged, as the last chunk sent for it.
pub proof fn law_content_forwarded(s: StreamView, reasoning: Option<Seq<u8>>, content: Seq<u8>)
    ensures
        ({
            let chunks = delta_step(s, reasoning, Some(content)).1;
            chunks.len() > 0 && chunks.last() == content
        }),
{
}

/// Reasoning that the reasoning field opened is closed with `\n</think>\n` before the first
/// non-empty content is sent.
pub proof fn law_reasoning_closed_before_content(s: StreamView, content: Seq<u8>)
    requires
        s.is_reasoning,
        s.reasoning_field_used,
        content.len() > 0,
    ensures
        delta_step(s, None, Some(content)).1 == seq!["\n</think>\n".spec_bytes(), content],
{
    assert(delta_step(s, None, Some(content)).1 =~= seq!["\n</think>\n".spec_bytes(), content]);
}

/// Reasoning text received outside reasoning is sent behind `<think>\n`, and reasoning is
/// then open.
pub proof fn law_reasoning_opened(s: StreamView, reasoning: Seq<u8>)
    requires
        !s.is_reasoning,
    ensures
        delta_step(s, Some(reasoning), None).1 == seq!["<think>\n".spec_bytes() + reasoning],
        delta_step(s, Some(reasoning), None).0.is_reasoning,
{
}

/// Framing loses nothing: where the buffer holds a newline, it is the line taken (before its
/// trailing whitespace is trimmed), the newline, and the buffer left; the line holds no
/// newline.
pub proof fn law_framing_loses_nothing(buffer: Seq<u8>)
    ensures
        split_line(buffer) is Some <==> contains(buffer, seq![10u8]),
        match find(buffer, seq![10u8]) {
            Some(p) => {
                &&& buffer == buffer.subrange(0, p) + seq![10u8] + split_line(buffer).unwrap().1
                &&& split_line(buffer).unwrap().0 == trim_end(buffer.subrange(0, p))
                &&& !contains(buffer.subrange(0, p), seq![10u8])
            },
            None => true,
        },
{
    lemma_find_from_range(buffer, seq![10u8], 0);
    match find(buffer, seq![10u8]) {
        Some(p) => {
            assert(buffer =~= buffer.subrange(0, p) + seq![10u8] + buffer.subrange(p + 1, buffer.len() as int)) by {
                assert(occurs_at(buffer, seq![10u8], p));
                assert(buffer.subrange(p, p + 1) == seq![10u8]);
                assert(buffer.subrange(p, p + 1)[0] == buffer[p]);
            }
            lemma_first_is_first(buffer, seq![10u8], 0, p);
        },
        None => {},
    }
}

proof fn lemma_first_is_first(s: Seq<u8>, pat: Seq<u8>, from: int, p: int)
    requires
        0 <= from,
        pat.len() == 1,
        find_from(s, pat, from) == Some(p),
    ensures
        find_from(s.subrange(0, p), pat, from) is None,
    decreases p - from,
{
    lemma_find_from_range(s, pat, from);
    let t = s.subrange(0, p);
    if from + pat.len() > t.len() {
    } else {
        if occurs_at(s, pat, from) {
        } else {
            assert(!occurs_at(t, pat, from)) by {
                assert(t.subrange(from, from + 1) =~= s.subrange(from, from + 1));
            }
            lemma_first_is_first(s, pat, from + 1, p);
        }
    }
}

/// A pattern that starts with `@@` occurs only where the text has two `@` in a row.
proof fn lemma_needs_two_at(s: Seq<u8>, pat: Seq<u8>, i: int)
    requires
        pat.len() >= 2,
        pat[0] == 64u8,
        pat[1] == 64u8,
        occurs_at(s, pat, i),
    ensures
        s[i] == 64u8,
        s[i + 1] == 64u8,
        i + pat.len() <= s.len(),
{
    assert(s.subrange(i, i + pat.len())[0] == s[i]);
    assert(s.subrange(i, i + pat.len())[1] == s[i + 1]);
}

/// A shell command that the model writes as `@@RUN: <command>@@`, with no `@` in it, is the
/// command detected, trimmed.
pub proof fn law_run_command_is_what_was_written(c: Seq<u8>)
    requires
        forall|i: int| 0 <= i < c.len() ==> c[i] != 64u8,
    ensures
        detect_command("@@RUN:".spec_bytes() + c + "@@".spec_bytes()) == Some(("run".spec_bytes(), trim(c))),
{
    reveal_strlit("@@RUN:");
    reveal_strlit("@@");
    reveal_strlit("@@MEMORY:");
    vstd::string::is_ascii_spec_bytes("@@RUN:");
    vstd::string::is_ascii_spec_bytes("@@");
    vstd::string::is_ascii_spec_bytes("@@MEMORY:");
    let run = "@@RUN:".spec_bytes();
    let close = "@@".spec_bytes();
    let mem = "@@MEMORY:".spec_bytes();
    let r = run + c + close;
    let n = r.len() as int;
    assert(run.len() == 6);
    assert(close.len() == 2);
    assert(mem.len() == 9);
    assert(run[0] == 64u8 && run[1] == 64u8 && run[2] == 82u8);
    assert(mem[0] == 64u8 && mem[1] == 64u8 && mem[2] == 77u8);
    assert(close[0] == 64u8 && close[1] == 64u8);
    assert(forall|i: int| 0 <= i < 6 ==> #[trigger] r[i] == run[i]);
    assert(forall|i: int| 6 <= i < 6 + c.len() ==> #[trigger] r[i] == c[i - 6]);
    assert(r[n - 2] == 64u8 && r[n - 1] == 64u8);
    // no `@@MEMORY:` in the reply
    assert forall|i: int| -1 < i <= n - 9 implies !occurs_at(r, mem, i) by {
        if occurs_at(r, mem, i) {
            lemma_needs_two_at(r, mem, i);
            assert(r.subrange(i, i + 9)[2] == r[i + 2]);
            assert(r[i + 2] == 77u8);
        }
    }
    lemma_rfind_skip(r, mem, -1, n - 9);
    assert(rfind(r, mem) is None);
    // the last `@@RUN:` is the first one
    assert(occurs_at(r, run, 0)) by {
        assert(r.subrange(0, 6) =~= run);
    }
    assert forall|i: int| 0 < i <= n - 6 implies !occurs_at(r, run, i) by {
        if occurs_at(r, run, i) {
            lemma_needs_two_at(r, run, i);
        }
    }
    lemma_rfind_skip(r, run, 0, n - 6);
    assert(rfind(r, run) == Some(0int));
    // the command runs up to the closing `@@`
    let after = r.subrange(6, n);
    assert(after =~= c + close);
    assert forall|i: int| 0 <= i < c.len() implies !occurs_at(after, close, i) by {
        if occurs_at(after, close, i) {
            lemma_needs_two_at(after, close, i);
            assert(after[i] == c[i]);
        }
    }
    lemma_find_skip(after, close, 0, c.len() as int);
    assert(occurs_at(after, close, c.len() as int)) by {
        assert(after.subrange(c.len() as int, c.len() as int + 2) =~= close);
    }
    assert(find(after, close) == Some(c.len() as int));
    assert(after.subrange(0, c.len() as int) =~= c);
}

/// A codebase command that the model writes as `@@CODE: <command> <argument>@@`, with no `@`
/// in it, is the command detected: the first word and the trimmed rest.
pub proof fn law_code_command_is_what_was_written(c: Seq<u8>)
    requires
        forall|i: int| 0 <= i < c.len() ==> c[i] != 64u8,
    ensures
        detect_command("@@CODE:".spec_bytes() + c + "@@".spec_bytes()) == Some(split_code_command(trim(c))),
{
    reveal_strlit("@@CODE:");
    reveal_strlit("@@RUN:");
    reveal_strlit("@@");
    reveal_strlit("@@MEMORY:");
    vstd::string::is_ascii_spec_bytes("@@CODE:");
    vstd::string::is_ascii_spec_bytes("@@RUN:");
    vstd::string::is_ascii_spec_bytes("@@");
    vstd::string::is_ascii_spec_bytes("@@MEMORY:");
    let code = "@@CODE:".spec_bytes();
    let run = "@@RUN:".spec_bytes();
    let close = "@@".spec_bytes();
    let mem = "@@MEMORY:".spec_bytes();
    let r = code + c + close;
    let n = r.len() as int;
    assert(code.len() == 7);
    assert(run.len() == 6);
    assert(close.len() == 2);
    assert(mem.len() == 9);
    assert(code[0] == 64u8 && code[1] == 64u8 && code[2] == 67u8);
    assert(run[0] == 64u8 && run[1] == 64u8 && run[2] == 82u8);
    assert(mem[0] == 64u8 && mem[1] == 64u8 && mem[2] == 77u8);
    assert(close[0] == 64u8 && close[1] == 64u8);
    assert(forall|i: int| 0 <= i < 7 ==> #[trigger] r[i] == code[i]);
    assert(forall|i: int| 7 <= i < 7 + c.len() ==> #[trigger] r[i] == c[i - 7]);
    assert(r[n - 2] == 64u8 && r[n - 1] == 64u8);
    assert forall|i: int| -1 < i <= n - 9 implies !occurs_at(r, mem, i) by {
        if occurs_at(r, mem, i) {
            lemma_needs_two_at(r, mem, i);
            assert(r.subrange(i, i + 9)[2] == r[i + 2]);
        }
    }
    lemma_rfind_skip(r, mem, -1, n - 9);
    assert forall|i: int| -1 < i <= n - 6 implies !occurs_at(r, run, i) by {
        if occurs_at(r, run, i) {
            lemma_needs_two_at(r, run, i);
            assert(r.subrange(i, i + 6)[2] == r[i + 2]);
        }
    }
    lemma_rfind_skip(r, run, -1, n - 6);
    assert(occurs_at(r, code, 0)) by {
        assert(r.subrange(0, 7) =~= code);
    }
    assert forall|i: int| 0 < i <= n - 7 implies !occurs_at(r, code, i) by {
        if occurs_at(r, code, i) {
            lemma_needs_two_at(r, code, i);
        }
    }
    lemma_rfind_skip(r, code, 0, n - 7);
    let after = r.subrange(7, n);
    assert(after =~= c + close);
    assert forall|i: int| 0 <= i < c.len() implies !occurs_at(after, close, i) by {
        if occurs_at(after, close, i) {
            lemma_needs_two_at(after, close, i);
            assert(after[i] == c[i]);
        }
    }
    lemma_find_skip(after, close, 0, c.len() as int);
    assert(occurs_at(after, close, c.len() as int)) by {
        assert(after.subrange(c.len() as int, c.len() as int + 2) =~= close);
    }
    assert(after.subrange(0, c.len() as int) =~= c);
}

} // verus!
