//! The system prompt, the context blocks (active file, knowledge base) and the user message of
//! a request.
use vstd::prelude::*;
use vstd::string::StringSliceAdditionalSpecFns;
use crate::budget::{estimated_tokens, estimate_tokens, sat_sub};
use crate::message::{ContentPart, PartView};
use crate::text::{lit, push_all, bytes_eq, concat, slice_copy, is_boundary, starts_with, starts_with_in, trim_end_byte, trim_end_byte_len};

verus! {

/// The instructions that an advanced (agent) profile starts from.
pub const DEFAULT_SYSTEM_PROMPT: &'static str = r#"You are an Elite AI Software Architect running NATIVELY INSIDE the user's local "Forge IDE".

CRITICAL PROTOCOL: YOU HAVE DIRECT, FULL ACCESS TO THE USER'S LOCAL FILESYSTEM AND TERMINAL.
You are an AUTONOMOUS AGENT. Do NOT ask the user to run commands, read files, or apply code unless strictly necessary. Do it yourself!

You have FOUR mandatory Sub-Agents. Output ONLY the exact tool tag to trigger them. The system will pause, execute the tool, and return the output to you.

1. CODE AGENT (Codebase Navigation):
   - Browse folders: @@CODE: tree <path>@@ (e.g. @@CODE: tree src@@)
   - Find file by name: @@CODE: locate <filename>@@ (e.g. @@CODE: locate main.rs@@)
   - Search inside files: @@CODE: search <text>@@ (e.g. @@CODE: search calculate_tax@@)
   - Read full file: @@CODE: read <path>@@ (e.g. @@CODE: read src/main.rs@@)
   - Read specific lines: @@CODE: read <path> | <start_line>-<end_line>@@ (e.g. @@CODE: read src/main.rs | 50-100@@)

2. RUN AGENT (Terminal Execution):
   - Execute shell commands, tests, or builds: @@RUN: <command>@@ (e.g. @@RUN: cargo check@@ or @@RUN: ls -al@@)
   > WARNING: For destructive commands (e.g. `rm -rf`), ALWAYS ask for permission first.

3. WEB AGENT (Internet Access):
   - Search the web: @@WEB: search <query>@@
   - Read a website: @@WEB: fetch <url> | <topic>@@

4. MEMORY AGENT (Knowledge Base):
   - Write markdown docs: @@MEMORY: write <filename> | <markdown_content>@@

HOW TO WRITE/EDIT CODE (CHANGE SETS):
When you want to modify the user's code, DO NOT use the MEMORY agent. Instead, just write the new code inside a markdown code block and put the FILE PATH as the very first line inside the block (as a comment). The IDE will automatically detect it and show an "Apply" button to the user.

Example Code Edit:
```rust
// src/utils.rs
fn calculate_tax(amount: f64) -> f64 {
    amount * 0.20
}
```

MANDATORY WORKFLOW:
- Use `locate` or `search` to find things quickly instead of guessing paths.
- Use `read` with line numbers for large files to save memory.
- If the user asks a question, gather context autonomously before answering."#;

/// The profile of the chat: its `id` and its `systemPrompt`, where they are strings.
pub struct Profile {
    pub id: Option<Vec<u8>>,
    pub system_prompt: Option<Vec<u8>>,
}

/// The chat is in the simple "ask" mode: the profile's id is `"ask"`.
pub open spec fn is_ask_mode(profile: Option<Profile>) -> bool {
    match profile {
        Some(p) => match p.id {
            Some(id) => id@ == "ask".spec_bytes(),
            None => false,
        },
        None => false,
    }
}

/// The profile is an agent profile: no profile, or one whose id (`""` where it has none) is
/// not `"ask"`.
pub open spec fn is_advanced_mode(profile: Option<Profile>) -> bool {
    match profile {
        Some(p) => (match p.id {
            Some(id) => id@,
            None => Seq::<u8>::empty(),
        }) != "ask".spec_bytes(),
        None => true,
    }
}

/// The separator put between the default instructions and the profile's own.
pub open spec fn profile_separator() -> Seq<u8> {
    "\n\n--- CUSTOM PROFILE INSTRUCTIONS ---\n".spec_bytes()
}

/// The system prompt: the default instructions in advanced mode, then the profile's
/// `systemPrompt`, after the separator where the text so far is not empty.
pub open spec fn system_text(profile: Option<Profile>) -> Seq<u8> {
    let base = if is_advanced_mode(profile) { DEFAULT_SYSTEM_PROMPT.spec_bytes() } else { Seq::<u8>::empty() };
    match profile {
        Some(p) => match p.system_prompt {
            Some(psp) => if base.len() > 0 { base + profile_separator() + psp@ } else { base + psp@ },
            None => base,
        },
        None => base,
    }
}

/// Whether the profile puts the chat in "ask" mode.
pub fn ask_mode(profile: &Option<Profile>) -> (b: bool)
    ensures
        b == is_ask_mode(*profile),
{
    match profile {
        Some(p) => match &p.id {
            Some(id) => {
                let ask = lit("ask");
                bytes_eq(id.as_slice(), ask.as_slice())
            },
            None => false,
        },
        None => false,
    }
}

/// Whether the profile is an agent profile.
pub fn advanced_mode(profile: &Option<Profile>) -> (b: bool)
    ensures
        b == is_advanced_mode(*profile),
{
    match profile {
        Some(p) => {
            let ask = lit("ask");
            match &p.id {
                Some(id) => !bytes_eq(id.as_slice(), ask.as_slice()),
                None => {
                    let empty: Vec<u8> = Vec::new();
                    assert(empty@ =~= Seq::<u8>::empty());
                    !bytes_eq(empty.as_slice(), ask.as_slice())
                },
            }
        },
        None => true,
    }
}

/// Builds the system prompt.
pub fn build_system_text(profile: &Option<Profile>) -> (t: Vec<u8>)
    ensures
        t@ == system_text(*profile),
{
    let mut t: Vec<u8> = Vec::new();
    if advanced_mode(profile) {
        push_all(&mut t, DEFAULT_SYSTEM_PROMPT.as_bytes());
    }
    assert(t@ =~= (if is_advanced_mode(*profile) { DEFAULT_SYSTEM_PROMPT.spec_bytes() } else { Seq::<u8>::empty() }));
    match profile {
        Some(p) => match &p.system_prompt {
            Some(psp) => {
                if t.len() > 0 {
                    let sep = lit("\n\n--- CUSTOM PROFILE INSTRUCTIONS ---\n");
                    push_all(&mut t, sep.as_slice());
                }
                push_all(&mut t, psp.as_slice());
            },
            None => {},
        },
        None => {},
    }
    t
}

/// A block of context: `header`, then `content` cut to the bytes that `budget` tokens cover
/// once the header and footer are paid for (with `marker` after a cut), then `footer`.
pub open spec fn budget_block(header: Seq<u8>, content: Seq<u8>, footer: Seq<u8>, budget: nat, marker: Seq<u8>) -> Seq<u8> {
    let overhead = estimated_tokens(header.len()) + estimated_tokens(footer.len());
    let allowed: nat = if budget >= overhead { (budget - overhead) as nat } else { 0 };
    let limit = allowed * 4;
    let body = if content.len() > limit { content.subrange(0, limit as int) + marker } else { content };
    header + body + footer
}

/// The cut of `budget_block` needs no more than `usize` can count, and falls on a character
/// boundary (where `str` slicing would panic).
pub open spec fn budget_block_ok(header: Seq<u8>, content: Seq<u8>, footer: Seq<u8>, budget: nat) -> bool {
    let overhead = estimated_tokens(header.len()) + estimated_tokens(footer.len());
    let allowed: nat = if budget >= overhead { (budget - overhead) as nat } else { 0 };
    let limit = allowed * 4;
    &&& limit <= usize::MAX
    &&& content.len() > limit ==> is_boundary(content, limit as int)
}

/// Builds a block of context (see `budget_block`).
pub fn build_budget_block(header: &[u8], content: &[u8], footer: &[u8], budget: usize, marker: &[u8]) -> (r: Vec<u8>)
    requires
        budget_block_ok(header@, content@, footer@, budget as nat),
    ensures
        r@ == budget_block(header@, content@, footer@, budget as nat, marker@),
{
    let h = estimate_tokens(header);
    let f = estimate_tokens(footer);
    let overhead = h + f;
    let allowed = if budget >= overhead { budget - overhead } else { 0 };
    let limit = allowed * 4;
    let mut r: Vec<u8> = Vec::new();
    push_all(&mut r, header);
    if content.len() > limit {
        let cut = slice_copy(content, 0, limit);
        push_all(&mut r, cut.as_slice());
        push_all(&mut r, marker);
    } else {
        push_all(&mut r, content);
    }
    push_all(&mut r, footer);
    assert(r@ =~= budget_block(header@, content@, footer@, budget as nat, marker@));
    r
}

/// Whether `build_budget_block` can build the block (see `budget_block_ok`).
pub fn budget_block_fits(header: &[u8], content: &[u8], footer: &[u8], budget: usize) -> (b: bool)
    ensures
        b == budget_block_ok(header@, content@, footer@, budget as nat),
{
    let h = estimate_tokens(header);
    let f = estimate_tokens(footer);
    let overhead = h + f;
    let allowed = if budget >= overhead { budget - overhead } else { 0 };
    if allowed > usize::MAX / 4 {
        return false;
    }
    let limit = allowed * 4;
    if content.len() > limit {
        crate::text::is_boundary_at(content, limit)
    } else {
        true
    }
}

/// The header of the active file's block.
pub open spec fn active_file_header(path: Seq<u8>) -> Seq<u8> {
    "\n\n=== ACTIVE FILE (".spec_bytes() + path + ") ===\n".spec_bytes()
}

/// The footer of the active file's block.
pub open spec fn active_file_footer() -> Seq<u8> {
    "\n================\n".spec_bytes()
}

/// The marker after a cut active file.
pub open spec fn active_file_marker() -> Seq<u8> {
    "... [TRUNCATED DUE TO CONTEXT LIMIT]".spec_bytes()
}

/// The header of a knowledge document's block.
pub open spec fn knowledge_header(name: Seq<u8>) -> Seq<u8> {
    "\n\n<knowledge_base topic=\"".spec_bytes() + name + "\">\n".spec_bytes()
}

/// The footer of a knowledge document's block.
pub open spec fn knowledge_footer() -> Seq<u8> {
    "\n</knowledge_base>\n".spec_bytes()
}

/// The marker after a cut knowledge document.
pub open spec fn knowledge_marker() -> Seq<u8> {
    "... [KNOWLEDGE TRUNCATED DUE TO CONTEXT LIMIT]".spec_bytes()
}

/// The file open in the editor: its `path` and `content`, where they are strings.
pub struct ActiveFile {
    pub path: Option<Vec<u8>>,
    pub content: Option<Vec<u8>>,
}

/// A knowledge-base document that was read: its name and its text.
pub struct KnowledgeDoc {
    pub name: Vec<u8>,
    pub content: Vec<u8>,
}

/// The block of the active file; none in "ask" mode, or where its path or content is missing.
pub open spec fn active_file_block(profile: Option<Profile>, active: Option<ActiveFile>, budget: nat) -> Seq<u8> {
    if is_ask_mode(profile) {
        seq![]
    } else {
        match active {
            Some(f) => match (f.path, f.content) {
                (Some(p), Some(c)) => budget_block(active_file_header(p@), c@, active_file_footer(), budget, active_file_marker()),
                _ => seq![],
            },
            None => seq![],
        }
    }
}

pub open spec fn active_file_block_ok(profile: Option<Profile>, active: Option<ActiveFile>, budget: nat) -> bool {
    if is_ask_mode(profile) {
        true
    } else {
        match active {
            Some(f) => match (f.path, f.content) {
                (Some(p), Some(c)) => budget_block_ok(active_file_header(p@), c@, active_file_footer(), budget),
                _ => true,
            },
            None => true,
        }
    }
}

/// The blocks of the knowledge documents, one after the other, each with the whole
/// knowledge budget.
pub open spec fn knowledge_blocks(docs: Seq<KnowledgeDoc>, budget: nat) -> Seq<u8>
    decreases docs.len(),
{
    if docs.len() == 0 {
        seq![]
    } else {
        knowledge_blocks(docs.drop_last(), budget) + budget_block(
            knowledge_header(docs.last().name@),
            docs.last().content@,
            knowledge_footer(),
            budget,
            knowledge_marker(),
        )
    }
}

pub open spec fn knowledge_blocks_ok(docs: Seq<KnowledgeDoc>, budget: nat) -> bool {
    forall|i: int| 0 <= i < docs.len() ==> budget_block_ok(
        knowledge_header(#[trigger] docs[i].name@),
        docs[i].content@,
        knowledge_footer(),
        budget,
    )
}

/// The context put in front of the prompt: the active file, then the knowledge documents.
pub open spec fn context_text(profile: Option<Profile>, active: Option<ActiveFile>, docs: Seq<KnowledgeDoc>, file_budget: nat, knowledge_budget: nat) -> Seq<u8> {
    active_file_block(profile, active, file_budget) + knowledge_blocks(docs, knowledge_budget)
}

pub open spec fn context_text_ok(profile: Option<Profile>, active: Option<ActiveFile>, docs: Seq<KnowledgeDoc>, file_budget: nat, knowledge_budget: nat) -> bool {
    active_file_block_ok(profile, active, file_budget) && knowledge_blocks_ok(docs, knowledge_budget)
}

/// The path of a knowledge document: `<root without trailing '/'>/.forge/knowledge/<name>`.
pub open spec fn knowledge_path(root: Seq<u8>, name: Seq<u8>) -> Seq<u8> {
    trim_end_byte(root, 47u8) + "/.forge/knowledge/".spec_bytes() + name
}

/// Builds the path of a knowledge document.
pub fn build_knowledge_path(root: &[u8], name: &[u8]) -> (p: Vec<u8>)
    ensures
        p@ == knowledge_path(root@, name@),
{
    let end = trim_end_byte_len(root, 47u8);
    let mut p = slice_copy(root, 0, end);
    let mid = lit("/.forge/knowledge/");
    push_all(&mut p, mid.as_slice());
    push_all(&mut p, name);
    p
}

/// Builds the block of the active file.
pub fn build_active_file_block(profile: &Option<Profile>, active: &Option<ActiveFile>, budget: usize) -> (r: Vec<u8>)
    requires
        active_file_block_ok(*profile, *active, budget as nat),
    ensures
        r@ == active_file_block(*profile, *active, budget as nat),
{
    if ask_mode(profile) {
        return Vec::new();
    }
    match active {
        Some(f) => match (&f.path, &f.content) {
            (Some(p), Some(c)) => {
                let open = lit("\n\n=== ACTIVE FILE (");
                let close = lit(") ===\n");
                let mut header = concat(open.as_slice(), p.as_slice());
                push_all(&mut header, close.as_slice());
                let footer = lit("\n================\n");
                let marker = lit("... [TRUNCATED DUE TO CONTEXT LIMIT]");
                assert(header@ =~= active_file_header(p@));
                build_budget_block(header.as_slice(), c.as_slice(), footer.as_slice(), budget, marker.as_slice())
            },
            _ => Vec::new(),
        },
        None => Vec::new(),
    }
}

/// Whether `build_active_file_block` can build the block.
pub fn active_file_block_fits(profile: &Option<Profile>, active: &Option<ActiveFile>, budget: usize) -> (b: bool)
    ensures
        b == active_file_block_ok(*profile, *active, budget as nat),
{
    if ask_mode(profile) {
        return true;
    }
    match active {
        Some(f) => match (&f.path, &f.content) {
            (Some(p), Some(c)) => {
                let open = lit("\n\n=== ACTIVE FILE (");
                let close = lit(") ===\n");
                let mut header = concat(open.as_slice(), p.as_slice());
                push_all(&mut header, close.as_slice());
                let footer = lit("\n================\n");
                assert(header@ =~= active_file_header(p@));
                budget_block_fits(header.as_slice(), c.as_slice(), footer.as_slice(), budget)
            },
            _ => true,
        },
        None => true,
    }
}

fn knowledge_header_of(name: &[u8]) -> (h: Vec<u8>)
    ensures
        h@ == knowledge_header(name@),
{
    let open = lit("\n\n<knowledge_base topic=\"");
    let close = lit("\">\n");
    let mut h = concat(open.as_slice(), name);
    push_all(&mut h, close.as_slice());
    assert(h@ =~= knowledge_header(name@));
    h
}

/// Builds the blocks of the knowledge documents.
pub fn build_knowledge_blocks(docs: &Vec<KnowledgeDoc>, budget: usize) -> (r: Vec<u8>)
    requires
        knowledge_blocks_ok(docs@, budget as nat),
    ensures
        r@ == knowledge_blocks(docs@, budget as nat),
{
    let footer = lit("\n</knowledge_base>\n");
    let marker = lit("... [KNOWLEDGE TRUNCATED DUE TO CONTEXT LIMIT]");
    let mut r: Vec<u8> = Vec::new();
    let mut i: usize = 0;
    while i < docs.len()
        invariant
            i <= docs@.len(),
            footer@ == knowledge_footer(),
            marker@ == knowledge_marker(),
            knowledge_blocks_ok(docs@, budget as nat),
            r@ == knowledge_blocks(docs@.subrange(0, i as int), budget as nat),
        decreases docs@.len() - i,
    {
        let d = &docs[i];
        let header = knowledge_header_of(d.name.as_slice());
        assert(budget_block_ok(knowledge_header(docs@[i as int].name@), docs@[i as int].content@, knowledge_footer(), budget as nat));
        let block = build_budget_block(header.as_slice(), d.content.as_slice(), footer.as_slice(), budget, marker.as_slice());
        push_all(&mut r, block.as_slice());
        proof {
            let pre = docs@.subrange(0, i as int);
            let post = docs@.subrange(0, i + 1);
            assert(post.drop_last() =~= pre);
        }
        i = i + 1;
    }
    assert(docs@.subrange(0, docs@.len() as int) =~= docs@);
    r
}

/// Whether `build_knowledge_blocks` can build every block.
pub fn knowledge_blocks_fit(docs: &Vec<KnowledgeDoc>, budget: usize) -> (b: bool)
    ensures
        b == knowledge_blocks_ok(docs@, budget as nat),
{
    let footer = lit("\n</knowledge_base>\n");
    let mut i: usize = 0;
    while i < docs.len()
        invariant
            i <= docs@.len(),
            footer@ == knowledge_footer(),
            forall|j: int| 0 <= j < i ==> budget_block_ok(
                knowledge_header(#[trigger] docs@[j].name@),
                docs@[j].content@,
                knowledge_footer(),
                budget as nat,
            ),
        decreases docs@.len() - i,
    {
        let d = &docs[i];
        let header = knowledge_header_of(d.name.as_slice());
        if !budget_block_fits(header.as_slice(), d.content.as_slice(), footer.as_slice(), budget) {
            assert(!budget_block_ok(knowledge_header(docs@[i as int].name@), docs@[i as int].content@, knowledge_footer(), budget as nat));
            return false;
        }
        i = i + 1;
    }
    true
}

/// A file attached to the prompt: its `name`, `content` and `type`, where they are strings.
pub struct Attachment {
    pub name: Option<Vec<u8>>,
    pub content: Option<Vec<u8>>,
    pub mime_type: Option<Vec<u8>>,
}

/// The text that a text attachment adds to the prompt.
pub open spec fn attachment_text(name: Seq<u8>, content: Seq<u8>) -> Seq<u8> {
    "\n\n=== ATTACHMENT: ".spec_bytes() + name + " ===\n".spec_bytes() + content + "\n================\n".spec_bytes()
}

/// An attachment is taken as text where its type starts with `text/`, its content starts
/// with `{`, or its content does not start with `data:image/`.
pub open spec fn is_text_attachment(mime: Seq<u8>, content: Seq<u8>) -> bool {
    starts_with(mime, "text/".spec_bytes()) || starts_with(content, "{".spec_bytes())
        || !starts_with(content, "data:image/".spec_bytes())
}

/// An attachment that is not text is taken as an image where its type starts with `image/`
/// or its content with `data:image/`.
pub open spec fn is_image_attachment(mime: Seq<u8>, content: Seq<u8>) -> bool {
    starts_with(mime, "image/".spec_bytes()) || starts_with(content, "data:image/".spec_bytes())
}

/// The parts of the user message and the text its size is estimated from, once the
/// attachments `atts` are added to `(parts, estimation)`. An image counts as 1000 spaces.
pub open spec fn with_attachments(parts: Seq<PartView>, estimation: Seq<u8>, atts: Seq<Attachment>) -> (Seq<PartView>, Seq<u8>)
    decreases atts.len(),
{
    if atts.len() == 0 {
        (parts, estimation)
    } else {
        let (ps, est) = with_attachments(parts, estimation, atts.drop_last());
        let a = atts.last();
        match (a.name, a.content, a.mime_type) {
            (Some(n), Some(c), Some(m)) => if is_text_attachment(m@, c@) {
                let t = attachment_text(n@, c@);
                (ps.push(PartView::Text(t)), est + t)
            } else if is_image_attachment(m@, c@) {
                (ps.push(PartView::ImageUrl(c@)), est + Seq::new(1000, |i: int| 32u8))
            } else {
                (ps, est)
            },
            _ => (ps, est),
        }
    }
}

pub open spec fn parts_view(ps: Seq<ContentPart>) -> Seq<PartView> {
    ps.map_values(|p: ContentPart| p@)
}

/// Adds the attachments to the user message's parts and to the estimation text.
pub fn add_attachments(parts: &mut Vec<ContentPart>, estimation: &mut Vec<u8>, atts: &Vec<Attachment>)
    ensures
        (parts_view(final(parts)@), final(estimation)@) == with_attachments(parts_view(old(parts)@), old(estimation)@, atts@),
{
    let text_prefix = lit("text/");
    let brace = lit("{");
    let data_image = lit("data:image/");
    let image_prefix = lit("image/");
    let mut i: usize = 0;
    while i < atts.len()
        invariant
            i <= atts@.len(),
            text_prefix@ == "text/".spec_bytes(),
            brace@ == "{".spec_bytes(),
            data_image@ == "data:image/".spec_bytes(),
            image_prefix@ == "image/".spec_bytes(),
            (parts_view(parts@), estimation@) == with_attachments(parts_view(old(parts)@), old(estimation)@, atts@.subrange(0, i as int)),
        decreases atts@.len() - i,
    {
        let a = &atts[i];
        proof {
            let pre = atts@.subrange(0, i as int);
            let post = atts@.subrange(0, i + 1);
            assert(post.drop_last() =~= pre);
            assert(post.last() == atts@[i as int]);
        }
        match (&a.name, &a.content, &a.mime_type) {
            (Some(n), Some(c), Some(m)) => {
                if starts_with_in(m.as_slice(), text_prefix.as_slice()) || starts_with_in(c.as_slice(), brace.as_slice())
                    || !starts_with_in(c.as_slice(), data_image.as_slice()) {
                    let open = lit("\n\n=== ATTACHMENT: ");
                    let mid = lit(" ===\n");
                    let close = lit("\n================\n");
                    let mut t = concat(open.as_slice(), n.as_slice());
                    push_all(&mut t, mid.as_slice());
                    push_all(&mut t, c.as_slice());
                    push_all(&mut t, close.as_slice());
                    assert(t@ =~= attachment_text(n@, c@));
                    push_all(estimation, t.as_slice());
                    let ghost pv = parts_view(parts@);
                    parts.push(ContentPart::Text(t));
                    assert(parts_view(parts@) =~= pv.push(PartView::Text(attachment_text(n@, c@))));
                } else if starts_with_in(m.as_slice(), image_prefix.as_slice()) || starts_with_in(c.as_slice(), data_image.as_slice()) {
                    let ghost pv = parts_view(parts@);
                    let url = slice_copy(c.as_slice(), 0, c.len());
                    assert(url@ =~= c@);
                    parts.push(ContentPart::ImageUrl(url));
                    assert(parts_view(parts@) =~= pv.push(PartView::ImageUrl(c@)));
                    let ghost e0 = estimation@;
                    let mut k: usize = 0;
                    while k < 1000
                        invariant
                            k <= 1000,
                            estimation@ == e0 + Seq::new(k as nat, |j: int| 32u8),
                        decreases 1000 - k,
                    {
                        estimation.push(32u8);
                        k = k + 1;
                        assert(estimation@ =~= e0 + Seq::new(k as nat, |j: int| 32u8));
                    }
                }
            },
            _ => {},
        }
        i = i + 1;
    }
    assert(atts@.subrange(0, atts@.len() as int) =~= atts@);
}

/// An attachment with a name, content and type always becomes exactly one part of the user
/// message: text, or else an image.
pub proof fn law_attachment_never_dropped(parts: Seq<PartView>, estimation: Seq<u8>, atts: Seq<Attachment>)
    requires
        atts.len() > 0,
        atts.last().name is Some,
        atts.last().content is Some,
        atts.last().mime_type is Some,
    ensures
        with_attachments(parts, estimation, atts).0.len() == with_attachments(parts, estimation, atts.drop_last()).0.len() + 1,
{
    let a = atts.last();
    let c = a.content.unwrap()@;
    let m = a.mime_type.unwrap()@;
    if !is_text_attachment(m, c) {
        assert(starts_with(c, "data:image/".spec_bytes()));
        assert(is_image_attachment(m, c));
    }
}

/// The "ask" mode that keeps the active file out of the context is exactly the mode that
/// leaves out the default instructions.
pub proof fn law_ask_mode_is_not_advanced(profile: Option<Profile>)
    ensures
        is_ask_mode(profile) == !is_advanced_mode(profile),
{
    reveal_strlit("ask");
    vstd::string::is_ascii_spec_bytes("ask");
    assert("ask".spec_bytes().len() == 3);
}

/// A context block never holds more of its content than the bytes its budget covers: the
/// header, at most `4 * (budget - overhead)` bytes of the content and the marker, the footer.
pub proof fn law_block_within_budget(header: Seq<u8>, content: Seq<u8>, footer: Seq<u8>, budget: nat, marker: Seq<u8>)
    ensures
        budget_block(header, content, footer, budget, marker).len() <= header.len() + footer.len() + marker.len()
            + 4 * sat_sub(budget, estimated_tokens(header.len()) + estimated_tokens(footer.len())),
        content.len() <= 4 * sat_sub(budget, estimated_tokens(header.len()) + estimated_tokens(footer.len()))
            ==> budget_block(header, content, footer, budget, marker) == header + content + footer,
{
}

/// In "ask" mode the active file never goes into the context.
pub proof fn law_ask_mode_hides_active_file(profile: Option<Profile>, active: Option<ActiveFile>, budget: nat)
    requires
        is_ask_mode(profile),
    ensures
        active_file_block(profile, active, budget).len() == 0,
{
}

/// The profile's id is the three bytes `ask`, with nothing around them.
pub open spec fn id_is_ask(profile: Option<Profile>) -> bool {
    profile matches Some(p) && p.id matches Some(id) && id@ =~= seq![97u8, 115u8, 107u8]
}

/// The mode follows the profile's id alone: the chat is in "ask" mode exactly where the id is
/// `ask`; any other profile, or none, gets a system prompt that starts with the default agent
/// instructions (its own prompt, if any, after them), while an "ask" profile gets only its
/// own prompt.
pub proof fn law_mode_follows_profile_id(profile: Option<Profile>)
    ensures
        is_ask_mode(profile) <==> id_is_ask(profile),
        is_advanced_mode(profile) <==> !id_is_ask(profile),
        !id_is_ask(profile) ==> system_text(profile).len() >= DEFAULT_SYSTEM_PROMPT.spec_bytes().len()
            && system_text(profile).subrange(0, DEFAULT_SYSTEM_PROMPT.spec_bytes().len() as int)
                == DEFAULT_SYSTEM_PROMPT.spec_bytes(),
        id_is_ask(profile) ==> system_text(profile) == match profile {
            Some(p) => match p.system_prompt {
                Some(sp) => sp@,
                None => Seq::<u8>::empty(),
            },
            None => Seq::<u8>::empty(),
        },
{
    reveal_strlit("ask");
    vstd::string::is_ascii_spec_bytes("ask");
    assert("ask".spec_bytes() =~= seq![97u8, 115u8, 107u8]);
    let base = DEFAULT_SYSTEM_PROMPT.spec_bytes();
    let t = system_text(profile);
    if !id_is_ask(profile) {
        assert(t.subrange(0, base.len() as int) =~= base);
    } else {
        assert(Seq::<u8>::empty() + match profile {
            Some(p) => match p.system_prompt {
                Some(sp) => sp@,
                None => Seq::<u8>::empty(),
            },
            None => Seq::<u8>::empty(),
        } =~= match profile {
            Some(p) => match p.system_prompt {
                Some(sp) => sp@,
                None => Seq::<u8>::empty(),
            },
            None => Seq::<u8>::empty(),
        });
    }
}

} // verus!
