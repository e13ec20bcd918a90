//! The tools that the model can call: which one a command names, how its argument reads, and
//! the texts of its result (for the model) and of its feedback (for the user).
use vstd::prelude::*;
use vstd::string::StringSliceAdditionalSpecFns;
use crate::stream::utf8_lossy;
use crate::text::{
    lit, push_all, concat, slice_copy, bytes_eq, find, find_in, starts_with, starts_with_in, trim, trimmed,
    contains, contains_in, is_boundary, trim_start, trim_end, ws_width_at, ws_width_last, occurs_at, trim_end_byte, trim_end_byte_len, decimal, push_decimal, lines_of,
    lines_in, lines_view, join, join_with, parse_usize, parse_usize_in, lemma_find_from_range, lemma_contains_transitive, capped,
};
use crate::prompt::{knowledge_path, build_knowledge_path};

verus! {

/// Results that a codebase search stops at.
pub const SEARCH_LIMIT: usize = 50;

/// Results that a file search stops at.
pub const LOCATE_LIMIT: usize = 20;

/// Depth to which a directory tree is listed.
pub const TREE_MAX_DEPTH: usize = 4;

/// Bytes of a command's output that the model sees.
pub const RUN_RESULT_LIMIT: usize = 20000;

/// Bytes of a command's output shown to the user.
pub const RUN_UI_LIMIT: usize = 1000;

/// Bytes of a whole file that the model sees.
pub const READ_LIMIT: usize = 40000;

/// Bytes of a memory command shown to the user.
pub const MEMORY_DISPLAY_LIMIT: usize = 30;

/// The tool that a command names.
#[derive(PartialEq, Eq, Structural, Clone, Copy, Debug)]
pub enum ToolKind {
    Memory,
    Search,
    Locate,
    Tree,
    Run,
    Read,
    Unknown,
}

pub open spec fn tool_kind_of(cmd: Seq<u8>) -> ToolKind {
    if cmd == "memory".spec_bytes() {
        ToolKind::Memory
    } else if cmd == "search".spec_bytes() {
        ToolKind::Search
    } else if cmd == "locate".spec_bytes() {
        ToolKind::Locate
    } else if cmd == "tree".spec_bytes() {
        ToolKind::Tree
    } else if cmd == "run".spec_bytes() {
        ToolKind::Run
    } else if cmd == "read".spec_bytes() {
        ToolKind::Read
    } else {
        ToolKind::Unknown
    }
}

/// The tool that a command names.
pub fn tool_kind(cmd: &[u8]) -> (k: ToolKind)
    ensures
        k == tool_kind_of(cmd@),
{
    if bytes_eq(cmd, lit("memory").as_slice()) {
        ToolKind::Memory
    } else if bytes_eq(cmd, lit("search").as_slice()) {
        ToolKind::Search
    } else if bytes_eq(cmd, lit("locate").as_slice()) {
        ToolKind::Locate
    } else if bytes_eq(cmd, lit("tree").as_slice()) {
        ToolKind::Tree
    } else if bytes_eq(cmd, lit("run").as_slice()) {
        ToolKind::Run
    } else if bytes_eq(cmd, lit("read").as_slice()) {
        ToolKind::Read
    } else {
        ToolKind::Unknown
    }
}

/// The argument as shown to the user: a memory command is cut to 30 bytes, with `...`.
pub open spec fn display_arg(cmd: Seq<u8>, arg: Seq<u8>) -> Seq<u8> {
    if cmd == "memory".spec_bytes() && arg.len() > MEMORY_DISPLAY_LIMIT {
        arg.subrange(0, MEMORY_DISPLAY_LIMIT as int) + "...".spec_bytes()
    } else {
        arg
    }
}

/// The cut of `display_arg` falls on a character boundary.
pub open spec fn display_arg_ok(cmd: Seq<u8>, arg: Seq<u8>) -> bool {
    cmd == "memory".spec_bytes() && arg.len() > MEMORY_DISPLAY_LIMIT ==> is_boundary(arg, MEMORY_DISPLAY_LIMIT as int)
}

/// The notice sent to the user when a tool is called.
pub open spec fn announcement(cmd: Seq<u8>, arg: Seq<u8>) -> Seq<u8> {
    "\n> \u{26a1} **Agent Triggered:** `".spec_bytes() + cmd + "` on `".spec_bytes() + display_arg(cmd, arg) + "`\n\n".spec_bytes()
}

/// The notice sent to the user when a tool is called.
pub fn announce(cmd: &[u8], arg: &[u8]) -> (r: Vec<u8>)
    requires
        display_arg_ok(cmd@, arg@),
    ensures
        r@ == announcement(cmd@, arg@),
{
    let shown = if bytes_eq(cmd, lit("memory").as_slice()) && arg.len() > MEMORY_DISPLAY_LIMIT {
        let mut s = slice_copy(arg, 0, MEMORY_DISPLAY_LIMIT);
        push_all(&mut s, lit("...").as_slice());
        s
    } else {
        slice_copy(arg, 0, arg.len())
    };
    assert(arg@.subrange(0, arg@.len() as int) =~= arg@);
    let mut r = lit("\n> \u{26a1} **Agent Triggered:** `");
    push_all(&mut r, cmd);
    push_all(&mut r, lit("` on `").as_slice());
    push_all(&mut r, shown.as_slice());
    push_all(&mut r, lit("`\n\n").as_slice());
    assert(r@ =~= announcement(cmd@, arg@));
    r
}

/// Whether `announce` can cut the argument.
pub fn display_arg_fits(cmd: &[u8], arg: &[u8]) -> (b: bool)
    ensures
        b == display_arg_ok(cmd@, arg@),
{
    if bytes_eq(cmd, lit("memory").as_slice()) && arg.len() > MEMORY_DISPLAY_LIMIT {
        crate::text::is_boundary_at(arg, MEMORY_DISPLAY_LIMIT)
    } else {
        true
    }
}

/// What a tool returns: the text for the model and the feedback for the user.
pub struct ToolOutcome {
    pub result: Vec<u8>,
    pub ui: Vec<u8>,
}

/// The outcome of an unknown command.
pub open spec fn unknown_result(cmd: Seq<u8>) -> Seq<u8> {
    "Unknown command: ".spec_bytes() + cmd
}

pub open spec fn unknown_ui(cmd: Seq<u8>) -> Seq<u8> {
    "> \u{2753} **Unknown command:** `".spec_bytes() + cmd + "`\n".spec_bytes()
}

/// The outcome of an unknown command.
pub fn unknown_outcome(cmd: &[u8]) -> (o: ToolOutcome)
    ensures
        o.result@ == unknown_result(cmd@),
        o.ui@ == unknown_ui(cmd@),
{
    let result = concat(lit("Unknown command: ").as_slice(), cmd);
    let mut ui = concat(lit("> \u{2753} **Unknown command:** `").as_slice(), cmd);
    push_all(&mut ui, lit("`\n").as_slice());
    ToolOutcome { result, ui }
}

// ---------------------------------------------------------------- memory

/// What a memory command asks for.
pub enum MemoryAction {
    /// `write <file> | <content>`: the file name, the content and the document's path.
    Write { filename: Vec<u8>, content: Vec<u8>, path: Vec<u8> },
    /// `write` without `|`.
    SyntaxError,
    /// Anything but `write`.
    UnknownCommand,
}

pub enum MemoryActionView {
    Write { filename: Seq<u8>, content: Seq<u8>, path: Seq<u8> },
    SyntaxError,
    UnknownCommand,
}

impl View for MemoryAction {
    type V = MemoryActionView;

    open spec fn view(&self) -> MemoryActionView {
        match self {
            MemoryAction::Write { filename, content, path } => MemoryActionView::Write {
                filename: filename@,
                content: content@,
                path: path@,
            },
            MemoryAction::SyntaxError => MemoryActionView::SyntaxError,
            MemoryAction::UnknownCommand => MemoryActionView::UnknownCommand,
        }
    }
}

/// What a memory command asks for: after `write `, the trimmed text up to the first `|` is
/// the file name and the trimmed rest is the content; the document goes in the project's
/// knowledge base.
pub open spec fn memory_action(arg: Seq<u8>, root: Seq<u8>) -> MemoryActionView {
    let w = "write ".spec_bytes();
    if starts_with(arg, w) {
        let rest = trim(arg.subrange(w.len() as int, arg.len() as int));
        match find(rest, seq![124u8]) {
            Some(p) => {
                let filename = trim(rest.subrange(0, p));
                MemoryActionView::Write {
                    filename,
                    content: trim(rest.subrange(p + 1, rest.len() as int)),
                    path: knowledge_path(root, filename),
                }
            },
            None => MemoryActionView::SyntaxError,
        }
    } else {
        MemoryActionView::UnknownCommand
    }
}

/// Reads a memory command.
pub fn parse_memory(arg: &[u8], root: &[u8]) -> (a: MemoryAction)
    ensures
        a@ == memory_action(arg@, root@),
{
    let w = lit("write ");
    if starts_with_in(arg, w.as_slice()) {
        let after = slice_copy(arg, w.len(), arg.len());
        let rest = trimmed(after.as_slice());
        let bar: [u8; 1] = [124u8];
        assert(bar@ =~= seq![124u8]);
        proof {
            lemma_find_from_range(rest@, seq![124u8], 0);
        }
        match find_in(rest.as_slice(), &bar) {
            Some(p) => {
                let name_part = slice_copy(rest.as_slice(), 0, p);
                let filename = trimmed(name_part.as_slice());
                let rn = rest.len();
                let body = slice_copy(rest.as_slice(), p + 1, rn);
                let content = trimmed(body.as_slice());
                let path = build_knowledge_path(root, filename.as_slice());
                MemoryAction::Write { filename, content, path }
            },
            None => MemoryAction::SyntaxError,
        }
    } else {
        MemoryAction::UnknownCommand
    }
}

pub open spec fn memory_written_result(filename: Seq<u8>) -> Seq<u8> {
    "Successfully wrote knowledge to ".spec_bytes() + filename
}

pub open spec fn memory_written_ui(filename: Seq<u8>) -> Seq<u8> {
    "> \u{1f4be} **Saved to Knowledge Base:** `".spec_bytes() + filename + "`\n".spec_bytes()
}

pub open spec fn memory_failed_result(filename: Seq<u8>, error: Seq<u8>) -> Seq<u8> {
    "Failed to write knowledge file ".spec_bytes() + filename + ": ".spec_bytes() + error
}

pub open spec fn memory_failed_ui(error: Seq<u8>) -> Seq<u8> {
    "> \u{274c} **Failed to Save:** `".spec_bytes() + error + "`\n".spec_bytes()
}

/// The outcome of a memory write that succeeded.
pub fn memory_written(filename: &[u8]) -> (o: ToolOutcome)
    ensures
        o.result@ == memory_written_result(filename@),
        o.ui@ == memory_written_ui(filename@),
{
    let result = concat(lit("Successfully wrote knowledge to ").as_slice(), filename);
    let mut ui = concat(lit("> \u{1f4be} **Saved to Knowledge Base:** `").as_slice(), filename);
    push_all(&mut ui, lit("`\n").as_slice());
    ToolOutcome { result, ui }
}

/// The outcome of a memory write that failed; `error` is how the error displays.
pub fn memory_failed(filename: &[u8], error: &[u8]) -> (o: ToolOutcome)
    ensures
        o.result@ == memory_failed_result(filename@, error@),
        o.ui@ == memory_failed_ui(error@),
{
    let mut result = concat(lit("Failed to write knowledge file ").as_slice(), filename);
    push_all(&mut result, lit(": ").as_slice());
    push_all(&mut result, error);
    let mut ui = concat(lit("> \u{274c} **Failed to Save:** `").as_slice(), error);
    push_all(&mut ui, lit("`\n").as_slice());
    ToolOutcome { result, ui }
}

/// The outcome of a memory command without `|`.
pub fn memory_syntax_error() -> (o: ToolOutcome)
    ensures
        o.result@ == "Error: Invalid syntax for @@MEMORY. Expected `@@MEMORY: write <file> | <content> @@`".spec_bytes(),
        o.ui@ == "> \u{274c} **Syntax Error in Memory Agent**\n".spec_bytes(),
{
    ToolOutcome {
        result: lit("Error: Invalid syntax for @@MEMORY. Expected `@@MEMORY: write <file> | <content> @@`"),
        ui: lit("> \u{274c} **Syntax Error in Memory Agent**\n"),
    }
}

/// The outcome of a memory command other than `write`.
pub fn memory_unknown() -> (o: ToolOutcome)
    ensures
        o.result@ == "Error: Unknown memory command. Expected `write`".spec_bytes(),
        o.ui@ == "> \u{274c} **Unknown Memory Command**\n".spec_bytes(),
{
    ToolOutcome {
        result: lit("Error: Unknown memory command. Expected `write`"),
        ui: lit("> \u{274c} **Unknown Memory Command**\n"),
    }
}

// ---------------------------------------------------------------- search and locate

/// Directories that a codebase search passes over.
pub open spec fn search_skips_name(name: Seq<u8>) -> bool {
    name == "node_modules".spec_bytes() || name == "target".spec_bytes() || name == ".git".spec_bytes()
        || name == "dist".spec_bytes() || name == "build".spec_bytes() || name == ".forge".spec_bytes()
}

/// Entries that a file search passes over.
pub open spec fn locate_skips_name(name: Seq<u8>) -> bool {
    name == "node_modules".spec_bytes() || name == "target".spec_bytes() || name == ".git".spec_bytes()
        || name == ".forge".spec_bytes()
}

/// Entries that a directory tree leaves out.
pub open spec fn tree_skips_name(name: Seq<u8>) -> bool {
    name == "node_modules".spec_bytes() || name == "target".spec_bytes() || name == ".git".spec_bytes()
        || name == ".forge".spec_bytes() || name == "dist".spec_bytes() || name == "build".spec_bytes()
}

/// Whether a codebase search passes over an entry of this name.
pub fn search_skips(name: &[u8]) -> (b: bool)
    ensures
        b == search_skips_name(name@),
{
    bytes_eq(name, lit("node_modules").as_slice()) || bytes_eq(name, lit("target").as_slice())
        || bytes_eq(name, lit(".git").as_slice()) || bytes_eq(name, lit("dist").as_slice())
        || bytes_eq(name, lit("build").as_slice()) || bytes_eq(name, lit(".forge").as_slice())
}

/// Whether a file search passes over an entry of this name.
pub fn locate_skips(name: &[u8]) -> (b: bool)
    ensures
        b == locate_skips_name(name@),
{
    bytes_eq(name, lit("node_modules").as_slice()) || bytes_eq(name, lit("target").as_slice())
        || bytes_eq(name, lit(".git").as_slice()) || bytes_eq(name, lit(".forge").as_slice())
}

/// Whether a directory tree leaves out an entry of this name.
pub fn tree_skips(name: &[u8]) -> (b: bool)
    ensures
        b == tree_skips_name(name@),
{
    bytes_eq(name, lit("node_modules").as_slice()) || bytes_eq(name, lit("target").as_slice())
        || bytes_eq(name, lit(".git").as_slice()) || bytes_eq(name, lit(".forge").as_slice())
        || bytes_eq(name, lit("dist").as_slice()) || bytes_eq(name, lit("build").as_slice())
}

/// A search hit: `<path>:<line number>: <trimmed line>`.
pub open spec fn search_hit(display: Seq<u8>, line_num: nat, line: Seq<u8>) -> Seq<u8> {
    display + ":".spec_bytes() + decimal(line_num) + ": ".spec_bytes() + trim(line)
}

/// The search of `lines[i..]` of a file for `query`, after the hits `results`: the search
/// stops (`true`) as soon as there are 50 hits, before it looks at another line; until then
/// every line that holds the query adds a hit.
pub open spec fn search_lines(display: Seq<u8>, lines: Seq<Seq<u8>>, query: Seq<u8>, results: Seq<Seq<u8>>, i: int) -> (Seq<Seq<u8>>, bool)
    decreases lines.len() - i,
{
    if results.len() >= SEARCH_LIMIT {
        (results, true)
    } else if i < 0 || i >= lines.len() {
        (results, false)
    } else if contains(lines[i], query) {
        search_lines(display, lines, query, results.push(search_hit(display, (i + 1) as nat, lines[i])), i + 1)
    } else {
        search_lines(display, lines, query, results, i + 1)
    }
}

/// Searches a file's text for `query`, adding a hit for each line that holds it while there
/// are fewer than 50; returns whether the search must stop (50 hits).
pub fn search_file(display: &[u8], content: &[u8], query: &[u8], results: &mut Vec<Vec<u8>>) -> (stop: bool)
    ensures
        (lines_view(final(results)@), stop) == search_lines(display@, lines_of(content@), query@, lines_view(old(results)@), 0),
{
    let lines = lines_in(content);
    let ghost lv = lines_view(lines@);
    let mut i: usize = 0;
    while i < lines.len()
        invariant
            i <= lines@.len(),
            lv == lines_view(lines@),
            lv == lines_of(content@),
            search_lines(display@, lv, query@, lines_view(old(results)@), 0) == search_lines(display@, lv, query@, lines_view(results@), i as int),
        decreases lines@.len() - i,
    {
        if results.len() >= SEARCH_LIMIT {
            return true;
        }
        let line = &lines[i];
        assert(line@ == lv[i as int]);
        if contains_in(line.as_slice(), query) {
            let mut hit = concat(display, lit(":").as_slice());
            push_decimal(&mut hit, i + 1);
            push_all(&mut hit, lit(": ").as_slice());
            let t = trimmed(line.as_slice());
            push_all(&mut hit, t.as_slice());
            assert(hit@ =~= search_hit(display@, (i + 1) as nat, lv[i as int]));
            let ghost before = lines_view(results@);
            results.push(hit);
            assert(lines_view(results@) =~= before.push(search_hit(display@, (i + 1) as nat, lv[i as int])));
        }
        i = i + 1;
    }
    results.len() >= SEARCH_LIMIT
}

/// Whether a codebase search already has its 50 hits.
pub fn search_limit_reached(results: &Vec<Vec<u8>>) -> (b: bool)
    ensures
        b == (results@.len() >= SEARCH_LIMIT),
{
    results.len() >= SEARCH_LIMIT
}

/// What a file search keeps of an entry: its shown path is added where its name holds the
/// query and there are fewer than 20 results.
pub open spec fn locate_step(results: Seq<Seq<u8>>, name: Seq<u8>, path: Seq<u8>, query: Seq<u8>) -> Seq<Seq<u8>> {
    if results.len() < LOCATE_LIMIT && contains(name, query) { results.push(path) } else { results }
}

/// Adds an entry to the results of a file search (see `locate_step`).
pub fn locate_add(results: &mut Vec<Vec<u8>>, name: &[u8], path: Vec<u8>, query: &[u8])
    ensures
        lines_view(final(results)@) == locate_step(lines_view(old(results)@), name@, path@, query@),
{
    if results.len() < LOCATE_LIMIT && contains_in(name, query) {
        let ghost before = lines_view(results@);
        let ghost pv = path@;
        results.push(path);
        assert(lines_view(results@) =~= before.push(pv));
    }
}

/// The results of a file search after the entries `entries` (name and shown path), in the
/// order the search walks them, from `results`.
pub open spec fn locate_all(entries: Seq<(Seq<u8>, Seq<u8>)>, query: Seq<u8>, results: Seq<Seq<u8>>) -> Seq<Seq<u8>>
    decreases entries.len(),
{
    if entries.len() == 0 {
        results
    } else {
        let e = entries.last();
        locate_step(locate_all(entries.drop_last(), query, results), e.0, e.1, query)
    }
}

/// A file search returns at most 20 results, whatever entries it walks and in whatever
/// order, and keeps the results it had first.
pub proof fn law_locate_at_most_twenty(entries: Seq<(Seq<u8>, Seq<u8>)>, query: Seq<u8>, results: Seq<Seq<u8>>)
    requires
        results.len() <= LOCATE_LIMIT,
    ensures
        locate_all(entries, query, results).len() <= LOCATE_LIMIT,
        locate_all(entries, query, results).len() >= results.len(),
        locate_all(entries, query, results).subrange(0, results.len() as int) == results,
    decreases entries.len(),
{
    if entries.len() > 0 {
        law_locate_at_most_twenty(entries.drop_last(), query, results);
        let prev = locate_all(entries.drop_last(), query, results);
        let out = locate_all(entries, query, results);
        assert forall|k: int| 0 <= k < results.len() implies out[k] == results[k] by {
            assert(prev.subrange(0, results.len() as int)[k] == results[k]);
        }
        assert(out.subrange(0, results.len() as int) =~= results);
    } else {
        assert(results.subrange(0, results.len() as int) =~= results);
    }
}

pub open spec fn search_result(arg: Seq<u8>, results: Seq<Seq<u8>>) -> Seq<u8> {
    if results.len() == 0 {
        "No results found for '".spec_bytes() + arg + "'".spec_bytes()
    } else {
        "Search results for '".spec_bytes() + arg + "':\n".spec_bytes() + join(results, "\n".spec_bytes())
    }
}

pub open spec fn search_ui(arg: Seq<u8>, count: nat) -> Seq<u8> {
    "> \u{1f50d} **Searched codebase for:** `".spec_bytes() + arg + "` (".spec_bytes() + decimal(count)
        + " results)\n\n".spec_bytes()
}

/// The outcome of a codebase search.
pub fn search_outcome(arg: &[u8], results: &Vec<Vec<u8>>) -> (o: ToolOutcome)
    ensures
        o.result@ == search_result(arg@, lines_view(results@)),
        o.ui@ == search_ui(arg@, results@.len()),
{
    let result = if results.len() == 0 {
        let mut r = concat(lit("No results found for '").as_slice(), arg);
        push_all(&mut r, lit("'").as_slice());
        r
    } else {
        let mut r = concat(lit("Search results for '").as_slice(), arg);
        push_all(&mut r, lit("':\n").as_slice());
        let j = join_with(results, lit("\n").as_slice());
        push_all(&mut r, j.as_slice());
        r
    };
    let mut ui = concat(lit("> \u{1f50d} **Searched codebase for:** `").as_slice(), arg);
    push_all(&mut ui, lit("` (").as_slice());
    push_decimal(&mut ui, results.len());
    push_all(&mut ui, lit(" results)\n\n").as_slice());
    assert(result@ =~= search_result(arg@, lines_view(results@)));
    assert(ui@ =~= search_ui(arg@, results@.len()));
    ToolOutcome { result, ui }
}

pub open spec fn locate_result(arg: Seq<u8>, results: Seq<Seq<u8>>) -> Seq<u8> {
    if results.len() == 0 {
        "No files found matching '".spec_bytes() + arg + "'".spec_bytes()
    } else {
        "Files found:\n".spec_bytes() + join(results, "\n".spec_bytes())
    }
}

pub open spec fn locate_ui(arg: Seq<u8>, count: nat) -> Seq<u8> {
    "> \u{1f9ed} **Located file:** `".spec_bytes() + arg + "` (".spec_bytes() + decimal(count) + " results)\n\n".spec_bytes()
}

/// The outcome of a file search.
pub fn locate_outcome(arg: &[u8], results: &Vec<Vec<u8>>) -> (o: ToolOutcome)
    ensures
        o.result@ == locate_result(arg@, lines_view(results@)),
        o.ui@ == locate_ui(arg@, results@.len()),
{
    let result = if results.len() == 0 {
        let mut r = concat(lit("No files found matching '").as_slice(), arg);
        push_all(&mut r, lit("'").as_slice());
        r
    } else {
        let j = join_with(results, lit("\n").as_slice());
        concat(lit("Files found:\n").as_slice(), j.as_slice())
    };
    let mut ui = concat(lit("> \u{1f9ed} **Located file:** `").as_slice(), arg);
    push_all(&mut ui, lit("` (").as_slice());
    push_decimal(&mut ui, results.len());
    push_all(&mut ui, lit(" results)\n\n").as_slice());
    assert(result@ =~= locate_result(arg@, lines_view(results@)));
    assert(ui@ =~= locate_ui(arg@, results@.len()));
    ToolOutcome { result, ui }
}

// ---------------------------------------------------------------- paths

/// A path given to a tool: as it is where it starts with `/`, else under the project root.
pub open spec fn project_path(arg: Seq<u8>, root: Seq<u8>) -> Seq<u8> {
    if starts_with(arg, "/".spec_bytes()) {
        arg
    } else {
        trim_end_byte(root, 47u8) + "/".spec_bytes() + arg
    }
}

/// Resolves a path given to a tool.
pub fn resolve_path(arg: &[u8], root: &[u8]) -> (p: Vec<u8>)
    ensures
        p@ == project_path(arg@, root@),
{
    if starts_with_in(arg, lit("/").as_slice()) {
        assert(arg@.subrange(0, arg@.len() as int) =~= arg@);
        slice_copy(arg, 0, arg.len())
    } else {
        let end = trim_end_byte_len(root, 47u8);
        let mut p = slice_copy(root, 0, end);
        push_all(&mut p, lit("/").as_slice());
        push_all(&mut p, arg);
        p
    }
}

// ---------------------------------------------------------------- run

pub open spec fn run_truncation_marker() -> Seq<u8> {
    "\n... [OUTPUT TRUNCATED DUE TO LENGTH LIMIT]".spec_bytes()
}

pub open spec fn run_ui_marker() -> Seq<u8> {
    "... \n\n[OUTPUT TRUNCATED IN UI - AGENT SEES MORE]".spec_bytes()
}

/// The report of a command that ran: its exit status, its trimmed output and error output
/// (decoded as `String::from_utf8_lossy` decodes them) where they are not blank, else
/// `(No output)`.
pub open spec fn run_report(status: Seq<u8>, stdout: Seq<u8>, stderr: Seq<u8>) -> Seq<u8> {
    run_report_text(status, utf8_lossy(stdout), utf8_lossy(stderr))
}

/// The result for the model: the report, cut so that with its marker it takes 20000 bytes.
pub open spec fn run_result(report: Seq<u8>) -> Seq<u8> {
    if report.len() > RUN_RESULT_LIMIT {
        report.subrange(0, RUN_RESULT_LIMIT - run_truncation_marker().len()) + run_truncation_marker()
    } else {
        report
    }
}

/// The feedback for the user: the command and the report cut to 1000 bytes.
pub open spec fn run_ui(arg: Seq<u8>, report: Seq<u8>) -> Seq<u8> {
    let shown = if report.len() > RUN_UI_LIMIT {
        report.subrange(0, RUN_UI_LIMIT as int) + run_ui_marker()
    } else {
        report
    };
    "```bash\n$ ".spec_bytes() + arg + "\n".spec_bytes() + shown + "\n```\n".spec_bytes()
}

/// The cuts of the report fall on character boundaries.
pub open spec fn run_cuts_ok(report: Seq<u8>) -> bool {
    &&& report.len() > RUN_RESULT_LIMIT ==> is_boundary(report, RUN_RESULT_LIMIT - run_truncation_marker().len())
    &&& report.len() > RUN_UI_LIMIT ==> is_boundary(report, RUN_UI_LIMIT as int)
}

/// The report of a command that ran; the outputs are decoded as `String::from_utf8_lossy`
/// decodes them.
pub fn build_run_report(status: &[u8], stdout: &[u8], stderr: &[u8]) -> (r: Vec<u8>)
    ensures
        r@ == run_report(status@, stdout@, stderr@),
{
    let out_text = crate::stream::decode_lossy(stdout);
    let err_text = crate::stream::decode_lossy(stderr);
    run_report_of_text(status, out_text.as_slice(), err_text.as_slice())
}

/// The report of a command that ran, from its decoded outputs.
pub open spec fn run_report_text(status: Seq<u8>, out_text: Seq<u8>, err_text: Seq<u8>) -> Seq<u8> {
    let out = trim(out_text);
    let err = trim(err_text);
    "Exit Status: ".spec_bytes() + status + "\n".spec_bytes()
        + (if out.len() > 0 { "STDOUT:\n".spec_bytes() + out + "\n".spec_bytes() } else { Seq::<u8>::empty() })
        + (if err.len() > 0 { "STDERR:\n".spec_bytes() + err + "\n".spec_bytes() } else { Seq::<u8>::empty() })
        + (if out.len() == 0 && err.len() == 0 { "(No output)\n".spec_bytes() } else { Seq::<u8>::empty() })
}

/// The report of a command that ran, from its decoded outputs.
pub fn run_report_of_text(status: &[u8], out_text: &[u8], err_text: &[u8]) -> (r: Vec<u8>)
    ensures
        r@ == run_report_text(status@, out_text@, err_text@),
{
    let out = trimmed(out_text);
    let err = trimmed(err_text);
    let mut r = concat(lit("Exit Status: ").as_slice(), status);
    push_all(&mut r, lit("\n").as_slice());
    if out.len() > 0 {
        push_all(&mut r, lit("STDOUT:\n").as_slice());
        push_all(&mut r, out.as_slice());
        push_all(&mut r, lit("\n").as_slice());
    }
    if err.len() > 0 {
        push_all(&mut r, lit("STDERR:\n").as_slice());
        push_all(&mut r, err.as_slice());
        push_all(&mut r, lit("\n").as_slice());
    }
    if out.len() == 0 && err.len() == 0 {
        push_all(&mut r, lit("(No output)\n").as_slice());
    }
    assert(r@ =~= run_report_text(status@, out_text@, err_text@));
    r
}

/// The outcome of a command that ran.
pub fn run_outcome(arg: &[u8], report: &[u8]) -> (o: ToolOutcome)
    requires
        run_cuts_ok(report@),
    ensures
        o.result@ == run_result(report@),
        o.ui@ == run_ui(arg@, report@),
{
    let marker = lit("\n... [OUTPUT TRUNCATED DUE TO LENGTH LIMIT]");
    let result = if report.len() > RUN_RESULT_LIMIT {
        proof {
            reveal_strlit("\n... [OUTPUT TRUNCATED DUE TO LENGTH LIMIT]");
            vstd::string::is_ascii_spec_bytes("\n... [OUTPUT TRUNCATED DUE TO LENGTH LIMIT]");
        }
        assert(marker@.len() < RUN_RESULT_LIMIT);
        let mut r = slice_copy(report, 0, RUN_RESULT_LIMIT - marker.len());
        push_all(&mut r, marker.as_slice());
        r
    } else {
        assert(report@.subrange(0, report@.len() as int) =~= report@);
        slice_copy(report, 0, report.len())
    };
    let shown = if report.len() > RUN_UI_LIMIT {
        let mut s = slice_copy(report, 0, RUN_UI_LIMIT);
        push_all(&mut s, lit("... \n\n[OUTPUT TRUNCATED IN UI - AGENT SEES MORE]").as_slice());
        s
    } else {
        assert(report@.subrange(0, report@.len() as int) =~= report@);
        slice_copy(report, 0, report.len())
    };
    let mut ui = concat(lit("```bash\n$ ").as_slice(), arg);
    push_all(&mut ui, lit("\n").as_slice());
    push_all(&mut ui, shown.as_slice());
    push_all(&mut ui, lit("\n```\n").as_slice());
    assert(ui@ =~= run_ui(arg@, report@));
    ToolOutcome { result, ui }
}

/// Whether `run_outcome` can cut the report.
pub fn run_cuts_fit(report: &[u8]) -> (b: bool)
    ensures
        b == run_cuts_ok(report@),
{
    let marker = lit("\n... [OUTPUT TRUNCATED DUE TO LENGTH LIMIT]");
    proof {
        reveal_strlit("\n... [OUTPUT TRUNCATED DUE TO LENGTH LIMIT]");
        vstd::string::is_ascii_spec_bytes("\n... [OUTPUT TRUNCATED DUE TO LENGTH LIMIT]");
    }
    assert(marker@.len() < RUN_RESULT_LIMIT);
    let a = report.len() <= RUN_RESULT_LIMIT || crate::text::is_boundary_at(report, RUN_RESULT_LIMIT - marker.len());
    let b = report.len() <= RUN_UI_LIMIT || crate::text::is_boundary_at(report, RUN_UI_LIMIT);
    a && b
}

pub open spec fn run_failed_result(arg: Seq<u8>, error: Seq<u8>) -> Seq<u8> {
    "Failed to execute command '".spec_bytes() + arg + "': ".spec_bytes() + error
}

pub open spec fn run_failed_ui(arg: Seq<u8>, error: Seq<u8>) -> Seq<u8> {
    "```bash\n$ ".spec_bytes() + arg + "\nError: ".spec_bytes() + error + "\n```\n".spec_bytes()
}

/// The outcome of a command that could not be started; `error` is how the error displays.
pub fn run_failed(arg: &[u8], error: &[u8]) -> (o: ToolOutcome)
    ensures
        o.result@ == run_failed_result(arg@, error@),
        o.ui@ == run_failed_ui(arg@, error@),
{
    let mut result = concat(lit("Failed to execute command '").as_slice(), arg);
    push_all(&mut result, lit("': ").as_slice());
    push_all(&mut result, error);
    let mut ui = concat(lit("```bash\n$ ").as_slice(), arg);
    push_all(&mut ui, lit("\nError: ").as_slice());
    push_all(&mut ui, error);
    push_all(&mut ui, lit("\n```\n").as_slice());
    ToolOutcome { result, ui }
}

pub open spec fn run_timeout_result(arg: Seq<u8>) -> Seq<u8> {
    "Command '".spec_bytes() + arg + "' timed out after 15 seconds.".spec_bytes()
}

pub open spec fn run_timeout_ui(arg: Seq<u8>) -> Seq<u8> {
    "```bash\n$ ".spec_bytes() + arg + "\n[TIMED OUT AFTER 15 SECONDS]\n```\n".spec_bytes()
}

/// The outcome of a command that ran out of time.
pub fn run_timed_out(arg: &[u8]) -> (o: ToolOutcome)
    ensures
        o.result@ == run_timeout_result(arg@),
        o.ui@ == run_timeout_ui(arg@),
{
    let mut result = concat(lit("Command '").as_slice(), arg);
    push_all(&mut result, lit("' timed out after 15 seconds.").as_slice());
    let mut ui = concat(lit("```bash\n$ ").as_slice(), arg);
    push_all(&mut ui, lit("\n[TIMED OUT AFTER 15 SECONDS]\n```\n").as_slice());
    ToolOutcome { result, ui }
}

// ---------------------------------------------------------------- read

/// A file read asked for: the path as written, the path to read, and the line range.
pub struct ReadRequest {
    pub path: Vec<u8>,
    pub full_path: Vec<u8>,
    pub range: Option<(usize, usize)>,
}

/// The line range after `|`: `<start>-<end>`, where a start that does not parse is 1 and an
/// end that does not parse is `usize::MAX`; none without `-`.
pub open spec fn read_range(range_text: Seq<u8>) -> Option<(usize, usize)> {
    match find(range_text, seq![45u8]) {
        Some(d) => {
            let start = match parse_usize(trim(range_text.subrange(0, d))) {
                Some(v) => v,
                None => 1usize,
            };
            let end = match parse_usize(trim(range_text.subrange(d + 1, range_text.len() as int))) {
                Some(v) => v,
                None => usize::MAX,
            };
            Some((start, end))
        },
        None => None,
    }
}

/// The path as written, and the range: `<path> | <start>-<end>`, or just `<path>`.
pub open spec fn read_parts(arg: Seq<u8>) -> (Seq<u8>, Option<(usize, usize)>) {
    match find(arg, seq![124u8]) {
        Some(p) => (trim(arg.subrange(0, p)), read_range(trim(arg.subrange(p + 1, arg.len() as int)))),
        None => (arg, None),
    }
}

/// Reads the argument of a `read` command.
pub fn parse_read(arg: &[u8], root: &[u8]) -> (r: ReadRequest)
    ensures
        r.path@ == read_parts(arg@).0,
        r.range == read_parts(arg@).1,
        r.full_path@ == project_path(read_parts(arg@).0, root@),
{
    let bar: [u8; 1] = [124u8];
    let dash: [u8; 1] = [45u8];
    assert(bar@ =~= seq![124u8]);
    assert(dash@ =~= seq![45u8]);
    proof {
        lemma_find_from_range(arg@, seq![124u8], 0);
    }
    let (path, range) = match find_in(arg, &bar) {
        Some(p) => {
            let head = slice_copy(arg, 0, p);
            let path = trimmed(head.as_slice());
            let n = arg.len();
            let tail = slice_copy(arg, p + 1, n);
            let range_text = trimmed(tail.as_slice());
            proof {
                lemma_find_from_range(range_text@, seq![45u8], 0);
            }
            let range = match find_in(range_text.as_slice(), &dash) {
                Some(d) => {
                    let a = slice_copy(range_text.as_slice(), 0, d);
                    let rn = range_text.len();
                    let b = slice_copy(range_text.as_slice(), d + 1, rn);
                    let start = match parse_usize_in(trimmed(a.as_slice()).as_slice()) {
                        Some(v) => v,
                        None => 1usize,
                    };
                    let end = match parse_usize_in(trimmed(b.as_slice()).as_slice()) {
                        Some(v) => v,
                        None => usize::MAX,
                    };
                    Some((start, end))
                },
                None => None,
            };
            (path, range)
        },
        None => {
            assert(arg@.subrange(0, arg@.len() as int) =~= arg@);
            (slice_copy(arg, 0, arg.len()), None)
        },
    };
    let full_path = resolve_path(path.as_slice(), root);
    ReadRequest { path, full_path, range }
}

/// Where the lines of a range start and end among `n` lines.
pub open spec fn range_bounds(start: usize, end: usize, n: nat) -> (int, int) {
    let s = if start >= 1 { start - 1 } else { 0 };
    (if s <= n { s } else { n as int }, if end <= n { end as int } else { n as int })
}

pub open spec fn read_range_result(path: Seq<u8>, start: usize, end: usize, content: Seq<u8>) -> Seq<u8> {
    let lines = lines_of(content);
    let (a, b) = range_bounds(start, end, lines.len());
    "File content (".spec_bytes() + path + ", lines ".spec_bytes() + decimal(start as nat) + "-".spec_bytes()
        + decimal(end as nat) + "):\n".spec_bytes() + join(lines.subrange(a, b), "\n".spec_bytes())
}

pub open spec fn read_range_ui(path: Seq<u8>, start: usize, end: usize) -> Seq<u8> {
    "> \u{1f4d6} **Read File:** `".spec_bytes() + path + "` (lines ".spec_bytes() + decimal(start as nat)
        + "-".spec_bytes() + decimal(end as nat) + ")\n\n".spec_bytes()
}

pub open spec fn read_whole_result(path: Seq<u8>, content: Seq<u8>) -> Seq<u8> {
    if content.len() > READ_LIMIT {
        "File content (".spec_bytes() + path + "):\n".spec_bytes() + content.subrange(0, READ_LIMIT as int)
            + "... [TRUNCATED]".spec_bytes()
    } else {
        "File content (".spec_bytes() + path + "):\n".spec_bytes() + content
    }
}

pub open spec fn read_whole_ui(path: Seq<u8>) -> Seq<u8> {
    "> \u{1f4d6} **Read File:** `".spec_bytes() + path + "` *(Loaded into context)*\n\n".spec_bytes()
}

/// The outcome of a file read, where the file was read (`content`): the range of lines, or
/// the whole text up to 40000 bytes.
pub open spec fn read_result(path: Seq<u8>, range: Option<(usize, usize)>, content: Seq<u8>) -> Seq<u8> {
    match range {
        Some((s, e)) => read_range_result(path, s, e, content),
        None => read_whole_result(path, content),
    }
}

pub open spec fn read_ui(path: Seq<u8>, range: Option<(usize, usize)>) -> Seq<u8> {
    match range {
        Some((s, e)) => read_range_ui(path, s, e),
        None => read_whole_ui(path),
    }
}

/// A range whose start comes after its end (where slicing the lines would panic) is out, and
/// so is a cut of the whole text inside a character.
pub open spec fn read_ok(range: Option<(usize, usize)>, content: Seq<u8>) -> bool {
    match range {
        Some((s, e)) => {
            let (a, b) = range_bounds(s, e, lines_of(content).len());
            a <= b
        },
        None => content.len() > READ_LIMIT ==> is_boundary(content, READ_LIMIT as int),
    }
}

/// The outcome of a file read.
pub fn read_outcome(req: &ReadRequest, content: &[u8]) -> (o: ToolOutcome)
    requires
        read_ok(req.range, content@),
    ensures
        o.result@ == read_result(req.path@, req.range, content@),
        o.ui@ == read_ui(req.path@, req.range),
{
    let path = req.path.as_slice();
    match req.range {
        Some((start, end)) => {
            let lines = lines_in(content);
            let n = lines.len();
            let s = if start >= 1 { start - 1 } else { 0 };
            let a = if s <= n { s } else { n };
            let b = if end <= n { end } else { n };
            let mut subset: Vec<Vec<u8>> = Vec::new();
            let mut i: usize = a;
            while i < b
                invariant
                    a <= i <= b <= lines@.len(),
                    lines_view(subset@) == lines_view(lines@).subrange(a as int, i as int),
                decreases b - i,
            {
                let l = slice_copy(lines[i].as_slice(), 0, lines[i].len());
                assert(l@ =~= lines@[i as int]@);
                let ghost before = lines_view(subset@);
                subset.push(l);
                assert(lines_view(subset@) =~= before.push(l@));
                assert(lines_view(lines@)[i as int] == lines@[i as int]@);
                assert(lines_view(subset@) =~= lines_view(lines@).subrange(a as int, i + 1));
                i = i + 1;
            }
            let joined = join_with(&subset, lit("\n").as_slice());
            let mut result = concat(lit("File content (").as_slice(), path);
            push_all(&mut result, lit(", lines ").as_slice());
            push_decimal(&mut result, start);
            push_all(&mut result, lit("-").as_slice());
            push_decimal(&mut result, end);
            push_all(&mut result, lit("):\n").as_slice());
            push_all(&mut result, joined.as_slice());
            let mut ui = concat(lit("> \u{1f4d6} **Read File:** `").as_slice(), path);
            push_all(&mut ui, lit("` (lines ").as_slice());
            push_decimal(&mut ui, start);
            push_all(&mut ui, lit("-").as_slice());
            push_decimal(&mut ui, end);
            push_all(&mut ui, lit(")\n\n").as_slice());
            assert(lines_view(subset@) =~= lines_of(content@).subrange(a as int, b as int));
            assert(result@ =~= read_range_result(req.path@, start, end, content@));
            assert(ui@ =~= read_range_ui(req.path@, start, end));
            ToolOutcome { result, ui }
        },
        None => {
            let mut result = concat(lit("File content (").as_slice(), path);
            push_all(&mut result, lit("):\n").as_slice());
            if content.len() > READ_LIMIT {
                let cut = slice_copy(content, 0, READ_LIMIT);
                push_all(&mut result, cut.as_slice());
                push_all(&mut result, lit("... [TRUNCATED]").as_slice());
            } else {
                push_all(&mut result, content);
            }
            let mut ui = concat(lit("> \u{1f4d6} **Read File:** `").as_slice(), path);
            push_all(&mut ui, lit("` *(Loaded into context)*\n\n").as_slice());
            assert(result@ =~= read_whole_result(req.path@, content@));
            assert(ui@ =~= read_whole_ui(req.path@));
            ToolOutcome { result, ui }
        },
    }
}

/// Whether `read_outcome` can be built for this text.
pub fn read_fits(req: &ReadRequest, content: &[u8]) -> (b: bool)
    ensures
        b == read_ok(req.range, content@),
{
    match req.range {
        Some((start, end)) => {
            let lines = lines_in(content);
            let n = lines.len();
            let s = if start >= 1 { start - 1 } else { 0 };
            let a = if s <= n { s } else { n };
            let b = if end <= n { end } else { n };
            a <= b
        },
        None => content.len() <= READ_LIMIT || crate::text::is_boundary_at(content, READ_LIMIT),
    }
}

pub open spec fn read_failed_result(path: Seq<u8>, error: Seq<u8>) -> Seq<u8> {
    "Failed to read file ".spec_bytes() + path + ": ".spec_bytes() + error
}

pub open spec fn read_failed_ui(path: Seq<u8>, error: Seq<u8>) -> Seq<u8> {
    "> \u{274c} **Failed to Read:** `".spec_bytes() + path + "` (".spec_bytes() + error + ")\n".spec_bytes()
}

/// The outcome of a file that could not be read; `error` is how the error displays.
pub fn read_failed(req: &ReadRequest, error: &[u8]) -> (o: ToolOutcome)
    ensures
        o.result@ == read_failed_result(req.path@, error@),
        o.ui@ == read_failed_ui(req.path@, error@),
{
    let path = req.path.as_slice();
    let mut result = concat(lit("Failed to read file ").as_slice(), path);
    push_all(&mut result, lit(": ").as_slice());
    push_all(&mut result, error);
    let mut ui = concat(lit("> \u{274c} **Failed to Read:** `").as_slice(), path);
    push_all(&mut ui, lit("` (").as_slice());
    push_all(&mut ui, error);
    push_all(&mut ui, lit(")\n").as_slice());
    ToolOutcome { result, ui }
}

// ---------------------------------------------------------------- dispatch

/// What carrying out a tool command takes.
pub enum ToolPlan {
    /// Write a knowledge document, or report a malformed memory command.
    Memory(MemoryAction),
    /// Search the files under `root` for lines holding `query`.
    Search { query: Vec<u8>, root: Vec<u8> },
    /// Find the entries under `root` whose name holds `query`.
    Locate { query: Vec<u8>, root: Vec<u8> },
    /// List the directory tree at `path`.
    Tree { path: Vec<u8> },
    /// Run `command` in a shell, in `dir` where there is a project root.
    Run { command: Vec<u8>, dir: Option<Vec<u8>> },
    /// Read a file.
    Read(ReadRequest),
    /// An unknown command, and its outcome.
    Unknown(ToolOutcome),
}

/// What a tool command plans, by its kind (see `ToolPlan`).
pub open spec fn planned(p: ToolPlan, cmd: Seq<u8>, arg: Seq<u8>, root: Seq<u8>) -> bool {
    match tool_kind_of(cmd) {
        ToolKind::Memory => p matches ToolPlan::Memory(a) && a@ == memory_action(arg, root),
        ToolKind::Search => p matches ToolPlan::Search { query, root: r } && query@ == arg && r@ == root,
        ToolKind::Locate => p matches ToolPlan::Locate { query, root: r } && query@ == arg && r@ == root,
        ToolKind::Tree => p matches ToolPlan::Tree { path } && path@ == project_path(arg, root),
        ToolKind::Run => p matches ToolPlan::Run { command, dir } && command@ == arg && match dir {
            Some(d) => root.len() > 0 && d@ == root,
            None => root.len() == 0,
        },
        ToolKind::Read => p matches ToolPlan::Read(r) && r.path@ == read_parts(arg).0
            && r.range == read_parts(arg).1 && r.full_path@ == project_path(read_parts(arg).0, root),
        ToolKind::Unknown => p matches ToolPlan::Unknown(o) && o.result@ == unknown_result(cmd)
            && o.ui@ == unknown_ui(cmd),
    }
}

/// Plans a tool command with argument `arg` in the project at `root` (empty where there is
/// none).
pub fn plan_tool(cmd: &[u8], arg: &[u8], root: &[u8]) -> (p: ToolPlan)
    ensures
        planned(p, cmd@, arg@, root@),
{
    assert(arg@.subrange(0, arg@.len() as int) =~= arg@);
    assert(root@.subrange(0, root@.len() as int) =~= root@);
    match tool_kind(cmd) {
        ToolKind::Memory => ToolPlan::Memory(parse_memory(arg, root)),
        ToolKind::Search => ToolPlan::Search { query: slice_copy(arg, 0, arg.len()), root: slice_copy(root, 0, root.len()) },
        ToolKind::Locate => ToolPlan::Locate { query: slice_copy(arg, 0, arg.len()), root: slice_copy(root, 0, root.len()) },
        ToolKind::Tree => ToolPlan::Tree { path: resolve_path(arg, root) },
        ToolKind::Run => {
            let dir = if root.len() > 0 { Some(slice_copy(root, 0, root.len())) } else { None };
            ToolPlan::Run { command: slice_copy(arg, 0, arg.len()), dir }
        },
        ToolKind::Read => ToolPlan::Read(parse_read(arg, root)),
        ToolKind::Unknown => ToolPlan::Unknown(unknown_outcome(cmd)),
    }
}

/// A file search adds no hit once there are 50 and stops at once; below the limit, it ends
/// with at most 50 hits, exactly 50 where it stops, and the hits it had before kept first.
pub proof fn law_search_stops_at_limit(display: Seq<u8>, lines: Seq<Seq<u8>>, query: Seq<u8>, results: Seq<Seq<u8>>, i: int)
    ensures
        results.len() >= SEARCH_LIMIT ==> search_lines(display, lines, query, results, i) == (results, true),
        results.len() <= SEARCH_LIMIT ==> search_lines(display, lines, query, results, i).0.len() <= SEARCH_LIMIT,
        results.len() <= SEARCH_LIMIT ==> (search_lines(display, lines, query, results, i).1 <==> search_lines(display, lines, query, results, i).0.len() == SEARCH_LIMIT),
        search_lines(display, lines, query, results, i).0.len() >= results.len(),
        search_lines(display, lines, query, results, i).0.subrange(0, results.len() as int) == results,
    decreases lines.len() - i,
{
    if results.len() < SEARCH_LIMIT && i >= 0 && i < lines.len() {
        if contains(lines[i], query) {
            let r2 = results.push(search_hit(display, (i + 1) as nat, lines[i]));
            law_search_stops_at_limit(display, lines, query, r2, i + 1);
            let out = search_lines(display, lines, query, r2, i + 1).0;
            assert forall|k: int| 0 <= k < results.len() implies out[k] == results[k] by {
                assert(out.subrange(0, r2.len() as int)[k] == r2[k]);
            }
            assert(out.subrange(0, results.len() as int) =~= results);
        } else {
            law_search_stops_at_limit(display, lines, query, results, i + 1);
        }
    } else {
        assert(results.subrange(0, results.len() as int) =~= results);
    }
}

/// The hits of a codebase search after the files `files` (each its shown path and its lines)
/// were searched in turn, as a search walks them, from the hits `results`.
pub open spec fn search_files(files: Seq<(Seq<u8>, Seq<Seq<u8>>)>, query: Seq<u8>, results: Seq<Seq<u8>>) -> Seq<Seq<u8>>
    decreases files.len(),
{
    if files.len() == 0 {
        results
    } else {
        let rest = files.drop_last();
        let f = files.last();
        search_lines(f.0, f.1, query, search_files(rest, query, results), 0).0
    }
}

/// A codebase search returns at most 50 hits, in whatever order and number its files are
/// searched.
pub proof fn law_search_at_most_fifty(files: Seq<(Seq<u8>, Seq<Seq<u8>>)>, query: Seq<u8>, results: Seq<Seq<u8>>)
    requires
        results.len() <= SEARCH_LIMIT,
    ensures
        search_files(files, query, results).len() <= SEARCH_LIMIT,
    decreases files.len(),
{
    if files.len() > 0 {
        let f = files.last();
        law_search_at_most_fifty(files.drop_last(), query, results);
        law_search_stops_at_limit(f.0, f.1, query, search_files(files.drop_last(), query, results), 0);
    }
}

/// Every hit of `lines[i..]` for `query`, with no limit.
pub open spec fn all_hits(display: Seq<u8>, lines: Seq<Seq<u8>>, query: Seq<u8>, i: int) -> Seq<Seq<u8>>
    decreases lines.len() - i,
{
    if i < 0 || i >= lines.len() {
        seq![]
    } else if contains(lines[i], query) {
        seq![search_hit(display, (i + 1) as nat, lines[i])] + all_hits(display, lines, query, i + 1)
    } else {
        all_hits(display, lines, query, i + 1)
    }
}

/// Every hit of the files in turn, with no limit.
pub open spec fn files_hits(files: Seq<(Seq<u8>, Seq<Seq<u8>>)>, query: Seq<u8>) -> Seq<Seq<u8>>
    decreases files.len(),
{
    if files.len() == 0 {
        seq![]
    } else {
        files_hits(files.drop_last(), query) + all_hits(files.last().0, files.last().1, query, 0)
    }
}

/// What a file search keeps is among the hits it had and the file's hits; all of them
/// where it ends below the limit.
proof fn lemma_search_lines_hits(display: Seq<u8>, lines: Seq<Seq<u8>>, query: Seq<u8>, results: Seq<Seq<u8>>, i: int)
    ensures
        forall|h: Seq<u8>| #[trigger] search_lines(display, lines, query, results, i).0.contains(h)
            ==> results.contains(h) || all_hits(display, lines, query, i).contains(h),
        search_lines(display, lines, query, results, i).0.len() < SEARCH_LIMIT
            ==> search_lines(display, lines, query, results, i).0 == results + all_hits(display, lines, query, i),
    decreases lines.len() - i,
{
    if results.len() >= SEARCH_LIMIT {
    } else if i < 0 || i >= lines.len() {
        assert(results + all_hits(display, lines, query, i) =~= results);
    } else if contains(lines[i], query) {
        let hit = search_hit(display, (i + 1) as nat, lines[i]);
        let r2 = results.push(hit);
        lemma_search_lines_hits(display, lines, query, r2, i + 1);
        let rest = all_hits(display, lines, query, i + 1);
        assert(all_hits(display, lines, query, i) == seq![hit] + rest);
        assert forall|h: Seq<u8>| #[trigger] search_lines(display, lines, query, results, i).0.contains(h)
            implies results.contains(h) || all_hits(display, lines, query, i).contains(h) by {
            if r2.contains(h) && !results.contains(h) {
                let k = choose|k: int| 0 <= k < r2.len() && r2[k] == h;
                assert(k == results.len());
                assert((seq![hit] + rest)[0] == hit);
            }
            if rest.contains(h) {
                let k = choose|k: int| 0 <= k < rest.len() && rest[k] == h;
                assert((seq![hit] + rest)[k + 1] == h);
            }
        }
        assert(r2 + rest =~= results + (seq![hit] + rest));
    } else {
        lemma_search_lines_hits(display, lines, query, results, i + 1);
    }
}

/// Every hit of a query is a hit of any query that it holds.
proof fn lemma_all_hits_narrower(display: Seq<u8>, lines: Seq<Seq<u8>>, q1: Seq<u8>, q2: Seq<u8>, i: int)
    requires
        contains(q2, q1),
    ensures
        forall|h: Seq<u8>| #[trigger] all_hits(display, lines, q2, i).contains(h) ==> all_hits(display, lines, q1, i).contains(h),
    decreases lines.len() - i,
{
    if 0 <= i < lines.len() {
        lemma_all_hits_narrower(display, lines, q1, q2, i + 1);
        let hit = search_hit(display, (i + 1) as nat, lines[i]);
        let a = all_hits(display, lines, q1, i + 1);
        let b = all_hits(display, lines, q2, i + 1);
        if contains(lines[i], q2) {
            lemma_contains_transitive(lines[i], q2, q1);
        }
        assert forall|h: Seq<u8>| #[trigger] all_hits(display, lines, q2, i).contains(h) implies all_hits(display, lines, q1, i).contains(h) by {
            if b.contains(h) {
                let k = choose|k: int| 0 <= k < a.len() && a[k] == h;
                if contains(lines[i], q1) {
                    assert((seq![hit] + a)[k + 1] == h);
                }
            } else {
                assert(contains(lines[i], q2));
                let k = choose|k: int| 0 <= k < (seq![hit] + b).len() && (seq![hit] + b)[k] == h;
                if k > 0 {
                    assert(b[k - 1] == h);
                }
                assert((seq![hit] + a)[0] == hit);
            }
        }
    }
}

/// What a codebase search keeps is among the hits it had and its files' hits; all of them
/// where it ends below the limit.
proof fn lemma_search_files_hits(files: Seq<(Seq<u8>, Seq<Seq<u8>>)>, query: Seq<u8>, results: Seq<Seq<u8>>)
    ensures
        forall|h: Seq<u8>| #[trigger] search_files(files, query, results).contains(h)
            ==> results.contains(h) || files_hits(files, query).contains(h),
        search_files(files, query, results).len() < SEARCH_LIMIT
            ==> search_files(files, query, results) == results + files_hits(files, query),
    decreases files.len(),
{
    if files.len() == 0 {
        assert(results + files_hits(files, query) =~= results);
    } else {
        let rest = files.drop_last();
        let f = files.last();
        let before = search_files(rest, query, results);
        lemma_search_files_hits(rest, query, results);
        lemma_search_lines_hits(f.0, f.1, query, before, 0);
        law_search_stops_at_limit(f.0, f.1, query, before, 0);
        let fh = files_hits(rest, query);
        let ah = all_hits(f.0, f.1, query, 0);
        assert forall|h: Seq<u8>| #[trigger] search_files(files, query, results).contains(h)
            implies results.contains(h) || files_hits(files, query).contains(h) by {
            if fh.contains(h) {
                let k = choose|k: int| 0 <= k < fh.len() && fh[k] == h;
                assert((fh + ah)[k] == h);
            }
            if ah.contains(h) {
                let k = choose|k: int| 0 <= k < ah.len() && ah[k] == h;
                assert((fh + ah)[fh.len() + k] == h);
            }
        }
        if search_files(files, query, results).len() < SEARCH_LIMIT {
            assert(results + fh + ah =~= results + (fh + ah));
        }
    }
}

proof fn lemma_files_hits_narrower(files: Seq<(Seq<u8>, Seq<Seq<u8>>)>, q1: Seq<u8>, q2: Seq<u8>)
    requires
        contains(q2, q1),
    ensures
        forall|h: Seq<u8>| #[trigger] files_hits(files, q2).contains(h) ==> files_hits(files, q1).contains(h),
    decreases files.len(),
{
    if files.len() > 0 {
        let rest = files.drop_last();
        let f = files.last();
        lemma_files_hits_narrower(rest, q1, q2);
        lemma_all_hits_narrower(f.0, f.1, q1, q2, 0);
        let a1 = files_hits(rest, q1);
        let b1 = all_hits(f.0, f.1, q1, 0);
        let a2 = files_hits(rest, q2);
        let b2 = all_hits(f.0, f.1, q2, 0);
        assert forall|h: Seq<u8>| #[trigger] files_hits(files, q2).contains(h) implies files_hits(files, q1).contains(h) by {
            let k = choose|k: int| 0 <= k < (a2 + b2).len() && (a2 + b2)[k] == h;
            if k < a2.len() {
                assert(a2[k] == h);
                assert(a2.contains(h));
                let m = choose|m: int| 0 <= m < a1.len() && a1[m] == h;
                assert((a1 + b1)[m] == h);
            } else {
                assert(b2[k - a2.len()] == h);
                assert(b2.contains(h));
                let m = choose|m: int| 0 <= m < b1.len() && b1[m] == h;
                assert((a1 + b1)[a1.len() + m] == h);
            }
        }
    }
}

/// A narrower query misses nothing that a wider one finds: where `q2` holds `q1` and the
/// search for `q1` ends below the limit, every hit of the search for `q2` over the same
/// files, from the same start, is a hit of the search for `q1`.
pub proof fn law_narrower_query_finds_more(files: Seq<(Seq<u8>, Seq<Seq<u8>>)>, q1: Seq<u8>, q2: Seq<u8>, results: Seq<Seq<u8>>)
    requires
        contains(q2, q1),
        search_files(files, q1, results).len() < SEARCH_LIMIT,
    ensures
        forall|h: Seq<u8>| #[trigger] search_files(files, q2, results).contains(h) ==> search_files(files, q1, results).contains(h),
{
    lemma_search_files_hits(files, q1, results);
    lemma_search_files_hits(files, q2, results);
    lemma_files_hits_narrower(files, q1, q2);
    let a = search_files(files, q1, results);
    let fh = files_hits(files, q1);
    assert forall|h: Seq<u8>| #[trigger] search_files(files, q2, results).contains(h) implies a.contains(h) by {
        if results.contains(h) {
            let k = choose|k: int| 0 <= k < results.len() && results[k] == h;
            assert((results + fh)[k] == h);
        } else {
            assert(fh.contains(h));
            let k = choose|k: int| 0 <= k < fh.len() && fh[k] == h;
            assert((results + fh)[results.len() + k] == h);
        }
    }
}

proof fn lemma_search_lines_capped(display: Seq<u8>, lines: Seq<Seq<u8>>, query: Seq<u8>, results: Seq<Seq<u8>>, i: int)
    requires
        results.len() <= SEARCH_LIMIT,
    ensures
        search_lines(display, lines, query, results, i).0 == capped(results + all_hits(display, lines, query, i), SEARCH_LIMIT as int),
    decreases lines.len() - i,
{
    let a = all_hits(display, lines, query, i);
    if results.len() >= SEARCH_LIMIT {
        assert((results + a).subrange(0, SEARCH_LIMIT as int) =~= results);
    } else if i < 0 || i >= lines.len() {
        assert(results + a =~= results);
    } else if contains(lines[i], query) {
        let hit = search_hit(display, (i + 1) as nat, lines[i]);
        lemma_search_lines_capped(display, lines, query, results.push(hit), i + 1);
        assert(results + a =~= results.push(hit) + all_hits(display, lines, query, i + 1));
    } else {
        lemma_search_lines_capped(display, lines, query, results, i + 1);
    }
}

/// A codebase search reports, after the hits it had, every hit of the files it reads, each
/// once and in the order read, up to 50 hits in all.
pub proof fn law_search_reports_hits_in_order(files: Seq<(Seq<u8>, Seq<Seq<u8>>)>, query: Seq<u8>, results: Seq<Seq<u8>>)
    requires
        results.len() <= SEARCH_LIMIT,
    ensures
        search_files(files, query, results) == capped(results + files_hits(files, query), SEARCH_LIMIT as int),
    decreases files.len(),
{
    if files.len() == 0 {
        assert(results + files_hits(files, query) =~= results);
    } else {
        let prev = files.drop_last();
        let f = files.last();
        law_search_reports_hits_in_order(prev, query, results);
        law_search_at_most_fifty(prev, query, results);
        let x = search_files(prev, query, results);
        lemma_search_lines_capped(f.0, f.1, query, x, 0);
        let s = results + files_hits(prev, query);
        let h = all_hits(f.0, f.1, query, 0);
        assert(results + files_hits(files, query) =~= s + h);
        if s.len() > SEARCH_LIMIT {
            assert((x + h).subrange(0, SEARCH_LIMIT as int) =~= (s + h).subrange(0, SEARCH_LIMIT as int));
        }
    }
}

/// The model is shown at most 20000 bytes of a command's output, and the user the command and
/// at most 1000 bytes of it, with the markers.
pub proof fn law_run_output_bounded(arg: Seq<u8>, report: Seq<u8>)
    ensures
        run_result(report).len() <= RUN_RESULT_LIMIT,
        run_ui(arg, report).len() <= "```bash\n$ ".spec_bytes().len() + arg.len() + "\n".spec_bytes().len() + RUN_UI_LIMIT
            + run_ui_marker().len() + "\n```\n".spec_bytes().len(),
{
    reveal_strlit("\n... [OUTPUT TRUNCATED DUE TO LENGTH LIMIT]");
    vstd::string::is_ascii_spec_bytes("\n... [OUTPUT TRUNCATED DUE TO LENGTH LIMIT]");
}

/// An ASCII byte that is not whitespace.
pub open spec fn is_plain_ascii(b: u8) -> bool {
    b < 0x80 && b != 0x20 && !(0x09 <= b && b <= 0x0D)
}

proof fn lemma_trim_plain_ends(s: Seq<u8>)
    requires
        s.len() > 0,
        forall|i: int| 0 <= i < s.len() ==> s[i] < 0x80,
        is_plain_ascii(s[0]),
        is_plain_ascii(s.last()),
    ensures
        trim_start(s) == s,
        trim_end(s) == s,
        trim(s) == s,
{
    assert(ws_width_at(s, 0) == 0);
    assert(ws_width_last(s) == 0);
}

/// A memory command written as `write <file> | <content>`, with a file name of ASCII
/// characters other than whitespace and `|`, and an ASCII content that does not start or end
/// with whitespace, writes that content to that file of the knowledge base.
pub proof fn law_memory_write_is_what_was_written(f: Seq<u8>, x: Seq<u8>, root: Seq<u8>)
    requires
        f.len() > 0,
        x.len() > 0,
        forall|i: int| 0 <= i < f.len() ==> is_plain_ascii(#[trigger] f[i]) && f[i] != 124u8,
        forall|i: int| 0 <= i < x.len() ==> #[trigger] x[i] < 0x80,
        is_plain_ascii(x[0]),
        is_plain_ascii(x.last()),
    ensures
        memory_action("write ".spec_bytes() + f + " | ".spec_bytes() + x, root) == (MemoryActionView::Write {
            filename: f,
            content: x,
            path: knowledge_path(root, f),
        }),
{
    reveal_strlit("write ");
    reveal_strlit(" | ");
    vstd::string::is_ascii_spec_bytes("write ");
    vstd::string::is_ascii_spec_bytes(" | ");
    let w = "write ".spec_bytes();
    let sep = " | ".spec_bytes();
    assert(w.len() == 6);
    assert(sep.len() == 3);
    assert(sep[0] == 32u8 && sep[1] == 124u8 && sep[2] == 32u8);
    let arg = w + f + sep + x;
    assert(starts_with(arg, w)) by {
        assert(arg.subrange(0, 6) =~= w);
    }
    let after = arg.subrange(6, arg.len() as int);
    assert(after =~= f + sep + x);
    let fl = f.len() as int;
    assert(forall|i: int| 0 <= i < fl ==> #[trigger] after[i] == f[i]);
    assert(forall|i: int| 0 <= i < x.len() ==> #[trigger] after[fl + 3 + i] == x[i]);
    assert(after[fl] == 32u8 && after[fl + 1] == 124u8 && after[fl + 2] == 32u8);
    lemma_trim_plain_ends(after);
    let rest = after;
    assert forall|i: int| 0 <= i < fl + 1 implies !occurs_at(rest, seq![124u8], i) by {
        if occurs_at(rest, seq![124u8], i) {
            assert(rest.subrange(i, i + 1)[0] == rest[i]);
        }
    }
    crate::text::lemma_find_skip(rest, seq![124u8], 0, fl + 1);
    assert(occurs_at(rest, seq![124u8], fl + 1)) by {
        assert(rest.subrange(fl + 1, fl + 2) =~= seq![124u8]);
    }
    assert(find(rest, seq![124u8]) == Some(fl + 1));
    let head = rest.subrange(0, fl + 1);
    assert(head =~= f.push(32u8));
    assert(ws_width_at(head, 0) == 0);
    assert(ws_width_last(head) == 1);
    assert(head.subrange(0, head.len() - 1) =~= f);
    lemma_trim_plain_ends(f);
    let tail = rest.subrange(fl + 2, rest.len() as int);
    assert(tail =~= seq![32u8] + x);
    assert(ws_width_at(tail, 0) == 1);
    assert(tail.subrange(1, tail.len() as int) =~= x);
    lemma_trim_plain_ends(x);
    assert(ws_width_last(tail) == 0);
}

} // verus!
