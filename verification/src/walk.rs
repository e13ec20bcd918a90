//! The walk of a codebase search and of a file search over the directories below a root:
//! which entries they pass over, which files a search reads, in which order, and what a file
//! search reports.
use vstd::prelude::*;
use vstd::string::StringSliceAdditionalSpecFns;
use crate::text::{contains, slice_copy, capped};
use crate::tools::{search_skips_name, locate_skips_name, search_skips, locate_skips, locate_add, locate_all, LOCATE_LIMIT};

verus! {

/// What an entry's metadata says it is; `Unknown` where it could not be read.
pub enum EntryKind {
    Dir,
    File,
    Unknown,
}

/// A directory as it was listed, its entries in the order the system gave them (none where
/// it could not be read).
pub struct WalkDir {
    pub entries: Vec<WalkEntry>,
}

/// An entry of a directory.
pub struct WalkEntry {
    /// The caller's handle for the entry's path.
    pub id: usize,
    /// The file name (`to_string_lossy`).
    pub name: Vec<u8>,
    /// The path as shown (`display`).
    pub path: Vec<u8>,
    pub kind: EntryKind,
    /// What the directory holds, where it is one that was listed.
    pub children: WalkDir,
}

/// The files that a codebase search reads, in the order it reads them, as `(handle, shown
/// path)`: every file below the directory, in listing order, a directory's files where the
/// directory stands; entries with a skipped name, and all below them, are passed over, as are
/// entries whose metadata could not be read.
pub open spec fn search_targets(es: Seq<WalkEntry>) -> Seq<(usize, Seq<u8>)>
    decreases es,
{
    if es.len() == 0 {
        seq![]
    } else {
        proof {
            assert(decreases_to!(es => es[es.len() - 1]));
        }
        search_targets(es.drop_last()) + entry_targets(es[es.len() - 1])
    }
}

/// The files that a codebase search reads at and below an entry (see `search_targets`).
pub open spec fn entry_targets(e: WalkEntry) -> Seq<(usize, Seq<u8>)>
    decreases e,
{
    if search_skips_name(e.name@) {
        seq![]
    } else {
        match e.kind {
            EntryKind::Dir => {
                proof {
                    assert(decreases_to!(e => e.children.entries@));
                }
                search_targets(e.children.entries@)
            },
            EntryKind::File => seq![(e.id, e.path@)],
            EntryKind::Unknown => seq![],
        }
    }
}

pub open spec fn targets_view(v: Seq<(usize, Vec<u8>)>) -> Seq<(usize, Seq<u8>)> {
    v.map_values(|t: (usize, Vec<u8>)| (t.0, t.1@))
}

fn copy_bytes(v: &Vec<u8>) -> (r: Vec<u8>)
    ensures
        r@ == v@,
{
    assert(v@.subrange(0, v@.len() as int) =~= v@);
    slice_copy(v.as_slice(), 0, v.len())
}

fn push_search_targets(es: &Vec<WalkEntry>, out: &mut Vec<(usize, Vec<u8>)>)
    ensures
        targets_view(final(out)@) == targets_view(old(out)@) + search_targets(es@),
    decreases es@,
{
    let ghost start = targets_view(out@);
    let mut i: usize = 0;
    assert(es@.subrange(0, 0) =~= Seq::<WalkEntry>::empty());
    assert(start + search_targets(Seq::<WalkEntry>::empty()) =~= start);
    while i < es.len()
        invariant
            i <= es@.len(),
            targets_view(out@) == start + search_targets(es@.subrange(0, i as int)),
        decreases es@.len() - i,
    {
        let e = &es[i];
        let ghost before = targets_view(out@);
        let ghost pre = es@.subrange(0, i as int);
        let ghost post = es@.subrange(0, i + 1);
        assert(post.drop_last() =~= pre);
        assert(post[post.len() - 1] == *e);
        if !search_skips(e.name.as_slice()) {
            match e.kind {
                EntryKind::Dir => {
                    proof {
                        assert(decreases_to!(es@ => es@[i as int]));
                        assert(decreases_to!(es@[i as int] => es@[i as int].children.entries@));
                    }
                    push_search_targets(&e.children.entries, out);
                },
                EntryKind::File => {
                    out.push((e.id, copy_bytes(&e.path)));
                    assert(targets_view(out@) =~= before + seq![(e.id, e.path@)]);
                },
                EntryKind::Unknown => {},
            }
        }
        assert(targets_view(out@) =~= before + entry_targets(*e));
        assert(start + search_targets(post) =~= before + entry_targets(*e));
        i = i + 1;
    }
    assert(es@.subrange(0, es@.len() as int) =~= es@);
}

/// The files that a codebase search of the directory reads, in order (see `search_targets`).
pub fn search_targets_of(d: &WalkDir) -> (t: Vec<(usize, Vec<u8>)>)
    ensures
        targets_view(t@) == search_targets(d.entries@),
{
    let mut t: Vec<(usize, Vec<u8>)> = Vec::new();
    push_search_targets(&d.entries, &mut t);
    assert(targets_view(t@) =~= Seq::<(usize, Seq<u8>)>::empty() + search_targets(d.entries@));
    t
}

/// The entries that a file search looks at, in the order it looks at them, as `(name, shown
/// path)`: each entry of the directory in listing order, a directory followed by the entries
/// below it; an entry with a skipped name, and all below it, is passed over.
pub open spec fn locate_visible(es: Seq<WalkEntry>) -> Seq<(Seq<u8>, Seq<u8>)>
    decreases es,
{
    if es.len() == 0 {
        seq![]
    } else {
        proof {
            assert(decreases_to!(es => es[es.len() - 1]));
        }
        locate_visible(es.drop_last()) + entry_visible(es[es.len() - 1])
    }
}

/// The entries that a file search looks at from an entry on (see `locate_visible`).
pub open spec fn entry_visible(e: WalkEntry) -> Seq<(Seq<u8>, Seq<u8>)>
    decreases e,
{
    if locate_skips_name(e.name@) {
        seq![]
    } else {
        seq![(e.name@, e.path@)] + match e.kind {
            EntryKind::Dir => {
                proof {
                    assert(decreases_to!(e => e.children.entries@));
                }
                locate_visible(e.children.entries@)
            },
            _ => seq![],
        }
    }
}

pub open spec fn pairs_view(v: Seq<(Vec<u8>, Vec<u8>)>) -> Seq<(Seq<u8>, Seq<u8>)> {
    v.map_values(|t: (Vec<u8>, Vec<u8>)| (t.0@, t.1@))
}

fn push_locate_visible(es: &Vec<WalkEntry>, out: &mut Vec<(Vec<u8>, Vec<u8>)>)
    ensures
        pairs_view(final(out)@) == pairs_view(old(out)@) + locate_visible(es@),
    decreases es@,
{
    let ghost start = pairs_view(out@);
    let mut i: usize = 0;
    assert(es@.subrange(0, 0) =~= Seq::<WalkEntry>::empty());
    assert(start + locate_visible(Seq::<WalkEntry>::empty()) =~= start);
    while i < es.len()
        invariant
            i <= es@.len(),
            pairs_view(out@) == start + locate_visible(es@.subrange(0, i as int)),
        decreases es@.len() - i,
    {
        let e = &es[i];
        let ghost before = pairs_view(out@);
        let ghost pre = es@.subrange(0, i as int);
        let ghost post = es@.subrange(0, i + 1);
        assert(post.drop_last() =~= pre);
        assert(post[post.len() - 1] == *e);
        if !locate_skips(e.name.as_slice()) {
            out.push((copy_bytes(&e.name), copy_bytes(&e.path)));
            let ghost mid = pairs_view(out@);
            assert(mid =~= before + seq![(e.name@, e.path@)]);
            match e.kind {
                EntryKind::Dir => {
                    proof {
                        assert(decreases_to!(es@ => es@[i as int]));
                        assert(decreases_to!(es@[i as int] => es@[i as int].children.entries@));
                    }
                    push_locate_visible(&e.children.entries, out);
                    assert(pairs_view(out@) =~= before + (seq![(e.name@, e.path@)] + locate_visible(e.children.entries@)));
                },
                _ => {
                    assert(pairs_view(out@) =~= before + (seq![(e.name@, e.path@)] + Seq::<(Seq<u8>, Seq<u8>)>::empty()));
                },
            }
        } else {
            assert(pairs_view(out@) =~= before + Seq::<(Seq<u8>, Seq<u8>)>::empty());
        }
        assert(pairs_view(out@) =~= before + entry_visible(*e));
        assert(start + locate_visible(post) =~= before + entry_visible(*e));
        i = i + 1;
    }
    assert(es@.subrange(0, es@.len() as int) =~= es@);
}

/// A file search of the directory for `query`, adding to `results` the shown path of every
/// entry it looks at whose name holds the query, while there are fewer than 20.
pub fn locate_in(d: &WalkDir, query: &[u8], results: &mut Vec<Vec<u8>>)
    ensures
        crate::text::lines_view(final(results)@) == locate_all(locate_visible(d.entries@), query@, crate::text::lines_view(old(results)@)),
{
    let mut vis: Vec<(Vec<u8>, Vec<u8>)> = Vec::new();
    push_locate_visible(&d.entries, &mut vis);
    let ghost vv = pairs_view(vis@);
    assert(vv =~= Seq::<(Seq<u8>, Seq<u8>)>::empty() + locate_visible(d.entries@));
    let ghost r0 = crate::text::lines_view(results@);
    let mut i: usize = 0;
    assert(vv.subrange(0, 0) =~= Seq::<(Seq<u8>, Seq<u8>)>::empty());
    while i < vis.len()
        invariant
            i <= vis@.len(),
            vv == pairs_view(vis@),
            crate::text::lines_view(results@) == locate_all(vv.subrange(0, i as int), query@, r0),
        decreases vis@.len() - i,
    {
        let ghost pre = vv.subrange(0, i as int);
        let ghost post = vv.subrange(0, i + 1);
        assert(post.drop_last() =~= pre);
        assert(post.last() == vv[i as int]);
        let path = copy_bytes(&vis[i].1);
        locate_add(results, vis[i].0.as_slice(), path, query);
        i = i + 1;
    }
    assert(vv.subrange(0, vv.len() as int) =~= vv);
}

/// The shown paths of the entries whose name holds `query`, in order.
pub open spec fn locate_matches_of(vis: Seq<(Seq<u8>, Seq<u8>)>, query: Seq<u8>) -> Seq<Seq<u8>>
    decreases vis.len(),
{
    if vis.len() == 0 {
        seq![]
    } else {
        locate_matches_of(vis.drop_last(), query) + if contains(vis.last().0, query) { seq![vis.last().1] } else { seq![] }
    }
}

/// A file search reports, after the results it had, the paths of the entries it looks at
/// whose name holds the query, each once and in the order looked at, up to 20 results in all.
pub proof fn law_locate_reports_matches_in_order(vis: Seq<(Seq<u8>, Seq<u8>)>, query: Seq<u8>, results: Seq<Seq<u8>>)
    requires
        results.len() <= LOCATE_LIMIT,
    ensures
        locate_all(vis, query, results) == capped(results + locate_matches_of(vis, query), LOCATE_LIMIT as int),
    decreases vis.len(),
{
    if vis.len() == 0 {
        assert(results + locate_matches_of(vis, query) =~= results);
    } else {
        let prev = vis.drop_last();
        let e = vis.last();
        law_locate_reports_matches_in_order(prev, query, results);
        let mp = locate_matches_of(prev, query);
        let tail: Seq<Seq<u8>> = if contains(e.0, query) { seq![e.1] } else { seq![] };
        assert(results + locate_matches_of(vis, query) =~= (results + mp) + tail);
        let x = results + mp;
        if x.len() < LOCATE_LIMIT {
            if contains(e.0, query) {
                assert(x.push(e.1) =~= x + tail);
            } else {
                assert(x + tail =~= x);
            }
        } else {
            assert((x + tail).subrange(0, LOCATE_LIMIT as int) =~= x.subrange(0, LOCATE_LIMIT as int));
        }
    }
}

/// A file search passes over every entry with a skipped name: none of the entries it looks
/// at has one.
pub proof fn law_locate_skips(es: Seq<WalkEntry>)
    ensures
        forall|k: int| 0 <= k < locate_visible(es).len() ==> !locate_skips_name((#[trigger] locate_visible(es)[k]).0),
    decreases es,
{
    if es.len() > 0 {
        let prev = es.drop_last();
        let e = es[es.len() - 1];
        assert(decreases_to!(es => e));
        law_locate_skips(prev);
        lemma_entry_visible_skips(e);
        let a = locate_visible(prev);
        let b = entry_visible(e);
        assert forall|k: int| 0 <= k < (a + b).len() implies !locate_skips_name((#[trigger] (a + b)[k]).0) by {
            if k < a.len() {
                assert((a + b)[k] == a[k]);
            } else {
                assert((a + b)[k] == b[k - a.len()]);
            }
        }
    }
}

proof fn lemma_entry_visible_skips(e: WalkEntry)
    ensures
        forall|k: int| 0 <= k < entry_visible(e).len() ==> !locate_skips_name((#[trigger] entry_visible(e)[k]).0),
    decreases e,
{
    if !locate_skips_name(e.name@) {
        let head = seq![(e.name@, e.path@)];
        let sub = match e.kind {
            EntryKind::Dir => locate_visible(e.children.entries@),
            _ => seq![],
        };
        if e.kind is Dir {
            assert(decreases_to!(e => e.children.entries@));
            law_locate_skips(e.children.entries@);
        }
        assert forall|k: int| 0 <= k < (head + sub).len() implies !locate_skips_name((#[trigger] (head + sub)[k]).0) by {
            if k < 1 {
                assert((head + sub)[k] == head[k]);
            } else {
                assert((head + sub)[k] == sub[k - 1]);
            }
        }
    }
}

// ---------------------------------------------------------------- every entry, with its path of names

/// The names that a codebase search never reads below or at: `node_modules`, `target`,
/// `.git`, `dist`, `build` and `.forge`.
pub open spec fn search_never(name: Seq<u8>) -> bool {
    name == "node_modules".spec_bytes() || name == "target".spec_bytes() || name == ".git".spec_bytes()
        || name == "dist".spec_bytes() || name == "build".spec_bytes() || name == ".forge".spec_bytes()
}

/// The names that a file search never looks at or below: `node_modules`, `target`, `.git`
/// and `.forge`.
pub open spec fn locate_never(name: Seq<u8>) -> bool {
    name == "node_modules".spec_bytes() || name == "target".spec_bytes() || name == ".git".spec_bytes()
        || name == ".forge".spec_bytes()
}

/// None of the names on a path is one of `never`.
pub open spec fn chain_clean(c: Seq<Seq<u8>>, never: spec_fn(Seq<u8>) -> bool) -> bool {
    forall|i: int| 0 <= i < c.len() ==> !never(#[trigger] c[i])
}

/// What is kept of `xs` where its path of names is clean, in order.
pub open spec fn keep_clean<A>(xs: Seq<(Seq<Seq<u8>>, A)>, never: spec_fn(Seq<u8>) -> bool) -> Seq<A>
    decreases xs.len(),
{
    if xs.len() == 0 {
        seq![]
    } else {
        keep_clean(xs.drop_last(), never) + if chain_clean(xs.last().0, never) { seq![xs.last().1] } else { seq![] }
    }
}

/// `xs` one directory down: `n` put in front of each path of names.
pub open spec fn under<A>(n: Seq<u8>, xs: Seq<(Seq<Seq<u8>>, A)>) -> Seq<(Seq<Seq<u8>>, A)> {
    xs.map_values(|x: (Seq<Seq<u8>>, A)| (seq![n] + x.0, x.1))
}

/// Every file at or below the entries, in listing order, whatever their names, with the
/// names from the first level down to the file's own, its handle and shown path.
pub open spec fn all_files(es: Seq<WalkEntry>) -> Seq<(Seq<Seq<u8>>, (usize, Seq<u8>))>
    decreases es,
{
    if es.len() == 0 {
        seq![]
    } else {
        proof {
            assert(decreases_to!(es => es[es.len() - 1]));
        }
        all_files(es.drop_last()) + entry_files(es[es.len() - 1])
    }
}

pub open spec fn entry_files(e: WalkEntry) -> Seq<(Seq<Seq<u8>>, (usize, Seq<u8>))>
    decreases e,
{
    match e.kind {
        EntryKind::Dir => {
            proof {
                assert(decreases_to!(e => e.children.entries@));
            }
            under(e.name@, all_files(e.children.entries@))
        },
        EntryKind::File => seq![(seq![e.name@], (e.id, e.path@))],
        EntryKind::Unknown => seq![],
    }
}

/// Every entry at or below the entries, each directory before what lies below it, whatever
/// their names, with the names from the first level down to its own, its name and shown path.
pub open spec fn all_entries(es: Seq<WalkEntry>) -> Seq<(Seq<Seq<u8>>, (Seq<u8>, Seq<u8>))>
    decreases es,
{
    if es.len() == 0 {
        seq![]
    } else {
        proof {
            assert(decreases_to!(es => es[es.len() - 1]));
        }
        all_entries(es.drop_last()) + entry_all(es[es.len() - 1])
    }
}

pub open spec fn entry_all(e: WalkEntry) -> Seq<(Seq<Seq<u8>>, (Seq<u8>, Seq<u8>))>
    decreases e,
{
    seq![(seq![e.name@], (e.name@, e.path@))] + match e.kind {
        EntryKind::Dir => {
            proof {
                assert(decreases_to!(e => e.children.entries@));
            }
            under(e.name@, all_entries(e.children.entries@))
        },
        _ => seq![],
    }
}

proof fn lemma_keep_clean_add<A>(a: Seq<(Seq<Seq<u8>>, A)>, b: Seq<(Seq<Seq<u8>>, A)>, never: spec_fn(Seq<u8>) -> bool)
    ensures
        keep_clean(a + b, never) == keep_clean(a, never) + keep_clean(b, never),
    decreases b.len(),
{
    if b.len() == 0 {
        assert(a + b =~= a);
        assert(keep_clean(a, never) + keep_clean(b, never) =~= keep_clean(a, never));
    } else {
        lemma_keep_clean_add(a, b.drop_last(), never);
        assert((a + b).drop_last() =~= a + b.drop_last());
        assert((a + b).last() == b.last());
        let tail: Seq<A> = if chain_clean(b.last().0, never) { seq![b.last().1] } else { seq![] };
        assert(keep_clean(a, never) + keep_clean(b, never) =~= keep_clean(a, never) + keep_clean(b.drop_last(), never) + tail);
    }
}

proof fn lemma_keep_clean_under<A>(n: Seq<u8>, xs: Seq<(Seq<Seq<u8>>, A)>, never: spec_fn(Seq<u8>) -> bool)
    ensures
        keep_clean(under(n, xs), never) == if never(n) { Seq::<A>::empty() } else { keep_clean(xs, never) },
    decreases xs.len(),
{
    let u = under(n, xs);
    if xs.len() == 0 {
        assert(u.len() == 0);
    } else {
        lemma_keep_clean_under(n, xs.drop_last(), never);
        assert(u.drop_last() =~= under(n, xs.drop_last()));
        let c = xs.last().0;
        let c2 = seq![n] + c;
        assert(u.last() == (c2, xs.last().1));
        if never(n) {
            assert(c2[0] == n);
            assert(!chain_clean(c2, never));
        } else {
            assert(chain_clean(c2, never) == chain_clean(c, never)) by {
                if chain_clean(c, never) {
                    assert forall|i: int| 0 <= i < c2.len() implies !never(#[trigger] c2[i]) by {
                        if i > 0 {
                            assert(c2[i] == c[i - 1]);
                        }
                    }
                }
                if chain_clean(c2, never) {
                    assert forall|i: int| 0 <= i < c.len() implies !never(#[trigger] c[i]) by {
                        assert(c2[i + 1] == c[i]);
                    }
                }
            }
        }
    }
}

proof fn lemma_search_targets_clean(es: Seq<WalkEntry>)
    ensures
        search_targets(es) == keep_clean(all_files(es), |n: Seq<u8>| search_never(n)),
    decreases es,
{
    let never = |n: Seq<u8>| search_never(n);
    if es.len() > 0 {
        let e = es[es.len() - 1];
        assert(decreases_to!(es => e));
        lemma_search_targets_clean(es.drop_last());
        lemma_entry_targets_clean(e);
        lemma_keep_clean_add(all_files(es.drop_last()), entry_files(e), never);
    }
}

proof fn lemma_entry_targets_clean(e: WalkEntry)
    ensures
        entry_targets(e) == keep_clean(entry_files(e), |n: Seq<u8>| search_never(n)),
    decreases e,
{
    let never = |n: Seq<u8>| search_never(n);
    assert(search_skips_name(e.name@) == search_never(e.name@));
    match e.kind {
        EntryKind::Dir => {
            assert(decreases_to!(e => e.children.entries@));
            lemma_search_targets_clean(e.children.entries@);
            lemma_keep_clean_under(e.name@, all_files(e.children.entries@), never);
        },
        EntryKind::File => {
            let xs = entry_files(e);
            assert(xs.drop_last().len() == 0);
            assert(keep_clean(xs.drop_last(), never) == Seq::<(usize, Seq<u8>)>::empty());
            let c = seq![e.name@];
            assert(c[0] == e.name@);
            if !search_never(e.name@) {
                assert(chain_clean(c, never));
            }
            assert(keep_clean(xs, never) =~= entry_targets(e));
        },
        EntryKind::Unknown => {},
    }
}

/// A codebase search reads exactly the files below the root none of whose names, from the
/// first level down to the file's own, is `node_modules`, `target`, `.git`, `dist`, `build`
/// or `.forge`, in listing order (a directory's files where the directory stands), and no
/// entry whose metadata could not be read.
pub proof fn law_search_reads_unskipped_files(es: Seq<WalkEntry>)
    ensures
        search_targets(es) == keep_clean(all_files(es), |n: Seq<u8>| search_never(n)),
{
    lemma_search_targets_clean(es);
}

proof fn lemma_locate_visible_clean(es: Seq<WalkEntry>)
    ensures
        locate_visible(es) == keep_clean(all_entries(es), |n: Seq<u8>| locate_never(n)),
    decreases es,
{
    let never = |n: Seq<u8>| locate_never(n);
    if es.len() > 0 {
        let e = es[es.len() - 1];
        assert(decreases_to!(es => e));
        lemma_locate_visible_clean(es.drop_last());
        lemma_entry_visible_clean(e);
        lemma_keep_clean_add(all_entries(es.drop_last()), entry_all(e), never);
    }
}

proof fn lemma_entry_visible_clean(e: WalkEntry)
    ensures
        entry_visible(e) == keep_clean(entry_all(e), |n: Seq<u8>| locate_never(n)),
    decreases e,
{
    let never = |n: Seq<u8>| locate_never(n);
    assert(locate_skips_name(e.name@) == locate_never(e.name@));
    let head: Seq<(Seq<Seq<u8>>, (Seq<u8>, Seq<u8>))> = seq![(seq![e.name@], (e.name@, e.path@))];
    let sub = match e.kind {
        EntryKind::Dir => under(e.name@, all_entries(e.children.entries@)),
        _ => seq![],
    };
    lemma_keep_clean_add(head, sub, never);
    assert(head.drop_last().len() == 0);
    assert(keep_clean(head.drop_last(), never) == Seq::<(Seq<u8>, Seq<u8>)>::empty());
    let c = seq![e.name@];
    assert(c[0] == e.name@);
    if !locate_never(e.name@) {
        assert(chain_clean(c, never));
    }
    match e.kind {
        EntryKind::Dir => {
            assert(decreases_to!(e => e.children.entries@));
            lemma_locate_visible_clean(e.children.entries@);
            lemma_keep_clean_under(e.name@, all_entries(e.children.entries@), never);
        },
        _ => {
            assert(sub.len() == 0);
        },
    }
    assert(keep_clean(head + sub, never) =~= entry_visible(e));
}

/// A file search looks at exactly the entries below the root none of whose names, from the
/// first level down to the entry's own, is `node_modules`, `target`, `.git` or `.forge`, each
/// once, each directory before what lies below it, in listing order.
pub proof fn law_locate_looks_at_unskipped_entries(es: Seq<WalkEntry>)
    ensures
        locate_visible(es) == keep_clean(all_entries(es), |n: Seq<u8>| locate_never(n)),
{
    lemma_locate_visible_clean(es);
}

} // verus!
