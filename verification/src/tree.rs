//! The directory tree that the `tree` tool shows: entries in name order, some directories
//! left out, four levels deep, drawn with box characters.
use vstd::prelude::*;
use vstd::string::StringSliceAdditionalSpecFns;
use crate::text::{lit, push_all, concat};
use crate::tools::{tree_skips_name, tree_skips, ToolOutcome};

verus! {

/// A directory as it was read: whether it could be read, and its entries in the order the
/// system listed them.
pub struct DirListing {
    pub readable: bool,
    pub entries: Vec<TreeEntry>,
}

/// An entry of a directory.
pub struct TreeEntry {
    /// The raw bytes of the file name, which entries are ordered by.
    pub sort_key: Vec<u8>,
    /// The file name as shown (`to_string_lossy`).
    pub name: Vec<u8>,
    /// The entry is a directory (its metadata could be read and says so).
    pub is_dir: bool,
    /// What the directory holds, where it is one and lies within the depth listed.
    pub children: DirListing,
}

/// The order of `OsStr` on Unix: bytewise, a prefix first.
pub open spec fn key_less(a: Seq<u8>, b: Seq<u8>) -> bool
    decreases a.len(),
{
    if b.len() == 0 {
        false
    } else if a.len() == 0 {
        true
    } else if a[0] < b[0] {
        true
    } else if a[0] > b[0] {
        false
    } else {
        key_less(a.subrange(1, a.len() as int), b.subrange(1, b.len() as int))
    }
}

/// `e` put into the sorted `s` after every entry whose key is not greater.
pub open spec fn insert_sorted(s: Seq<TreeEntry>, e: TreeEntry) -> Seq<TreeEntry>
    decreases s.len(),
{
    if s.len() == 0 {
        seq![e]
    } else if key_less(e.sort_key@, s[0].sort_key@) {
        seq![e] + s
    } else {
        seq![s[0]] + insert_sorted(s.subrange(1, s.len() as int), e)
    }
}

/// The entries in key order, equal keys in their first order (`sort_by_key`).
pub open spec fn sort_entries(es: Seq<TreeEntry>) -> Seq<TreeEntry>
    decreases es.len(),
{
    if es.len() == 0 {
        seq![]
    } else {
        insert_sorted(sort_entries(es.drop_last()), es.last())
    }
}

/// The entries that the tree shows, in their order.
pub open spec fn shown_entries(es: Seq<TreeEntry>) -> Seq<TreeEntry>
    decreases es.len(),
{
    if es.len() == 0 {
        seq![]
    } else {
        shown_entries(es.drop_last()) + if tree_skips_name(es.last().name@) {
            Seq::<TreeEntry>::empty()
        } else {
            seq![es.last()]
        }
    }
}

pub open spec fn branch_marker(is_last: bool) -> Seq<u8> {
    if is_last { "\u{2514}\u{2500}\u{2500} ".spec_bytes() } else { "\u{251c}\u{2500}\u{2500} ".spec_bytes() }
}

pub open spec fn indent(is_last: bool) -> Seq<u8> {
    if is_last { "    ".spec_bytes() } else { "\u{2502}   ".spec_bytes() }
}

/// The tree of a directory at depth `cur`: nothing beyond `max`; an error line where it could
/// not be read; else its shown entries in order, each on a line after `prefix` and a branch
/// marker, a directory followed by its own tree one level deeper.
pub open spec fn render_dir(d: DirListing, prefix: Seq<u8>, max: nat, cur: nat) -> Seq<u8>
    decreases max + 1 - cur, 1int, 0int,
{
    if cur > max {
        seq![]
    } else if !d.readable {
        prefix + "[Error reading directory]\n".spec_bytes()
    } else {
        render_entries(shown_entries(sort_entries(d.entries@)), 0, prefix, max, cur)
    }
}

/// The lines of `es[i..]` (see `render_dir`).
pub open spec fn render_entries(es: Seq<TreeEntry>, i: int, prefix: Seq<u8>, max: nat, cur: nat) -> Seq<u8>
    decreases max + 1 - cur, 0int, es.len() - i,
{
    if cur > max || i < 0 || i >= es.len() {
        seq![]
    } else {
        let e = es[i];
        let is_last = i == es.len() - 1;
        let line = prefix + branch_marker(is_last) + e.name@ + "\n".spec_bytes();
        let sub = if e.is_dir { render_dir(e.children, prefix + indent(is_last), max, cur + 1) } else { seq![] };
        line + sub + render_entries(es, i + 1, prefix, max, cur)
    }
}

/// The tree of `d` at depth `cur` can be drawn: no directory is entered one level below
/// depth `usize::MAX`, where the next depth would not fit in a `usize`.
pub open spec fn tree_fits(d: DirListing, max: nat, cur: nat) -> bool
    decreases max + 1 - cur, 1int, 0int,
{
    if cur > max || !d.readable {
        true
    } else {
        entries_fit(shown_entries(sort_entries(d.entries@)), 0, max, cur)
    }
}

/// `tree_fits` for the entries `es[i..]` of a directory at depth `cur`.
pub open spec fn entries_fit(es: Seq<TreeEntry>, i: int, max: nat, cur: nat) -> bool
    decreases max + 1 - cur, 0int, es.len() - i,
{
    if cur > max || i < 0 || i >= es.len() {
        true
    } else {
        (es[i].is_dir ==> cur < usize::MAX && tree_fits(es[i].children, max, cur + 1))
            && entries_fit(es, i + 1, max, cur)
    }
}

/// Below a depth limit that is itself below `usize::MAX`, every tree can be drawn.
pub proof fn lemma_tree_fits_below_max(d: DirListing, max: nat, cur: nat)
    requires
        max < usize::MAX,
    ensures
        tree_fits(d, max, cur),
    decreases max + 1 - cur, 1int, 0int,
{
    if cur <= max && d.readable {
        lemma_entries_fit_below_max(shown_entries(sort_entries(d.entries@)), 0, max, cur);
    }
}

proof fn lemma_entries_fit_below_max(es: Seq<TreeEntry>, i: int, max: nat, cur: nat)
    requires
        max < usize::MAX,
    ensures
        entries_fit(es, i, max, cur),
    decreases max + 1 - cur, 0int, es.len() - i,
{
    if cur <= max && 0 <= i < es.len() {
        if es[i].is_dir {
            lemma_tree_fits_below_max(es[i].children, max, cur + 1);
        }
        lemma_entries_fit_below_max(es, i + 1, max, cur);
    }
}

/// `key_less`.
pub fn key_less_than(a: &[u8], b: &[u8]) -> (r: bool)
    ensures
        r == key_less(a@, b@),
{
    let mut i: usize = 0;
    assert(a@.subrange(0, a@.len() as int) =~= a@);
    assert(b@.subrange(0, b@.len() as int) =~= b@);
    while i < a.len() && i < b.len()
        invariant
            i <= a@.len(),
            i <= b@.len(),
            key_less(a@, b@) == key_less(a@.subrange(i as int, a@.len() as int), b@.subrange(i as int, b@.len() as int)),
        decreases a@.len() - i,
    {
        let ghost sa = a@.subrange(i as int, a@.len() as int);
        let ghost sb = b@.subrange(i as int, b@.len() as int);
        assert(sa[0] == a@[i as int]);
        assert(sb[0] == b@[i as int]);
        if a[i] != b[i] {
            return a[i] < b[i];
        }
        assert(sa.subrange(1, sa.len() as int) =~= a@.subrange(i + 1, a@.len() as int));
        assert(sb.subrange(1, sb.len() as int) =~= b@.subrange(i + 1, b@.len() as int));
        i = i + 1;
    }
    i < b.len()
}

pub open spec fn pick(es: Seq<TreeEntry>, idx: Seq<usize>) -> Seq<TreeEntry> {
    idx.map_values(|j: usize| es[j as int])
}

/// Where `insert_sorted` puts `e`: before the first entry with a greater key.
proof fn lemma_insert_at(s: Seq<TreeEntry>, e: TreeEntry, j: int)
    requires
        0 <= j <= s.len(),
        forall|k: int| 0 <= k < j ==> !key_less(e.sort_key@, #[trigger] s[k].sort_key@),
        j < s.len() ==> key_less(e.sort_key@, s[j].sort_key@),
    ensures
        insert_sorted(s, e) == s.subrange(0, j) + seq![e] + s.subrange(j, s.len() as int),
    decreases s.len(),
{
    if s.len() == 0 {
        assert(s.subrange(0, j) + seq![e] + s.subrange(j, s.len() as int) =~= seq![e]);
    } else if j == 0 {
        assert(s.subrange(0, j) + seq![e] + s.subrange(j, s.len() as int) =~= seq![e] + s);
    } else {
        let t = s.subrange(1, s.len() as int);
        assert forall|k: int| 0 <= k < j - 1 implies !key_less(e.sort_key@, #[trigger] t[k].sort_key@) by {
            assert(t[k] == s[k + 1]);
        }
        if j - 1 < t.len() {
            assert(t[j - 1] == s[j]);
        }
        lemma_insert_at(t, e, j - 1);
        assert(s.subrange(0, j) + seq![e] + s.subrange(j, s.len() as int) =~= seq![s[0]] + (t.subrange(0, j - 1) + seq![e] + t.subrange(j - 1, t.len() as int)));
    }
}

/// The positions of the entries in key order (a stable sort).
pub fn sorted_order(es: &Vec<TreeEntry>) -> (idx: Vec<usize>)
    ensures
        forall|k: int| 0 <= k < idx@.len() ==> #[trigger] idx@[k] < es@.len(),
        pick(es@, idx@) == sort_entries(es@),
{
    let mut idx: Vec<usize> = Vec::new();
    let mut n: usize = 0;
    while n < es.len()
        invariant
            n <= es@.len(),
            forall|k: int| 0 <= k < idx@.len() ==> #[trigger] idx@[k] < es@.len(),
            pick(es@, idx@) == sort_entries(es@.subrange(0, n as int)),
        decreases es@.len() - n,
    {
        let ghost s = pick(es@, idx@);
        let mut j: usize = 0;
        while j < idx.len() && !key_less_than(es[n].sort_key.as_slice(), es[idx[j]].sort_key.as_slice())
            invariant
                j <= idx@.len(),
                n < es@.len(),
                forall|k: int| 0 <= k < idx@.len() ==> #[trigger] idx@[k] < es@.len(),
                s == pick(es@, idx@),
                forall|k: int| 0 <= k < j ==> !key_less(es@[n as int].sort_key@, #[trigger] s[k].sort_key@),
            decreases idx@.len() - j,
        {
            j = j + 1;
        }
        proof {
            lemma_insert_at(s, es@[n as int], j as int);
            let pre = es@.subrange(0, n as int);
            let post = es@.subrange(0, n + 1);
            assert(post.drop_last() =~= pre);
            assert(post.last() == es@[n as int]);
        }
        let ghost old_idx = idx@;
        idx.insert(j, n);
        proof {
            assert(idx@ =~= old_idx.subrange(0, j as int) + seq![n] + old_idx.subrange(j as int, old_idx.len() as int));
            assert(pick(es@, idx@) =~= s.subrange(0, j as int) + seq![es@[n as int]] + s.subrange(j as int, s.len() as int));
        }
        n = n + 1;
    }
    assert(es@.subrange(0, es@.len() as int) =~= es@);
    idx
}

/// The positions of the entries that the tree shows, in key order.
pub fn shown_order(es: &Vec<TreeEntry>) -> (idx: Vec<usize>)
    ensures
        forall|k: int| 0 <= k < idx@.len() ==> #[trigger] idx@[k] < es@.len(),
        pick(es@, idx@) == shown_entries(sort_entries(es@)),
{
    let sorted = sorted_order(es);
    let ghost s = pick(es@, sorted@);
    let mut idx: Vec<usize> = Vec::new();
    let mut i: usize = 0;
    while i < sorted.len()
        invariant
            i <= sorted@.len(),
            s == pick(es@, sorted@),
            s == sort_entries(es@),
            forall|k: int| 0 <= k < sorted@.len() ==> #[trigger] sorted@[k] < es@.len(),
            forall|k: int| 0 <= k < idx@.len() ==> #[trigger] idx@[k] < es@.len(),
            pick(es@, idx@) == shown_entries(s.subrange(0, i as int)),
        decreases sorted@.len() - i,
    {
        let j = sorted[i];
        let ghost before = pick(es@, idx@);
        if !tree_skips(es[j].name.as_slice()) {
            idx.push(j);
            assert(pick(es@, idx@) =~= before + seq![es@[j as int]]);
        } else {
            assert(pick(es@, idx@) =~= before + Seq::<TreeEntry>::empty());
        }
        proof {
            let pre = s.subrange(0, i as int);
            let post = s.subrange(0, i + 1);
            assert(post.drop_last() =~= pre);
            assert(post.last() == es@[j as int]);
        }
        i = i + 1;
    }
    assert(s.subrange(0, sorted@.len() as int) =~= s);
    idx
}

/// Appends the tree of a directory (see `render_dir`).
#[verifier::rlimit(40)]
pub fn render_dir_into(d: &DirListing, prefix: &[u8], max: usize, cur: usize, out: &mut Vec<u8>)
    requires
        tree_fits(*d, max as nat, cur as nat),
    ensures
        final(out)@ == old(out)@ + render_dir(*d, prefix@, max as nat, cur as nat),
    decreases max + 1 - cur, 1int, 0int,
{
    if cur > max {
        assert(old(out)@ + Seq::<u8>::empty() =~= old(out)@);
        return;
    }
    if !d.readable {
        push_all(out, prefix);
        push_all(out, lit("[Error reading directory]\n").as_slice());
        assert(out@ =~= old(out)@ + render_dir(*d, prefix@, max as nat, cur as nat));
        return;
    }
    let idx = shown_order(&d.entries);
    let ghost es = shown_entries(sort_entries(d.entries@));
    let mut i: usize = 0;
    while i < idx.len()
        invariant
            cur <= max,
            i <= idx@.len(),
            d.readable,
            entries_fit(es, i as int, max as nat, cur as nat),
            es == shown_entries(sort_entries(d.entries@)),
            es == pick(d.entries@, idx@),
            forall|k: int| 0 <= k < idx@.len() ==> #[trigger] idx@[k] < d.entries@.len(),
            render_dir(*d, prefix@, max as nat, cur as nat) == render_entries(es, 0, prefix@, max as nat, cur as nat),
            old(out)@ + render_entries(es, 0, prefix@, max as nat, cur as nat) == out@ + render_entries(es, i as int, prefix@, max as nat, cur as nat),
        decreases idx@.len() - i,
    {
        let e = &d.entries[idx[i]];
        assert(es[i as int] == *e);
        let is_last = i == idx.len() - 1;
        let ghost before = out@;
        push_all(out, prefix);
        if is_last {
            push_all(out, lit("\u{2514}\u{2500}\u{2500} ").as_slice());
        } else {
            push_all(out, lit("\u{251c}\u{2500}\u{2500} ").as_slice());
        }
        push_all(out, e.name.as_slice());
        push_all(out, lit("\n").as_slice());
        let ghost line = prefix@ + branch_marker(is_last) + e.name@ + "\n".spec_bytes();
        assert(out@ =~= before + line);
        let ghost mid = out@;
        if e.is_dir {
            let ext = if is_last { lit("    ") } else { lit("\u{2502}   ") };
            let new_prefix = concat(prefix, ext.as_slice());
            assert(new_prefix@ =~= prefix@ + indent(is_last));
            render_dir_into(&e.children, new_prefix.as_slice(), max, cur + 1, out);
        } else {
            assert(out@ =~= mid + Seq::<u8>::empty());
        }
        proof {
            let sub = if e.is_dir { render_dir(e.children, prefix@ + indent(is_last), max as nat, (cur + 1) as nat) } else { Seq::<u8>::empty() };
            assert(out@ =~= before + line + sub);
            assert(render_entries(es, i as int, prefix@, max as nat, cur as nat) == line + sub + render_entries(es, i + 1, prefix@, max as nat, cur as nat));
        }
        i = i + 1;
    }
    assert(out@ =~= old(out)@ + render_entries(es, 0, prefix@, max as nat, cur as nat));
}

/// Whether the tree of `d` at depth `cur` can be drawn to depth `max` (`tree_fits`).
pub fn tree_fits_at(d: &DirListing, max: usize, cur: usize) -> (b: bool)
    ensures
        b == tree_fits(*d, max as nat, cur as nat),
    decreases max + 1 - cur, 1int, 0int,
{
    if cur > max || !d.readable {
        return true;
    }
    let idx = shown_order(&d.entries);
    let ghost es = shown_entries(sort_entries(d.entries@));
    let mut i: usize = 0;
    while i < idx.len()
        invariant
            cur <= max,
            i <= idx@.len(),
            d.readable,
            es == shown_entries(sort_entries(d.entries@)),
            es == pick(d.entries@, idx@),
            forall|k: int| 0 <= k < idx@.len() ==> #[trigger] idx@[k] < d.entries@.len(),
            tree_fits(*d, max as nat, cur as nat) == entries_fit(es, i as int, max as nat, cur as nat),
        decreases idx@.len() - i,
    {
        let e = &d.entries[idx[i]];
        assert(es[i as int] == *e);
        if e.is_dir {
            if cur == usize::MAX {
                return false;
            }
            if !tree_fits_at(&e.children, max, cur + 1) {
                return false;
            }
        }
        i = i + 1;
    }
    true
}

/// The tree of the directory that a `tree` command lists, four levels deep.
pub fn directory_tree(d: &DirListing) -> (t: Vec<u8>)
    ensures
        t@ == render_dir(*d, Seq::<u8>::empty(), crate::tools::TREE_MAX_DEPTH as nat, 0),
{
    let mut t: Vec<u8> = Vec::new();
    let empty: Vec<u8> = Vec::new();
    assert(empty@ =~= Seq::<u8>::empty());
    proof {
        lemma_tree_fits_below_max(*d, crate::tools::TREE_MAX_DEPTH as nat, 0);
    }
    render_dir_into(d, empty.as_slice(), crate::tools::TREE_MAX_DEPTH, 0, &mut t);
    assert(t@ =~= Seq::<u8>::empty() + render_dir(*d, Seq::<u8>::empty(), crate::tools::TREE_MAX_DEPTH as nat, 0));
    t
}

pub open spec fn tree_result(path: Seq<u8>, tree: Seq<u8>) -> Seq<u8> {
    "Directory tree for ".spec_bytes() + path + ":\n".spec_bytes() + tree
}

pub open spec fn tree_ui(tree: Seq<u8>) -> Seq<u8> {
    "```plaintext\n".spec_bytes() + tree + "\n```\n".spec_bytes()
}

/// The outcome of a `tree` command.
pub fn tree_outcome(path: &[u8], tree: &[u8]) -> (o: ToolOutcome)
    ensures
        o.result@ == tree_result(path@, tree@),
        o.ui@ == tree_ui(tree@),
{
    let mut result = concat(lit("Directory tree for ").as_slice(), path);
    push_all(&mut result, lit(":\n").as_slice());
    push_all(&mut result, tree);
    let mut ui = lit("```plaintext\n");
    push_all(&mut ui, tree);
    push_all(&mut ui, lit("\n```\n").as_slice());
    ToolOutcome { result, ui }
}


/// The entries are in key order.
pub open spec fn in_key_order(s: Seq<TreeEntry>) -> bool {
    forall|i: int, j: int| 0 <= i < j < s.len() ==> !key_less(#[trigger] s[j].sort_key@, #[trigger] s[i].sort_key@)
}

proof fn lemma_key_less_transitive(a: Seq<u8>, b: Seq<u8>, c: Seq<u8>)
    requires
        key_less(a, b),
        key_less(b, c),
    ensures
        key_less(a, c),
    decreases a.len(),
{
    if a.len() > 0 && b.len() > 0 && c.len() > 0 && a[0] == b[0] && b[0] == c[0] {
        lemma_key_less_transitive(
            a.subrange(1, a.len() as int),
            b.subrange(1, b.len() as int),
            c.subrange(1, c.len() as int),
        );
    }
}

proof fn lemma_insert_multiset(s: Seq<TreeEntry>, e: TreeEntry)
    ensures
        insert_sorted(s, e).to_multiset() == s.to_multiset().insert(e),
    decreases s.len(),
{
    broadcast use vstd::seq_lib::group_to_multiset_ensures;
    broadcast use vstd::multiset::group_multiset_axioms;
    if s.len() == 0 {
        assert(seq![e] =~= Seq::<TreeEntry>::empty().push(e));
        assert(s =~= Seq::<TreeEntry>::empty());
    } else if key_less(e.sort_key@, s[0].sort_key@) {
        assert(seq![e] + s =~= s.insert(0, e));
        vstd::seq_lib::to_multiset_insert(s, 0, e);
    } else {
        let rest = s.subrange(1, s.len() as int);
        lemma_insert_multiset(rest, e);
        let x = insert_sorted(rest, e);
        assert(seq![s[0]] + x =~= x.insert(0, s[0]));
        vstd::seq_lib::to_multiset_insert(x, 0, s[0]);
        assert(s =~= rest.insert(0, s[0]));
        vstd::seq_lib::to_multiset_insert(rest, 0, s[0]);
        assert(insert_sorted(s, e).to_multiset() =~= s.to_multiset().insert(e));
    }
}

proof fn lemma_insert_sorted_order(s: Seq<TreeEntry>, e: TreeEntry)
    requires
        in_key_order(s),
    ensures
        in_key_order(insert_sorted(s, e)),
    decreases s.len(),
{
    broadcast use vstd::seq_lib::group_to_multiset_ensures;
    broadcast use vstd::multiset::group_multiset_axioms;
    if s.len() == 0 {
    } else if key_less(e.sort_key@, s[0].sort_key@) {
        let r = seq![e] + s;
        assert forall|i: int, j: int| 0 <= i < j < r.len() implies !key_less(#[trigger] r[j].sort_key@, #[trigger] r[i].sort_key@) by {
            if i == 0 {
                assert(r[j] == s[j - 1]);
                if key_less(s[j - 1].sort_key@, e.sort_key@) {
                    lemma_key_less_transitive(s[j - 1].sort_key@, e.sort_key@, s[0].sort_key@);
                    if j - 1 > 0 {
                        assert(!key_less(s[j - 1].sort_key@, s[0].sort_key@));
                    } else {
                        lemma_key_less_irreflexive(s[0].sort_key@);
                    }
                }
            } else {
                assert(r[i] == s[i - 1]);
                assert(r[j] == s[j - 1]);
            }
        }
    } else {
        let rest = s.subrange(1, s.len() as int);
        assert(in_key_order(rest)) by {
            assert forall|i: int, j: int| 0 <= i < j < rest.len() implies !key_less(#[trigger] rest[j].sort_key@, #[trigger] rest[i].sort_key@) by {
                assert(rest[i] == s[i + 1]);
                assert(rest[j] == s[j + 1]);
            }
        }
        lemma_insert_sorted_order(rest, e);
        lemma_insert_multiset(rest, e);
        let x = insert_sorted(rest, e);
        let r = seq![s[0]] + x;
        assert forall|i: int, j: int| 0 <= i < j < r.len() implies !key_less(#[trigger] r[j].sort_key@, #[trigger] r[i].sort_key@) by {
            if i == 0 {
                let y = x[j - 1];
                assert(r[j] == y);
                assert(x.contains(y));
                vstd::seq_lib::to_multiset_contains(x, y);
                vstd::seq_lib::to_multiset_contains(rest, y);
                if y != e {
                    assert(rest.contains(y));
                    let k = choose|k: int| 0 <= k < rest.len() && rest[k] == y;
                    assert(s[k + 1] == y);
                }
            } else {
                assert(r[i] == x[i - 1]);
                assert(r[j] == x[j - 1]);
            }
        }
    }
}

proof fn lemma_key_less_irreflexive(a: Seq<u8>)
    ensures
        !key_less(a, a),
    decreases a.len(),
{
    if a.len() > 0 {
        lemma_key_less_irreflexive(a.subrange(1, a.len() as int));
    }
}

/// A directory's entries are listed in the order of their names (as `sort_by_key` orders
/// them), each exactly once.
pub proof fn law_tree_entries_sorted(es: Seq<TreeEntry>)
    ensures
        in_key_order(sort_entries(es)),
        sort_entries(es).to_multiset() == es.to_multiset(),
    decreases es.len(),
{
    broadcast use vstd::seq_lib::group_to_multiset_ensures;
    if es.len() > 0 {
        law_tree_entries_sorted(es.drop_last());
        lemma_insert_sorted_order(sort_entries(es.drop_last()), es.last());
        lemma_insert_multiset(sort_entries(es.drop_last()), es.last());
        assert(es =~= es.drop_last().push(es.last()));
    } else {
        assert(sort_entries(es) =~= es);
    }
}

/// Nothing is listed below the depth limit: a directory deeper than `max` adds no line.
pub proof fn law_tree_depth_limited(d: DirListing, prefix: Seq<u8>, max: nat, cur: nat)
    requires
        cur > max,
    ensures
        render_dir(d, prefix, max, cur).len() == 0,
{
}

/// The lines of a tree, each with its level: 0 for the entries of the directory itself (and
/// its error line), one more for each directory entered (see `render_dir`).
pub open spec fn tree_lines(d: DirListing, prefix: Seq<u8>, max: nat, cur: nat) -> Seq<(nat, Seq<u8>)>
    decreases max + 1 - cur, 1int, 0int,
{
    if cur > max {
        seq![]
    } else if !d.readable {
        seq![(0nat, prefix + "[Error reading directory]\n".spec_bytes())]
    } else {
        entry_lines(shown_entries(sort_entries(d.entries@)), 0, prefix, max, cur)
    }
}

/// The lines of `es[i..]`, with their levels (see `tree_lines`).
pub open spec fn entry_lines(es: Seq<TreeEntry>, i: int, prefix: Seq<u8>, max: nat, cur: nat) -> Seq<(nat, Seq<u8>)>
    decreases max + 1 - cur, 0int, es.len() - i,
{
    if cur > max || i < 0 || i >= es.len() {
        seq![]
    } else {
        let e = es[i];
        let is_last = i == es.len() - 1;
        let line = prefix + branch_marker(is_last) + e.name@ + "\n".spec_bytes();
        let sub = if e.is_dir { deeper(tree_lines(e.children, prefix + indent(is_last), max, cur + 1)) } else { seq![] };
        seq![(0nat, line)] + sub + entry_lines(es, i + 1, prefix, max, cur)
    }
}

/// The lines one level deeper.
pub open spec fn deeper(ls: Seq<(nat, Seq<u8>)>) -> Seq<(nat, Seq<u8>)> {
    ls.map_values(|x: (nat, Seq<u8>)| ((x.0 + 1) as nat, x.1))
}

/// The text of the lines, one after the other.
pub open spec fn text_of(ls: Seq<(nat, Seq<u8>)>) -> Seq<u8>
    decreases ls.len(),
{
    if ls.len() == 0 {
        seq![]
    } else {
        text_of(ls.drop_last()) + ls.last().1
    }
}

/// The lines whose level is below `n`, in order.
pub open spec fn keep_levels(ls: Seq<(nat, Seq<u8>)>, n: int) -> Seq<(nat, Seq<u8>)>
    decreases ls.len(),
{
    if ls.len() == 0 {
        seq![]
    } else {
        keep_levels(ls.drop_last(), n) + if ls.last().0 < n { seq![ls.last()] } else { seq![] }
    }
}

proof fn lemma_text_of_add(a: Seq<(nat, Seq<u8>)>, b: Seq<(nat, Seq<u8>)>)
    ensures
        text_of(a + b) == text_of(a) + text_of(b),
    decreases b.len(),
{
    if b.len() == 0 {
        assert(a + b =~= a);
        assert(text_of(a) + text_of(b) =~= text_of(a));
    } else {
        lemma_text_of_add(a, b.drop_last());
        assert((a + b).drop_last() =~= a + b.drop_last());
        assert((a + b).last() == b.last());
        assert(text_of(a) + text_of(b) =~= text_of(a) + text_of(b.drop_last()) + b.last().1);
    }
}

proof fn lemma_text_of_deeper(ls: Seq<(nat, Seq<u8>)>)
    ensures
        text_of(deeper(ls)) == text_of(ls),
    decreases ls.len(),
{
    if ls.len() > 0 {
        lemma_text_of_deeper(ls.drop_last());
        assert(deeper(ls).drop_last() =~= deeper(ls.drop_last()));
    }
}

proof fn lemma_keep_levels_add(a: Seq<(nat, Seq<u8>)>, b: Seq<(nat, Seq<u8>)>, n: int)
    ensures
        keep_levels(a + b, n) == keep_levels(a, n) + keep_levels(b, n),
    decreases b.len(),
{
    if b.len() == 0 {
        assert(a + b =~= a);
        assert(keep_levels(a, n) + keep_levels(b, n) =~= keep_levels(a, n));
    } else {
        lemma_keep_levels_add(a, b.drop_last(), n);
        assert((a + b).drop_last() =~= a + b.drop_last());
        assert((a + b).last() == b.last());
        let tail: Seq<(nat, Seq<u8>)> = if b.last().0 < n { seq![b.last()] } else { seq![] };
        assert(keep_levels(a, n) + keep_levels(b, n) =~= keep_levels(a, n) + keep_levels(b.drop_last(), n) + tail);
    }
}

proof fn lemma_keep_levels_deeper(ls: Seq<(nat, Seq<u8>)>, n: int)
    ensures
        keep_levels(deeper(ls), n + 1) == deeper(keep_levels(ls, n)),
    decreases ls.len(),
{
    if ls.len() == 0 {
        assert(deeper(ls) =~= Seq::<(nat, Seq<u8>)>::empty());
        assert(deeper(keep_levels(ls, n)) =~= Seq::<(nat, Seq<u8>)>::empty());
    } else {
        lemma_keep_levels_deeper(ls.drop_last(), n);
        assert(deeper(ls).drop_last() =~= deeper(ls.drop_last()));
        let tail: Seq<(nat, Seq<u8>)> = if ls.last().0 < n { seq![ls.last()] } else { seq![] };
        lemma_deeper_add(keep_levels(ls.drop_last(), n), tail);
        assert(deeper(tail) =~= if deeper(ls).last().0 < n + 1 { seq![deeper(ls).last()] } else { seq![] });
    }
}

proof fn lemma_deeper_add(a: Seq<(nat, Seq<u8>)>, b: Seq<(nat, Seq<u8>)>)
    ensures
        deeper(a + b) == deeper(a) + deeper(b),
{
    assert(deeper(a + b) =~= deeper(a) + deeper(b));
}

proof fn lemma_keep_levels_none(ls: Seq<(nat, Seq<u8>)>, n: int)
    requires
        n <= 0,
    ensures
        keep_levels(ls, n) == Seq::<(nat, Seq<u8>)>::empty(),
    decreases ls.len(),
{
    if ls.len() > 0 {
        lemma_keep_levels_none(ls.drop_last(), n);
        assert(keep_levels(ls, n) =~= Seq::<(nat, Seq<u8>)>::empty());
    }
}

/// The text of a tree's lines is its drawing.
proof fn lemma_tree_text(d: DirListing, prefix: Seq<u8>, max: nat, cur: nat)
    ensures
        text_of(tree_lines(d, prefix, max, cur)) == render_dir(d, prefix, max, cur),
    decreases max + 1 - cur, 1int, 0int,
{
    if cur <= max {
        if !d.readable {
            let ls = tree_lines(d, prefix, max, cur);
            assert(ls.drop_last().len() == 0);
            assert(text_of(ls.drop_last()) == Seq::<u8>::empty());
            assert(text_of(ls) =~= render_dir(d, prefix, max, cur));
        } else {
            lemma_entries_text(shown_entries(sort_entries(d.entries@)), 0, prefix, max, cur);
        }
    }
}

proof fn lemma_entries_text(es: Seq<TreeEntry>, i: int, prefix: Seq<u8>, max: nat, cur: nat)
    ensures
        text_of(entry_lines(es, i, prefix, max, cur)) == render_entries(es, i, prefix, max, cur),
    decreases max + 1 - cur, 0int, es.len() - i,
{
    if cur <= max && 0 <= i < es.len() {
        let e = es[i];
        let is_last = i == es.len() - 1;
        let line = prefix + branch_marker(is_last) + e.name@ + "\n".spec_bytes();
        let head: Seq<(nat, Seq<u8>)> = seq![(0nat, line)];
        let sub = if e.is_dir { deeper(tree_lines(e.children, prefix + indent(is_last), max, cur + 1)) } else { seq![] };
        let rest = entry_lines(es, i + 1, prefix, max, cur);
        if e.is_dir {
            lemma_tree_text(e.children, prefix + indent(is_last), max, cur + 1);
            lemma_text_of_deeper(tree_lines(e.children, prefix + indent(is_last), max, cur + 1));
        } else {
            assert(text_of(sub) =~= Seq::<u8>::empty());
        }
        lemma_entries_text(es, i + 1, prefix, max, cur);
        lemma_text_of_add(head + sub, rest);
        lemma_text_of_add(head, sub);
        assert(head.drop_last().len() == 0);
        assert(text_of(head.drop_last()) == Seq::<u8>::empty());
        assert(text_of(head) =~= line);
    }
}

/// The lines of a tree drawn one level less deep are those of the deeper tree below the
/// new depth.
proof fn lemma_tree_levels(d: DirListing, prefix: Seq<u8>, max: nat, cur: nat)
    ensures
        tree_lines(d, prefix, max, cur) == keep_levels(tree_lines(d, prefix, max + 1, cur), max + 1 - cur),
    decreases max + 1 - cur, 1int, 0int,
{
    if cur > max {
        lemma_keep_levels_none(tree_lines(d, prefix, max + 1, cur), max + 1 - cur);
    } else if !d.readable {
        let ls = tree_lines(d, prefix, max + 1, cur);
        assert(ls.drop_last().len() == 0);
        assert(keep_levels(ls.drop_last(), max + 1 - cur) == Seq::<(nat, Seq<u8>)>::empty());
        assert(keep_levels(ls, max + 1 - cur) =~= ls);
    } else {
        lemma_entries_levels(shown_entries(sort_entries(d.entries@)), 0, prefix, max, cur);
    }
}

proof fn lemma_entries_levels(es: Seq<TreeEntry>, i: int, prefix: Seq<u8>, max: nat, cur: nat)
    requires
        cur <= max,
    ensures
        entry_lines(es, i, prefix, max, cur) == keep_levels(entry_lines(es, i, prefix, max + 1, cur), max + 1 - cur),
    decreases max + 1 - cur, 0int, es.len() - i,
{
    let n = max + 1 - cur;
    if 0 <= i < es.len() {
        let e = es[i];
        let is_last = i == es.len() - 1;
        let line = prefix + branch_marker(is_last) + e.name@ + "\n".spec_bytes();
        let head: Seq<(nat, Seq<u8>)> = seq![(0nat, line)];
        let p2 = prefix + indent(is_last);
        let sub = if e.is_dir { deeper(tree_lines(e.children, p2, max, cur + 1)) } else { seq![] };
        let sub2 = if e.is_dir { deeper(tree_lines(e.children, p2, max + 1, cur + 1)) } else { seq![] };
        let rest2 = entry_lines(es, i + 1, prefix, max + 1, cur);
        lemma_entries_levels(es, i + 1, prefix, max, cur);
        lemma_keep_levels_add(head + sub2, rest2, n);
        lemma_keep_levels_add(head, sub2, n);
        assert(head.drop_last().len() == 0);
        assert(keep_levels(head.drop_last(), n) == Seq::<(nat, Seq<u8>)>::empty());
        assert(keep_levels(head, n) =~= head);
        if e.is_dir {
            lemma_tree_levels(e.children, p2, max, cur + 1);
            lemma_keep_levels_deeper(tree_lines(e.children, p2, max + 1, cur + 1), n - 1);
        } else {
            assert(keep_levels(sub2, n) =~= sub);
        }
    } else {
        assert(keep_levels(Seq::<(nat, Seq<u8>)>::empty(), n) =~= Seq::<(nat, Seq<u8>)>::empty());
    }
}

/// A line that sits right after `prefix`: it starts with `prefix`, then a branch marker or
/// the error text.
pub open spec fn top_line(prefix: Seq<u8>, line: Seq<u8>) -> bool {
    let r = line.subrange(prefix.len() as int, line.len() as int);
    &&& crate::text::starts_with(line, prefix)
    &&& crate::text::starts_with(r, branch_marker(true)) || crate::text::starts_with(r, branch_marker(false))
        || r == "[Error reading directory]\n".spec_bytes()
}

/// A line that sits `k` indentation units (`"    "` or `"│   "`) after `prefix`.
pub open spec fn line_at_level(prefix: Seq<u8>, k: nat, line: Seq<u8>) -> bool
    decreases k,
{
    if k == 0 {
        top_line(prefix, line)
    } else {
        line_at_level(prefix + indent(true), (k - 1) as nat, line) || line_at_level(prefix + indent(false), (k - 1) as nat, line)
    }
}

pub open spec fn all_at_level(prefix: Seq<u8>, ls: Seq<(nat, Seq<u8>)>) -> bool {
    forall|j: int| 0 <= j < ls.len() ==> line_at_level(prefix, (#[trigger] ls[j]).0, ls[j].1)
}

proof fn lemma_all_at_level_add(prefix: Seq<u8>, a: Seq<(nat, Seq<u8>)>, b: Seq<(nat, Seq<u8>)>)
    requires
        all_at_level(prefix, a),
        all_at_level(prefix, b),
    ensures
        all_at_level(prefix, a + b),
{
    assert forall|j: int| 0 <= j < (a + b).len() implies line_at_level(prefix, (#[trigger] (a + b)[j]).0, (a + b)[j].1) by {
        if j < a.len() {
            assert((a + b)[j] == a[j]);
        } else {
            assert((a + b)[j] == b[j - a.len()]);
        }
    }
}

proof fn lemma_tree_line_levels(d: DirListing, prefix: Seq<u8>, max: nat, cur: nat)
    ensures
        all_at_level(prefix, tree_lines(d, prefix, max, cur)),
    decreases max + 1 - cur, 1int, 0int,
{
    if cur <= max {
        if !d.readable {
            let line = prefix + "[Error reading directory]\n".spec_bytes();
            assert(line.subrange(0, prefix.len() as int) =~= prefix);
            assert(line.subrange(prefix.len() as int, line.len() as int) =~= "[Error reading directory]\n".spec_bytes());
            let ls = tree_lines(d, prefix, max, cur);
            assert forall|j: int| 0 <= j < ls.len() implies line_at_level(prefix, (#[trigger] ls[j]).0, ls[j].1) by {
                assert(ls[j] == (0nat, line));
            }
        } else {
            lemma_entry_line_levels(shown_entries(sort_entries(d.entries@)), 0, prefix, max, cur);
        }
    }
}

proof fn lemma_entry_line_levels(es: Seq<TreeEntry>, i: int, prefix: Seq<u8>, max: nat, cur: nat)
    ensures
        all_at_level(prefix, entry_lines(es, i, prefix, max, cur)),
    decreases max + 1 - cur, 0int, es.len() - i,
{
    if cur <= max && 0 <= i < es.len() {
        let e = es[i];
        let is_last = i == es.len() - 1;
        let m = branch_marker(is_last);
        let line = prefix + m + e.name@ + "\n".spec_bytes();
        let head: Seq<(nat, Seq<u8>)> = seq![(0nat, line)];
        let p2 = prefix + indent(is_last);
        let sub = if e.is_dir { deeper(tree_lines(e.children, p2, max, cur + 1)) } else { seq![] };
        let rest = entry_lines(es, i + 1, prefix, max, cur);
        assert(line.subrange(0, prefix.len() as int) =~= prefix);
        let r = line.subrange(prefix.len() as int, line.len() as int);
        assert(r =~= m + e.name@ + "\n".spec_bytes());
        assert(r.subrange(0, m.len() as int) =~= m);
        assert forall|j: int| 0 <= j < head.len() implies line_at_level(prefix, (#[trigger] head[j]).0, head[j].1) by {
            assert(head[j] == (0nat, line));
        }
        if e.is_dir {
            let inner = tree_lines(e.children, p2, max, cur + 1);
            lemma_tree_line_levels(e.children, p2, max, cur + 1);
            assert forall|j: int| 0 <= j < sub.len() implies line_at_level(prefix, (#[trigger] sub[j]).0, sub[j].1) by {
                assert(sub[j] == ((inner[j].0 + 1) as nat, inner[j].1));
                assert(line_at_level(p2, inner[j].0, inner[j].1));
            }
        }
        lemma_entry_line_levels(es, i + 1, prefix, max, cur);
        lemma_all_at_level_add(prefix, head, sub);
        lemma_all_at_level_add(prefix, head + sub, rest);
    }
}

/// A tree drawn one level deeper only adds lines: its lines, each with its level, draw it;
/// a line of level `k` sits `k` indentation units after the prefix; and dropping the lines
/// at the new level (`max + 1 - cur` units in) leaves the lines of the tree as drawn before,
/// in the same order.
pub proof fn law_deeper_tree_adds_lines(d: DirListing, prefix: Seq<u8>, max: nat, cur: nat)
    ensures
        all_at_level(prefix, tree_lines(d, prefix, max + 1, cur)),
        text_of(tree_lines(d, prefix, max, cur)) == render_dir(d, prefix, max, cur),
        text_of(tree_lines(d, prefix, max + 1, cur)) == render_dir(d, prefix, max + 1, cur),
        tree_lines(d, prefix, max, cur) == keep_levels(tree_lines(d, prefix, max + 1, cur), max + 1 - cur),
{
    lemma_tree_text(d, prefix, max, cur);
    lemma_tree_text(d, prefix, max + 1, cur);
    lemma_tree_levels(d, prefix, max, cur);
    lemma_tree_line_levels(d, prefix, max + 1, cur);
}

/// The names that a directory tree never draws, nor anything below them: `node_modules`,
/// `target`, `.git`, `.forge`, `dist` and `build`.
pub open spec fn never_drawn(name: Seq<u8>) -> bool {
    name == "node_modules".spec_bytes() || name == "target".spec_bytes() || name == ".git".spec_bytes()
        || name == ".forge".spec_bytes() || name == "dist".spec_bytes() || name == "build".spec_bytes()
}

/// What follows the prefix and indentation of a drawn line: the error text, or a branch
/// marker, a name that a tree may draw, and the newline.
pub open spec fn drawn_rest(r: Seq<u8>) -> bool {
    let m1 = branch_marker(true);
    let m0 = branch_marker(false);
    ||| r == "[Error reading directory]\n".spec_bytes()
    ||| r.len() > m1.len() && r.subrange(0, m1.len() as int) == m1 && r.last() == 10u8
        && !never_drawn(r.subrange(m1.len() as int, r.len() - 1))
    ||| r.len() > m0.len() && r.subrange(0, m0.len() as int) == m0 && r.last() == 10u8
        && !never_drawn(r.subrange(m0.len() as int, r.len() - 1))
}

/// A line that sits `k` indentation units after `prefix` and then is `drawn_rest`.
pub open spec fn drawn_line(prefix: Seq<u8>, k: nat, line: Seq<u8>) -> bool
    decreases k,
{
    if k == 0 {
        crate::text::starts_with(line, prefix) && drawn_rest(line.subrange(prefix.len() as int, line.len() as int))
    } else {
        drawn_line(prefix + indent(true), (k - 1) as nat, line) || drawn_line(prefix + indent(false), (k - 1) as nat, line)
    }
}

pub open spec fn all_drawn(prefix: Seq<u8>, ls: Seq<(nat, Seq<u8>)>) -> bool {
    forall|j: int| 0 <= j < ls.len() ==> drawn_line(prefix, (#[trigger] ls[j]).0, ls[j].1)
}

proof fn lemma_all_drawn_add(prefix: Seq<u8>, a: Seq<(nat, Seq<u8>)>, b: Seq<(nat, Seq<u8>)>)
    requires
        all_drawn(prefix, a),
        all_drawn(prefix, b),
    ensures
        all_drawn(prefix, a + b),
{
    assert forall|j: int| 0 <= j < (a + b).len() implies drawn_line(prefix, (#[trigger] (a + b)[j]).0, (a + b)[j].1) by {
        if j < a.len() {
            assert((a + b)[j] == a[j]);
        } else {
            assert((a + b)[j] == b[j - a.len()]);
        }
    }
}

proof fn lemma_shown_not_skipped(es: Seq<TreeEntry>)
    ensures
        forall|k: int| 0 <= k < shown_entries(es).len() ==> !tree_skips_name((#[trigger] shown_entries(es)[k]).name@),
    decreases es.len(),
{
    if es.len() > 0 {
        lemma_shown_not_skipped(es.drop_last());
        let a = shown_entries(es.drop_last());
        let b: Seq<TreeEntry> = if tree_skips_name(es.last().name@) { seq![] } else { seq![es.last()] };
        assert forall|k: int| 0 <= k < (a + b).len() implies !tree_skips_name((#[trigger] (a + b)[k]).name@) by {
            if k < a.len() {
                assert((a + b)[k] == a[k]);
            } else {
                assert((a + b)[k] == b[k - a.len()]);
            }
        }
    }
}

proof fn lemma_tree_drawn(d: DirListing, prefix: Seq<u8>, max: nat, cur: nat)
    ensures
        all_drawn(prefix, tree_lines(d, prefix, max, cur)),
    decreases max + 1 - cur, 1int, 0int,
{
    if cur <= max {
        if !d.readable {
            let line = prefix + "[Error reading directory]\n".spec_bytes();
            assert(line.subrange(0, prefix.len() as int) =~= prefix);
            assert(line.subrange(prefix.len() as int, line.len() as int) =~= "[Error reading directory]\n".spec_bytes());
            let ls = tree_lines(d, prefix, max, cur);
            assert forall|j: int| 0 <= j < ls.len() implies drawn_line(prefix, (#[trigger] ls[j]).0, ls[j].1) by {
                assert(ls[j] == (0nat, line));
            }
        } else {
            let es = shown_entries(sort_entries(d.entries@));
            lemma_shown_not_skipped(sort_entries(d.entries@));
            lemma_entries_drawn(es, 0, prefix, max, cur);
        }
    }
}

proof fn lemma_entries_drawn(es: Seq<TreeEntry>, i: int, prefix: Seq<u8>, max: nat, cur: nat)
    requires
        forall|k: int| 0 <= k < es.len() ==> !tree_skips_name((#[trigger] es[k]).name@),
    ensures
        all_drawn(prefix, entry_lines(es, i, prefix, max, cur)),
    decreases max + 1 - cur, 0int, es.len() - i,
{
    if cur <= max && 0 <= i < es.len() {
        let e = es[i];
        let is_last = i == es.len() - 1;
        let m = branch_marker(is_last);
        let nl = "\n".spec_bytes();
        let line = prefix + m + e.name@ + nl;
        let head: Seq<(nat, Seq<u8>)> = seq![(0nat, line)];
        let p2 = prefix + indent(is_last);
        let sub = if e.is_dir { deeper(tree_lines(e.children, p2, max, cur + 1)) } else { seq![] };
        let rest = entry_lines(es, i + 1, prefix, max, cur);
        reveal_strlit("\n");
        vstd::string::is_ascii_spec_bytes("\n");
        assert(nl.len() == 1);
        assert(nl[0] == 10u8);
        assert(line.subrange(0, prefix.len() as int) =~= prefix);
        let r = line.subrange(prefix.len() as int, line.len() as int);
        assert(r =~= m + e.name@ + nl);
        assert(r.subrange(0, m.len() as int) =~= m);
        assert(r.subrange(m.len() as int, r.len() - 1) =~= e.name@);
        assert(!tree_skips_name(e.name@));
        assert(drawn_rest(r));
        assert forall|j: int| 0 <= j < head.len() implies drawn_line(prefix, (#[trigger] head[j]).0, head[j].1) by {
            assert(head[j] == (0nat, line));
        }
        if e.is_dir {
            let inner = tree_lines(e.children, p2, max, cur + 1);
            lemma_tree_drawn(e.children, p2, max, cur + 1);
            assert forall|j: int| 0 <= j < sub.len() implies drawn_line(prefix, (#[trigger] sub[j]).0, sub[j].1) by {
                assert(sub[j] == ((inner[j].0 + 1) as nat, inner[j].1));
                assert(drawn_line(p2, inner[j].0, inner[j].1));
            }
        }
        lemma_entries_drawn(es, i + 1, prefix, max, cur);
        lemma_all_drawn_add(prefix, head, sub);
        lemma_all_drawn_add(prefix, head + sub, rest);
    }
}

/// A directory tree never draws an entry named `node_modules`, `target`, `.git`, `.forge`,
/// `dist` or `build`: the drawing is made of its lines, and each line, after the prefix and
/// its indentation, is the error text or a branch marker, a name other than these, and a
/// newline. (Nothing below such an entry is drawn either: a directory's entries are drawn
/// only below the directory's own line.)
pub proof fn law_tree_leaves_out_skipped(d: DirListing, prefix: Seq<u8>, max: nat, cur: nat)
    ensures
        text_of(tree_lines(d, prefix, max, cur)) == render_dir(d, prefix, max, cur),
        all_drawn(prefix, tree_lines(d, prefix, max, cur)),
{
    lemma_tree_text(d, prefix, max, cur);
    lemma_tree_drawn(d, prefix, max, cur);
}

/// The entries of `es` whose name a tree may draw, in order.
pub open spec fn drawable(es: Seq<TreeEntry>) -> Seq<TreeEntry>
    decreases es.len(),
{
    if es.len() == 0 {
        seq![]
    } else {
        drawable(es.drop_last()) + if never_drawn(es.last().name@) { Seq::<TreeEntry>::empty() } else { seq![es.last()] }
    }
}

/// A directory's lines are drawn for exactly its entries not named `node_modules`, `target`,
/// `.git`, `.forge`, `dist` or `build`: all of those, in name order, and no other.
pub proof fn law_tree_draws_every_other_entry(es: Seq<TreeEntry>)
    ensures
        shown_entries(sort_entries(es)) == drawable(sort_entries(es)),
{
    lemma_shown_is_drawable(sort_entries(es));
}

proof fn lemma_shown_is_drawable(es: Seq<TreeEntry>)
    ensures
        shown_entries(es) == drawable(es),
    decreases es.len(),
{
    if es.len() > 0 {
        lemma_shown_is_drawable(es.drop_last());
        assert(tree_skips_name(es.last().name@) == never_drawn(es.last().name@));
    }
}

} // verus!
