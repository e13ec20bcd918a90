//! Text as UTF-8 bytes: searching, trimming, splitting into lines, decimal numbers.
//!
//! Every string of the library is the UTF-8 encoding of a Rust `str`, held as bytes, so
//! that lengths and cut positions are byte counts, as they are for `str`.
use vstd::prelude::*;
use vstd::string::StringSliceAdditionalSpecFns;

verus! {

/// `pat` occurs in `s` starting at byte `i`.
pub open spec fn occurs_at(s: Seq<u8>, pat: Seq<u8>, i: int) -> bool {
    0 <= i && i + pat.len() <= s.len() && s.subrange(i, i + pat.len()) == pat
}

/// The first position, at or after `from`, where `pat` occurs in `s`.
pub open spec fn find_from(s: Seq<u8>, pat: Seq<u8>, from: int) -> Option<int>
    decreases s.len() + 1 - from,
{
    if from < 0 || from + pat.len() > s.len() {
        None
    } else if occurs_at(s, pat, from) {
        Some(from)
    } else {
        find_from(s, pat, from + 1)
    }
}

/// `str::find`: the first position where `pat` occurs in `s`.
pub open spec fn find(s: Seq<u8>, pat: Seq<u8>) -> Option<int> {
    find_from(s, pat, 0)
}

/// The last position, at or before `i`, where `pat` occurs in `s`.
pub open spec fn rfind_at_most(s: Seq<u8>, pat: Seq<u8>, i: int) -> Option<int>
    decreases i + 1,
{
    if i < 0 {
        None
    } else if occurs_at(s, pat, i) {
        Some(i)
    } else {
        rfind_at_most(s, pat, i - 1)
    }
}

pub proof fn lemma_find_from_range(s: Seq<u8>, pat: Seq<u8>, from: int)
    ensures
        find_from(s, pat, from) matches Some(p) ==> from <= p && occurs_at(s, pat, p),
    decreases s.len() + 1 - from,
{
    if from < 0 || from + pat.len() > s.len() {
    } else if occurs_at(s, pat, from) {
    } else {
        lemma_find_from_range(s, pat, from + 1);
    }
}

/// `str::rfind`: the last position where `pat` occurs in `s`.
pub open spec fn rfind(s: Seq<u8>, pat: Seq<u8>) -> Option<int> {
    rfind_at_most(s, pat, s.len() - pat.len())
}

/// `str::contains`.
pub open spec fn contains(s: Seq<u8>, pat: Seq<u8>) -> bool {
    find(s, pat) is Some
}

/// `str::starts_with`.
pub open spec fn starts_with(s: Seq<u8>, pat: Seq<u8>) -> bool {
    pat.len() <= s.len() && s.subrange(0, pat.len() as int) == pat
}

/// `str::is_char_boundary` on the bytes of a `str`: the ends, and every byte that is not a
/// continuation byte (`0b10xx_xxxx`).
pub open spec fn is_boundary(s: Seq<u8>, i: int) -> bool {
    i == 0 || i == s.len() || (0 < i < s.len() && !(0x80 <= s[i] && s[i] < 0xC0))
}

/// Width in bytes of the Unicode `White_Space` character whose encoding starts at byte `i`,
/// or 0 where none starts there. These are the characters that `char::is_whitespace` accepts:
/// U+0009..U+000D, U+0020, U+0085, U+00A0, U+1680, U+2000..U+200A, U+2028, U+2029, U+202F,
/// U+205F and U+3000.
pub open spec fn ws_width_at(s: Seq<u8>, i: int) -> int {
    if 0 <= i < s.len() && (s[i] == 0x20 || (0x09 <= s[i] && s[i] <= 0x0D)) {
        1
    } else if 0 <= i && i + 2 <= s.len() && s[i] == 0xC2 && (s[i + 1] == 0x85 || s[i + 1] == 0xA0) {
        2
    } else if 0 <= i && i + 3 <= s.len() && (
        (s[i] == 0xE1 && s[i + 1] == 0x9A && s[i + 2] == 0x80)
        || (s[i] == 0xE2 && s[i + 1] == 0x80 && ((0x80 <= s[i + 2] && s[i + 2] <= 0x8A)
            || s[i + 2] == 0xA8 || s[i + 2] == 0xA9 || s[i + 2] == 0xAF))
        || (s[i] == 0xE2 && s[i + 1] == 0x81 && s[i + 2] == 0x9F)
        || (s[i] == 0xE3 && s[i + 1] == 0x80 && s[i + 2] == 0x80)) {
        3
    } else {
        0
    }
}

/// Width in bytes of the whitespace character that ends `s`, or 0.
pub open spec fn ws_width_last(s: Seq<u8>) -> int {
    if ws_width_at(s, s.len() - 1) == 1 {
        1
    } else if ws_width_at(s, s.len() - 2) == 2 {
        2
    } else if ws_width_at(s, s.len() - 3) == 3 {
        3
    } else {
        0
    }
}

/// `str::trim_start`.
pub open spec fn trim_start(s: Seq<u8>) -> Seq<u8>
    decreases s.len(),
{
    let w = ws_width_at(s, 0);
    if w > 0 {
        trim_start(s.subrange(w, s.len() as int))
    } else {
        s
    }
}

/// `str::trim_end`.
pub open spec fn trim_end(s: Seq<u8>) -> Seq<u8>
    decreases s.len(),
{
    let w = ws_width_last(s);
    if w > 0 {
        trim_end(s.subrange(0, s.len() - w))
    } else {
        s
    }
}

/// `str::trim`.
pub open spec fn trim(s: Seq<u8>) -> Seq<u8> {
    trim_end(trim_start(s))
}

/// `str::trim_end_matches` with a single byte pattern.
pub open spec fn trim_end_byte(s: Seq<u8>, b: u8) -> Seq<u8>
    decreases s.len(),
{
    if s.len() > 0 && s.last() == b {
        trim_end_byte(s.drop_last(), b)
    } else {
        s
    }
}

/// A line as `str::lines` yields it: without a final `"\r"`.
pub open spec fn strip_cr(line: Seq<u8>) -> Seq<u8> {
    if line.len() > 0 && line.last() == 13u8 {
        line.drop_last()
    } else {
        line
    }
}

/// `str::lines`: split at `"\n"`, drop a `"\r"` before it; a final line ending is optional.
pub open spec fn lines_of(s: Seq<u8>) -> Seq<Seq<u8>>
    decreases s.len(),
{
    if s.len() == 0 {
        seq![]
    } else {
        proof {
            lemma_find_from_range(s, seq![10u8], 0);
        }
        match find(s, seq![10u8]) {
            Some(p) => seq![strip_cr(s.subrange(0, p))] + lines_of(s.subrange(p + 1, s.len() as int)),
            None => seq![s],
        }
    }
}

/// The decimal digits of `n`, as `usize`'s `Display` writes them.
pub open spec fn decimal(n: nat) -> Seq<u8>
    decreases n,
{
    if n < 10 {
        seq![(48 + n) as u8]
    } else {
        decimal(n / 10).push((48 + n % 10) as u8)
    }
}

pub open spec fn is_digit(b: u8) -> bool {
    48 <= b && b <= 57
}

pub open spec fn all_digits(s: Seq<u8>) -> bool {
    forall|i: int| 0 <= i < s.len() ==> is_digit(#[trigger] s[i])
}

/// The number that a string of decimal digits writes.
pub open spec fn digits_value(s: Seq<u8>) -> nat
    decreases s.len(),
{
    if s.len() == 0 {
        0
    } else {
        digits_value(s.drop_last()) * 10 + (s.last() - 48) as nat
    }
}

/// `str::parse::<usize>`: an optional `+`, then one or more decimal digits, of a value that
/// fits in `usize`.
pub open spec fn parse_usize(s: Seq<u8>) -> Option<usize> {
    let d = if s.len() > 0 && s[0] == 43u8 { s.subrange(1, s.len() as int) } else { s };
    if d.len() == 0 || !all_digits(d) || digits_value(d) > usize::MAX {
        None
    } else {
        Some(digits_value(d) as usize)
    }
}

/// The concatenation of `parts` with `sep` between each two of them (`[T]::join`).
pub open spec fn join(parts: Seq<Seq<u8>>, sep: Seq<u8>) -> Seq<u8>
    decreases parts.len(),
{
    if parts.len() == 0 {
        seq![]
    } else if parts.len() == 1 {
        parts[0]
    } else {
        join(parts.drop_last(), sep) + sep + parts.last()
    }
}

/// The bytes of a string literal.
pub fn lit(s: &str) -> (r: Vec<u8>)
    ensures
        r@ == s.spec_bytes(),
{
    vstd::slice::slice_to_vec(s.as_bytes())
}

/// Appends `src` to `dst`.
pub fn push_all(dst: &mut Vec<u8>, src: &[u8])
    ensures
        final(dst)@ == old(dst)@ + src@,
{
    let mut i: usize = 0;
    while i < src.len()
        invariant
            i <= src@.len(),
            dst@ == old(dst)@ + src@.subrange(0, i as int),
        decreases src@.len() - i,
    {
        dst.push(src[i]);
        i = i + 1;
        assert(src@.subrange(0, i as int) =~= src@.subrange(0, i - 1).push(src@[i - 1]));
    }
    assert(src@.subrange(0, src@.len() as int) =~= src@);
}

/// The concatenation of `a` and `b`.
pub fn concat(a: &[u8], b: &[u8]) -> (r: Vec<u8>)
    ensures
        r@ == a@ + b@,
{
    let mut r: Vec<u8> = Vec::new();
    push_all(&mut r, a);
    push_all(&mut r, b);
    assert(r@ =~= a@ + b@);
    r
}

/// A copy of the bytes `s[from..to]`.
pub fn slice_copy(s: &[u8], from: usize, to: usize) -> (r: Vec<u8>)
    requires
        from <= to <= s@.len(),
    ensures
        r@ == s@.subrange(from as int, to as int),
{
    let mut r: Vec<u8> = Vec::new();
    let mut i: usize = from;
    while i < to
        invariant
            from <= i <= to <= s@.len(),
            r@ == s@.subrange(from as int, i as int),
        decreases to - i,
    {
        r.push(s[i]);
        i = i + 1;
        assert(s@.subrange(from as int, i as int) =~= s@.subrange(from as int, i - 1).push(
            s@[i - 1],
        ));
    }
    r
}

/// Whether `pat` occurs in `s` at byte `i`.
pub fn matches_at(s: &[u8], pat: &[u8], i: usize) -> (b: bool)
    ensures
        b == occurs_at(s@, pat@, i as int),
{
    if i > s.len() || pat.len() > s.len() - i {
        return false;
    }
    let n = s.len();
    let mut k: usize = 0;
    while k < pat.len()
        invariant
            n == s@.len(),
            i + pat@.len() <= s@.len(),
            k <= pat@.len(),
            forall|j: int| 0 <= j < k ==> s@[i + j] == pat@[j],
        decreases pat@.len() - k,
    {
        assert(i + k < s@.len());
        if s[i + k] != pat[k] {
            assert(s@.subrange(i as int, i + pat@.len())[k as int] != pat@[k as int]);
            return false;
        }
        k = k + 1;
    }
    assert(s@.subrange(i as int, i + pat@.len()) =~= pat@);
    true
}

proof fn lemma_find_from_step(s: Seq<u8>, pat: Seq<u8>, i: int)
    requires
        0 <= i,
        i + pat.len() <= s.len(),
        !occurs_at(s, pat, i),
    ensures
        find_from(s, pat, i) == find_from(s, pat, i + 1),
{
}

/// `str::find`.
pub fn find_in(s: &[u8], pat: &[u8]) -> (r: Option<usize>)
    ensures
        r matches Some(i) ==> find(s@, pat@) == Some(i as int),
        r is None ==> find(s@, pat@) is None,
{
    if pat.len() > s.len() {
        return None;
    }
    let mut i: usize = 0;
    loop
        invariant
            pat@.len() <= s@.len(),
            i <= s@.len() - pat@.len(),
            find(s@, pat@) == find_from(s@, pat@, i as int),
        decreases s@.len() - pat@.len() - i,
    {
        if matches_at(s, pat, i) {
            return Some(i);
        }
        proof {
            lemma_find_from_step(s@, pat@, i as int);
        }
        if i == s.len() - pat.len() {
            return None;
        }
        i = i + 1;
    }
}

/// `str::rfind`.
pub fn rfind_in(s: &[u8], pat: &[u8]) -> (r: Option<usize>)
    ensures
        r matches Some(i) ==> rfind(s@, pat@) == Some(i as int),
        r is None ==> rfind(s@, pat@) is None,
{
    if pat.len() > s.len() {
        assert(rfind_at_most(s@, pat@, s@.len() - pat@.len()) is None);
        return None;
    }
    let mut i: usize = s.len() - pat.len();
    loop
        invariant
            pat@.len() <= s@.len(),
            i <= s@.len() - pat@.len(),
            rfind(s@, pat@) == rfind_at_most(s@, pat@, i as int),
        decreases i,
    {
        if matches_at(s, pat, i) {
            return Some(i);
        }
        if i == 0 {
            assert(rfind_at_most(s@, pat@, -1) is None);
            return None;
        }
        i = i - 1;
    }
}

/// `str::contains`.
pub fn contains_in(s: &[u8], pat: &[u8]) -> (b: bool)
    ensures
        b == contains(s@, pat@),
{
    find_in(s, pat).is_some()
}

/// `str::starts_with`.
pub fn starts_with_in(s: &[u8], pat: &[u8]) -> (b: bool)
    ensures
        b == starts_with(s@, pat@),
{
    let b = matches_at(s, pat, 0);
    proof {
        if b {
            assert(s@.subrange(0, pat@.len() as int) == pat@);
        }
    }
    b
}

/// Whether two byte strings are equal.
pub fn bytes_eq(a: &[u8], b: &[u8]) -> (r: bool)
    ensures
        r == (a@ == b@),
{
    if a.len() != b.len() {
        return false;
    }
    let r = matches_at(a, b, 0);
    proof {
        if r {
            assert(a@.subrange(0, b@.len() as int) =~= a@);
        } else {
            assert(a@.subrange(0, b@.len() as int) =~= a@);
        }
    }
    r
}

/// `str::is_char_boundary`.
pub fn is_boundary_at(s: &[u8], i: usize) -> (b: bool)
    ensures
        b == is_boundary(s@, i as int),
{
    if i == 0 || i == s.len() {
        true
    } else if i > s.len() {
        false
    } else {
        !(0x80 <= s[i] && s[i] < 0xC0)
    }
}

/// Width of the whitespace character starting at `s[i]`, within `s[..end]`.
fn ws_width_in(s: &[u8], i: usize, end: usize) -> (w: usize)
    requires
        i <= end <= s@.len(),
    ensures
        w == ws_width_at(s@.subrange(0, end as int), i as int),
{
    let ghost t = s@.subrange(0, end as int);
    if i < end && (s[i] == 0x20 || (0x09 <= s[i] && s[i] <= 0x0D)) {
        return 1;
    }
    if end - i >= 2 && s[i] == 0xC2 && (s[i + 1] == 0x85 || s[i + 1] == 0xA0) {
        return 2;
    }
    if end - i >= 3 {
        let b0 = s[i];
        let b1 = s[i + 1];
        let b2 = s[i + 2];
        if (b0 == 0xE1 && b1 == 0x9A && b2 == 0x80) || (b0 == 0xE2 && b1 == 0x80 && ((0x80
            <= b2 && b2 <= 0x8A) || b2 == 0xA8 || b2 == 0xA9 || b2 == 0xAF)) || (b0 == 0xE2
            && b1 == 0x81 && b2 == 0x9F) || (b0 == 0xE3 && b1 == 0x80 && b2 == 0x80) {
            return 3;
        }
    }
    0
}

proof fn lemma_ws_width_shift(s: Seq<u8>, lo: int, hi: int, i: int)
    requires
        0 <= lo <= i <= hi <= s.len(),
    ensures
        ws_width_at(s.subrange(lo, hi), i - lo) == ws_width_at(s.subrange(0, hi), i),
{
    let a = s.subrange(lo, hi);
    let b = s.subrange(0, hi);
    assert forall|k: int| i <= k < hi implies a[k - lo] == b[k] by {}
}

/// The bounds `(start, end)` of `str::trim` in `s`.
pub fn trim_bounds(s: &[u8]) -> (r: (usize, usize))
    ensures
        r.0 <= r.1 <= s@.len(),
        s@.subrange(r.0 as int, r.1 as int) == trim(s@),
{
    let n = s.len();
    let mut i: usize = 0;
    assert(s@.subrange(0, n as int) =~= s@);
    loop
        invariant
            n == s@.len(),
            i <= n,
            trim_start(s@) == trim_start(s@.subrange(i as int, n as int)),
        ensures
            i <= n,
            trim_start(s@) == s@.subrange(i as int, n as int),
        decreases n - i,
    {
        let w = ws_width_in(s, i, n);
        proof {
            assert(s@.subrange(0, n as int) =~= s@);
            lemma_ws_width_shift(s@, i as int, n as int, i as int);
        }
        if w == 0 {
            break;
        }
        proof {
            let t = s@.subrange(i as int, n as int);
            assert(t.subrange(w as int, t.len() as int) =~= s@.subrange(i + w, n as int));
        }
        i = i + w;
    }
    let mut j: usize = n;
    loop
        invariant
            n == s@.len(),
            i <= j <= n,
            trim(s@) == trim_end(s@.subrange(i as int, j as int)),
        ensures
            i <= j <= n,
            trim(s@) == s@.subrange(i as int, j as int),
        decreases j,
    {
        let ghost t = s@.subrange(i as int, j as int);
        let mut w: usize = 0;
        if j - i >= 1 && ws_width_in(s, j - 1, j) == 1 {
            w = 1;
        } else if j - i >= 2 && ws_width_in(s, j - 2, j) == 2 {
            w = 2;
        } else if j - i >= 3 && ws_width_in(s, j - 3, j) == 3 {
            w = 3;
        }
        proof {
            if j - i >= 1 {
                lemma_ws_width_shift(s@, i as int, j as int, j - 1);
            }
            if j - i >= 2 {
                lemma_ws_width_shift(s@, i as int, j as int, j - 2);
            }
            if j - i >= 3 {
                lemma_ws_width_shift(s@, i as int, j as int, j - 3);
            }
            assert(ws_width_at(t, t.len() - 1) == 1 ==> j - i >= 1);
            assert(ws_width_at(t, t.len() - 2) == 2 ==> j - i >= 2);
            assert(ws_width_at(t, t.len() - 3) == 3 ==> j - i >= 3);
            assert(w == ws_width_last(t));
        }
        if w == 0 {
            break;
        }
        proof {
            assert(t.subrange(0, t.len() - w) =~= s@.subrange(i as int, j - w));
        }
        j = j - w;
    }
    (i, j)
}

/// A copy of `str::trim` of `s`.
pub fn trimmed(s: &[u8]) -> (r: Vec<u8>)
    ensures
        r@ == trim(s@),
{
    let (a, b) = trim_bounds(s);
    slice_copy(s, a, b)
}

/// The end of `str::trim_end` in `s`.
pub fn trim_end_len(s: &[u8]) -> (r: usize)
    ensures
        r <= s@.len(),
        s@.subrange(0, r as int) == trim_end(s@),
{
    let n = s.len();
    let mut j: usize = n;
    assert(s@.subrange(0, n as int) =~= s@);
    loop
        invariant
            n == s@.len(),
            j <= n,
            trim_end(s@) == trim_end(s@.subrange(0, j as int)),
        ensures
            j <= n,
            trim_end(s@) == s@.subrange(0, j as int),
        decreases j,
    {
        let ghost t = s@.subrange(0, j as int);
        let mut w: usize = 0;
        if j >= 1 && ws_width_in(s, j - 1, j) == 1 {
            w = 1;
        } else if j >= 2 && ws_width_in(s, j - 2, j) == 2 {
            w = 2;
        } else if j >= 3 && ws_width_in(s, j - 3, j) == 3 {
            w = 3;
        }
        assert(w == ws_width_last(t));
        if w == 0 {
            break;
        }
        assert(t.subrange(0, t.len() - w) =~= s@.subrange(0, j - w));
        j = j - w;
    }
    j
}

/// `str::trim_end_matches` with a single byte.
pub fn trim_end_byte_len(s: &[u8], b: u8) -> (r: usize)
    ensures
        r <= s@.len(),
        s@.subrange(0, r as int) == trim_end_byte(s@, b),
{
    let n = s.len();
    let mut j: usize = n;
    assert(s@.subrange(0, n as int) =~= s@);
    while j > 0 && s[j - 1] == b
        invariant
            n == s@.len(),
            j <= n,
            trim_end_byte(s@, b) == trim_end_byte(s@.subrange(0, j as int), b),
        decreases j,
    {
        assert(s@.subrange(0, j as int).drop_last() =~= s@.subrange(0, j - 1));
        j = j - 1;
    }
    j
}

/// Appends the decimal digits of `n`.
pub fn push_decimal(out: &mut Vec<u8>, n: usize)
    ensures
        final(out)@ == old(out)@ + decimal(n as nat),
    decreases n,
{
    if n >= 10 {
        push_decimal(out, n / 10);
    }
    let d: u8 = (48 + n % 10) as u8;
    out.push(d);
    proof {
        if n >= 10 {
            assert(decimal(n as nat) == decimal((n / 10) as nat).push(d));
        } else {
            assert(decimal(n as nat) =~= seq![d]);
        }
    }
}

/// `str::parse::<usize>`.
pub fn parse_usize_in(s: &[u8]) -> (r: Option<usize>)
    ensures
        r == parse_usize(s@),
{
    let start: usize = if s.len() > 0 && s[0] == 43u8 { 1 } else { 0 };
    let ghost d = if s@.len() > 0 && s@[0] == 43u8 { s@.subrange(1, s@.len() as int) } else { s@ };
    assert(d =~= s@.subrange(start as int, s@.len() as int));
    if start == s.len() {
        return None;
    }
    let mut v: usize = 0;
    let mut i: usize = start;
    let mut overflow = false;
    while i < s.len()
        invariant
            start <= i <= s@.len(),
            d == s@.subrange(start as int, s@.len() as int),
            d == (if s@.len() > 0 && s@[0] == 43u8 { s@.subrange(1, s@.len() as int) } else { s@ }),
            all_digits(s@.subrange(start as int, i as int)),
            !overflow ==> v == digits_value(s@.subrange(start as int, i as int)),
            overflow ==> i > start && digits_value(s@.subrange(start as int, i as int)) > usize::MAX,
        decreases s@.len() - i,
    {
        let c = s[i];
        if !(48 <= c && c <= 57) {
            assert(d[i - start] == c);
            assert(!is_digit(d[i - start]));
            assert(!all_digits(d));
            assert(parse_usize(s@) is None);
            return None;
        }
        let ghost prev = s@.subrange(start as int, i as int);
        let ghost next = s@.subrange(start as int, i + 1);
        assert(next.drop_last() =~= prev);
        assert(all_digits(next)) by {
            assert forall|k: int| 0 <= k < next.len() implies is_digit(#[trigger] next[k]) by {
                if k < prev.len() {
                    assert(next[k] == prev[k]);
                }
            }
        }
        if !overflow {
            match v.checked_mul(10) {
                Some(m) => match m.checked_add((c - 48) as usize) {
                    Some(a) => {
                        v = a;
                    },
                    None => {
                        overflow = true;
                    },
                },
                None => {
                    overflow = true;
                },
            }
        } else {
            assert(digits_value(next) >= digits_value(prev) * 10);
        }
        i = i + 1;
    }
    proof {
        let full = s@.subrange(start as int, s@.len() as int);
        assert(full == d);
    }
    if overflow {
        None
    } else {
        Some(v)
    }
}

/// Joins `parts` with `sep` between them.
pub fn join_with(parts: &Vec<Vec<u8>>, sep: &[u8]) -> (r: Vec<u8>)
    ensures
        r@ == join(parts@.map_values(|p: Vec<u8>| p@), sep@),
{
    let ghost views = parts@.map_values(|p: Vec<u8>| p@);
    let mut r: Vec<u8> = Vec::new();
    let mut i: usize = 0;
    while i < parts.len()
        invariant
            i <= parts@.len(),
            views == parts@.map_values(|p: Vec<u8>| p@),
            r@ == join(views.subrange(0, i as int), sep@),
        decreases parts@.len() - i,
    {
        let ghost before = r@;
        if i > 0 {
            push_all(&mut r, sep);
        }
        push_all(&mut r, parts[i].as_slice());
        proof {
            let pre = views.subrange(0, i as int);
            let post = views.subrange(0, i + 1);
            assert(post.drop_last() =~= pre);
            assert(post.last() == parts@[i as int]@);
            if i == 0 {
                assert(post.len() == 1);
                assert(r@ =~= post[0]);
            }
        }
        i = i + 1;
    }
    assert(views.subrange(0, parts@.len() as int) =~= views);
    r
}


/// `strip_cr` of a line.
fn strip_cr_copy(s: &[u8]) -> (r: Vec<u8>)
    ensures
        r@ == strip_cr(s@),
{
    if s.len() > 0 && s[s.len() - 1] == 13u8 {
        let r = slice_copy(s, 0, s.len() - 1);
        assert(r@ =~= s@.drop_last());
        r
    } else {
        let r = slice_copy(s, 0, s.len());
        assert(r@ =~= s@);
        r
    }
}

pub open spec fn lines_view(v: Seq<Vec<u8>>) -> Seq<Seq<u8>> {
    v.map_values(|x: Vec<u8>| x@)
}

/// `str::lines`.
pub fn lines_in(s: &[u8]) -> (r: Vec<Vec<u8>>)
    ensures
        lines_view(r@) == lines_of(s@),
{
    let n = s.len();
    let nl: [u8; 1] = [10u8];
    assert(nl@ =~= seq![10u8]);
    let mut r: Vec<Vec<u8>> = Vec::new();
    let mut pos: usize = 0;
    assert(s@.subrange(0, n as int) =~= s@);
    while pos < n
        invariant
            n == s@.len(),
            pos <= n,
            nl@ == seq![10u8],
            lines_of(s@) == lines_view(r@) + lines_of(s@.subrange(pos as int, n as int)),
        decreases n - pos,
    {
        let rest = slice_copy(s, pos, n);
        let ghost before = lines_view(r@);
        proof {
            lemma_find_from_range(rest@, seq![10u8], 0);
        }
        match find_in(rest.as_slice(), &nl) {
            Some(p) => {
                let head = slice_copy(rest.as_slice(), 0, p);
                let line = strip_cr_copy(head.as_slice());
                r.push(line);
                proof {
                    assert(rest@.subrange(p + 1, rest@.len() as int) =~= s@.subrange(pos + p + 1, n as int));
                    assert(lines_view(r@) =~= before + seq![strip_cr(rest@.subrange(0, p as int))]);
                }
                pos = pos + p + 1;
            },
            None => {
                let line = slice_copy(rest.as_slice(), 0, rest.len());
                assert(line@ =~= rest@);
                r.push(line);
                proof {
                    assert(lines_view(r@) =~= before + seq![rest@]);
                    assert(s@.subrange(n as int, n as int) =~= Seq::<u8>::empty());
                }
                pos = n;
            },
        }
    }
    proof {
        assert(s@.subrange(n as int, n as int) =~= Seq::<u8>::empty());
        assert(lines_view(r@) + Seq::<Seq<u8>>::empty() =~= lines_view(r@));
    }
    r
}

/// On the UTF-8 encoding of a `str`, `is_boundary` is exactly vstd's character boundary: the
/// cuts that `str` slicing accepts.
pub proof fn law_boundary_is_char_boundary(s: Seq<u8>, i: int)
    requires
        vstd::utf8::valid_utf8(s),
        0 <= i <= s.len(),
    ensures
        is_boundary(s, i) == vstd::utf8::is_char_boundary(s, i),
{
    vstd::utf8::is_char_boundary_start_end_of_seq(s);
    if 0 < i < s.len() {
        vstd::utf8::is_char_boundary_iff_not_is_continuation_byte(s, i);
    }
}

/// `rfind` passes over positions where the pattern does not occur.
pub proof fn lemma_rfind_skip(s: Seq<u8>, pat: Seq<u8>, j: int, k: int)
    requires
        j <= k,
        forall|i: int| j < i <= k ==> !occurs_at(s, pat, i),
    ensures
        rfind_at_most(s, pat, k) == rfind_at_most(s, pat, j),
    decreases k - j,
{
    if j < k {
        lemma_rfind_skip(s, pat, j, k - 1);
    }
}

/// `find` passes over positions where the pattern does not occur.
pub proof fn lemma_find_skip(s: Seq<u8>, pat: Seq<u8>, j: int, k: int)
    requires
        0 <= j <= k,
        forall|i: int| j <= i < k ==> !occurs_at(s, pat, i),
    ensures
        find_from(s, pat, j) == find_from(s, pat, k),
    decreases k - j,
{
    if j < k {
        lemma_find_skip(s, pat, j + 1, k);
    }
}

/// `find` finds a pattern wherever it occurs at or after where it starts looking.
pub proof fn lemma_find_from_occurs(s: Seq<u8>, pat: Seq<u8>, from: int, i: int)
    requires
        0 <= from <= i,
        occurs_at(s, pat, i),
    ensures
        find_from(s, pat, from) is Some,
    decreases i - from,
{
    if !occurs_at(s, pat, from) {
        lemma_find_from_occurs(s, pat, from + 1, i);
    }
}

/// A text that holds `q2` holds whatever `q2` holds.
pub proof fn lemma_contains_transitive(s: Seq<u8>, q2: Seq<u8>, q1: Seq<u8>)
    requires
        contains(s, q2),
        contains(q2, q1),
    ensures
        contains(s, q1),
{
    lemma_find_from_range(s, q2, 0);
    lemma_find_from_range(q2, q1, 0);
    let i = find(s, q2)->0;
    let j = find(q2, q1)->0;
    assert forall|k: int| 0 <= k < q1.len() implies s[i + j + k] == q1[k] by {
        assert(s.subrange(i, i + q2.len())[j + k] == q2[j + k]);
        assert(q2.subrange(j, j + q1.len())[k] == q1[k]);
    }
    assert(s.subrange(i + j, i + j + q1.len()) =~= q1);
    lemma_find_from_occurs(s, q1, 0, i + j);
}

/// The first `n` of `s`, or all of it where it is no longer.
pub open spec fn capped<A>(s: Seq<A>, n: int) -> Seq<A> {
    if s.len() <= n { s } else { s.subrange(0, n) }
}

} // verus!
