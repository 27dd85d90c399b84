//! Byte-slice helpers used by the HTTP/1.1 request parser: substring search,
//! blank trimming, ASCII case-insensitive comparison and line splitting.
use vstd::prelude::*;

verus! {

// ── substring search ────────────────────────────────────────────────────────

/// `n` occurs in `h` starting at index `i`.
pub open spec fn is_match_at(h: Seq<u8>, n: Seq<u8>, i: int) -> bool {
    &&& 0 <= i
    &&& i + n.len() <= h.len()
    &&& h.subrange(i, i + n.len()) == n
}

/// `i` is the leftmost occurrence of the non-empty needle `n` in `h`.
pub open spec fn is_first_match(h: Seq<u8>, n: Seq<u8>, i: int) -> bool {
    &&& n.len() > 0
    &&& is_match_at(h, n, i)
    &&& forall|j: int| 0 <= j < i ==> !#[trigger] is_match_at(h, n, j)
}

/// Index of the leftmost occurrence of the non-empty needle `n` in `h`.
pub open spec fn spec_find(h: Seq<u8>, n: Seq<u8>) -> Option<int> {
    if exists|i: int| is_first_match(h, n, i) {
        Some(choose|i: int| is_first_match(h, n, i))
    } else {
        None
    }
}

pub proof fn lemma_find_is(h: Seq<u8>, n: Seq<u8>, i: int)
    requires
        is_first_match(h, n, i),
    ensures
        spec_find(h, n) == Some(i),
{
    let k = choose|k: int| is_first_match(h, n, k);
    assert(is_first_match(h, n, k));
    if k < i {
        assert(!is_match_at(h, n, k));
    } else if i < k {
        assert(!is_match_at(h, n, i));
    }
}

pub proof fn lemma_find_none(h: Seq<u8>, n: Seq<u8>)
    requires
        n.len() == 0 || forall|j: int| !#[trigger] is_match_at(h, n, j),
    ensures
        spec_find(h, n) is None,
{
    if exists|i: int| is_first_match(h, n, i) {
        let k = choose|k: int| is_first_match(h, n, k);
        assert(is_match_at(h, n, k));
    }
}

pub proof fn lemma_find_some(h: Seq<u8>, n: Seq<u8>)
    requires
        spec_find(h, n) is Some,
    ensures
        is_first_match(h, n, spec_find(h, n)->0),
        0 <= spec_find(h, n)->0 <= h.len() - n.len(),
{
}

/// Whether `h[start..start + n.len()]` equals `n`.
fn window_eq(h: &[u8], start: usize, n: &[u8]) -> (r: bool)
    requires
        start + n@.len() <= h@.len(),
    ensures
        r == is_match_at(h@, n@, start as int),
{
    let mut k: usize = 0;
    let hl = h.len();
    while k < n.len()
        invariant
            hl == h@.len(),
            start + n@.len() <= h@.len(),
            k <= n@.len(),
            forall|j: int| 0 <= j < k ==> h@[start + j] == n@[j],
        decreases n@.len() - k,
    {
        if h[start + k] != n[k] {
            assert(h@.subrange(start as int, start + n@.len())[k as int] != n@[k as int]);
            return false;
        }
        k = k + 1;
    }
    assert(h@.subrange(start as int, start + n@.len()) =~= n@);
    true
}

/// Position of the first occurrence of `n` in `h`; `None` when `n` is empty
/// or does not occur.
pub fn find(h: &[u8], n: &[u8]) -> (r: Option<usize>)
    ensures
        r is Some <==> spec_find(h@, n@) is Some,
        r matches Some(i) ==> spec_find(h@, n@) == Some(i as int),
{
    if n.len() == 0 || h.len() < n.len() {
        proof {
            if n@.len() > 0 {
                assert forall|j: int| !#[trigger] is_match_at(h@, n@, j) by {}
            }
            lemma_find_none(h@, n@);
        }
        return None;
    }
    let hl = h.len();
    let last = hl - n.len();
    let mut i: usize = 0;
    while i <= last
        invariant
            n@.len() > 0,
            hl == h@.len(),
            last == h@.len() - n@.len(),
            i <= last + 1,
            forall|j: int| 0 <= j < i ==> !#[trigger] is_match_at(h@, n@, j),
        decreases last + 1 - i,
    {
        if window_eq(h, i, n) {
            proof {
                lemma_find_is(h@, n@, i as int);
            }
            return Some(i);
        }
        i = i + 1;
    }
    proof {
        assert forall|j: int| !#[trigger] is_match_at(h@, n@, j) by {
            if 0 <= j < i {
            }
        }
        lemma_find_none(h@, n@);
    }
    None
}

/// Byte-wise equality.
pub fn bytes_eq(a: &[u8], b: &[u8]) -> (r: bool)
    ensures
        r == (a@ == b@),
{
    if a.len() != b.len() {
        return false;
    }
    let mut i: usize = 0;
    while i < a.len()
        invariant
            a@.len() == b@.len(),
            i <= a@.len(),
            forall|j: int| 0 <= j < i ==> a@[j] == b@[j],
        decreases a@.len() - i,
    {
        if a[i] != b[i] {
            return false;
        }
        i = i + 1;
    }
    assert(a@ =~= b@);
    true
}

// ── trimming ────────────────────────────────────────────────────────────────

/// Space or horizontal tab.
pub open spec fn is_blank(c: u8) -> bool {
    c == 32 || c == 9
}

/// `s` without its leading blanks.
pub open spec fn spec_trim_start(s: Seq<u8>) -> Seq<u8>
    decreases s.len(),
{
    if s.len() > 0 && is_blank(s[0]) {
        spec_trim_start(s.drop_first())
    } else {
        s
    }
}

/// `s` without its trailing blanks.
pub open spec fn spec_trim_end(s: Seq<u8>) -> Seq<u8>
    decreases s.len(),
{
    if s.len() > 0 && is_blank(s.last()) {
        spec_trim_end(s.drop_last())
    } else {
        s
    }
}

/// `s` without leading and trailing spaces and tabs.
pub open spec fn spec_trim(s: Seq<u8>) -> Seq<u8> {
    spec_trim_end(spec_trim_start(s))
}

/// Strips leading and trailing spaces and tabs.
pub fn trim(b: &[u8]) -> (r: &[u8])
    ensures
        r@ == spec_trim(b@),
{
    let mut lo: usize = 0;
    assert(b@.subrange(0, b@.len() as int) =~= b@);
    while lo < b.len() && (b[lo] == 32u8 || b[lo] == 9u8)
        invariant
            lo <= b@.len(),
            spec_trim_start(b@.subrange(lo as int, b@.len() as int)) == spec_trim_start(b@),
        decreases b@.len() - lo,
    {
        assert(b@.subrange(lo as int, b@.len() as int).drop_first() =~= b@.subrange(
            lo + 1,
            b@.len() as int,
        ));
        lo = lo + 1;
    }
    let ghost front = b@.subrange(lo as int, b@.len() as int);
    assert(spec_trim_start(front) == front);
    let mut hi: usize = b.len();
    while hi > lo && (b[hi - 1] == 32u8 || b[hi - 1] == 9u8)
        invariant
            lo <= hi <= b@.len(),
            front == b@.subrange(lo as int, b@.len() as int),
            spec_trim_end(b@.subrange(lo as int, hi as int)) == spec_trim_end(front),
        decreases hi,
    {
        assert(b@.subrange(lo as int, hi as int).drop_last() =~= b@.subrange(
            lo as int,
            hi - 1,
        ));
        hi = hi - 1;
    }
    let r = &b[lo..hi];
    assert(r@ =~= b@.subrange(lo as int, hi as int));
    r
}

// ── ASCII case-insensitive comparison ───────────────────────────────────────

/// ASCII lower-casing of one byte.
pub open spec fn lower(c: u8) -> u8 {
    if 65 <= c <= 90 {
        (c + 32) as u8
    } else {
        c
    }
}

/// `a` and `b` are equal up to ASCII case.
pub open spec fn spec_ci_eq(a: Seq<u8>, b: Seq<u8>) -> bool {
    a.len() == b.len() && forall|i: int| 0 <= i < a.len() ==> lower(#[trigger] a[i]) == lower(b[i])
}

/// Some window of `h` equals the non-empty `n` up to ASCII case.
pub open spec fn spec_ci_contains(h: Seq<u8>, n: Seq<u8>) -> bool {
    &&& n.len() > 0
    &&& h.len() >= n.len()
    &&& exists|i: int|
        0 <= i <= h.len() - n.len() && #[trigger] spec_ci_eq(h.subrange(i, i + n.len()), n)
}

fn lower_byte(c: u8) -> (r: u8)
    ensures
        r == lower(c),
{
    if 65 <= c && c <= 90 {
        c + 32
    } else {
        c
    }
}

/// Equality up to ASCII case.
pub fn ci_eq(a: &[u8], b: &[u8]) -> (r: bool)
    ensures
        r == spec_ci_eq(a@, b@),
{
    if a.len() != b.len() {
        return false;
    }
    let mut i: usize = 0;
    while i < a.len()
        invariant
            a@.len() == b@.len(),
            i <= a@.len(),
            forall|j: int| 0 <= j < i ==> lower(#[trigger] a@[j]) == lower(b@[j]),
        decreases a@.len() - i,
    {
        if lower_byte(a[i]) != lower_byte(b[i]) {
            return false;
        }
        i = i + 1;
    }
    true
}

/// Whether `h` contains `n` up to ASCII case; false for an empty `n`.
pub fn ci_contains(h: &[u8], n: &[u8]) -> (r: bool)
    ensures
        r == spec_ci_contains(h@, n@),
{
    if n.len() == 0 || h.len() < n.len() {
        return false;
    }
    let hl = h.len();
    let last = hl - n.len();
    let mut i: usize = 0;
    while i <= last
        invariant
            n@.len() > 0,
            hl == h@.len(),
            last == h@.len() - n@.len(),
            i <= last + 1,
            forall|j: int|
                0 <= j < i ==> !#[trigger] spec_ci_eq(h@.subrange(j, j + n@.len()), n@),
        decreases last + 1 - i,
    {
        let w = &h[i..i + n.len()];
        assert(w@ =~= h@.subrange(i as int, i + n@.len()));
        if ci_eq(w, n) {
            return true;
        }
        i = i + 1;
    }
    false
}

// ── splitting ───────────────────────────────────────────────────────────────

/// The pieces of `s` between occurrences of `sep`: with k separators there
/// are k + 1 pieces, empty ones included.
pub open spec fn spec_split(s: Seq<u8>, sep: u8) -> Seq<Seq<u8>>
    decreases s.len(),
{
    if s.len() == 0 {
        seq![Seq::<u8>::empty()]
    } else {
        let prev = spec_split(s.drop_last(), sep);
        if s.last() == sep {
            prev.push(Seq::<u8>::empty())
        } else {
            prev.update(prev.len() - 1, prev.last().push(s.last()))
        }
    }
}

pub proof fn lemma_split_nonempty(s: Seq<u8>, sep: u8)
    ensures
        spec_split(s, sep).len() >= 1,
    decreases s.len(),
{
    if s.len() > 0 {
        lemma_split_nonempty(s.drop_last(), sep);
    }
}

/// `l` without one trailing carriage return.
pub open spec fn strip_cr(l: Seq<u8>) -> Seq<u8> {
    if l.len() > 0 && l.last() == 13 {
        l.drop_last()
    } else {
        l
    }
}

/// The lines of `b` split at LF, each without a trailing CR.
pub open spec fn spec_lines(b: Seq<u8>) -> Seq<Seq<u8>> {
    spec_split(b, 10).map_values(|l: Seq<u8>| strip_cr(l))
}

/// The views of a vector of slices.
pub open spec fn views<'a>(v: Seq<&'a [u8]>) -> Seq<Seq<u8>> {
    v.map_values(|x: &'a [u8]| x@)
}

/// Splits `b` at every `sep`, as `<[u8]>::split` does.
pub fn split_bytes<'a>(b: &'a [u8], sep: u8) -> (r: Vec<&'a [u8]>)
    ensures
        views(r@) == spec_split(b@, sep),
{
    let mut r: Vec<&'a [u8]> = Vec::new();
    let mut start: usize = 0;
    let mut i: usize = 0;
    assert(b@.take(0) =~= Seq::<u8>::empty());
    assert(views(r@).push(b@.subrange(0, 0)) =~= seq![Seq::<u8>::empty()]);
    while i < b.len()
        invariant
            start <= i <= b@.len(),
            spec_split(b@.take(i as int), sep) == views(r@).push(
                b@.subrange(start as int, i as int),
            ),
        decreases b@.len() - i,
    {
        let ghost before = r@;
        let ghost cur = b@.subrange(start as int, i as int);
        assert(b@.take(i + 1).drop_last() =~= b@.take(i as int));
        assert(b@.take(i + 1).last() == b@[i as int]);
        if b[i] == sep {
            let piece = &b[start..i];
            r.push(piece);
            assert(views(r@) =~= views(before).push(cur));
            start = i + 1;
            assert(b@.subrange(start as int, i + 1) =~= Seq::<u8>::empty());
        } else {
            assert(b@.subrange(start as int, i + 1) =~= cur.push(b@[i as int]));
            assert(views(before).push(cur).update(views(before).len() as int, cur.push(b@[i as int]))
                =~= views(before).push(cur.push(b@[i as int])));
        }
        i = i + 1;
    }
    let ghost before = r@;
    let piece = &b[start..b.len()];
    r.push(piece);
    assert(b@.take(b@.len() as int) =~= b@);
    assert(piece@ =~= b@.subrange(start as int, b@.len() as int));
    assert(views(r@) =~= views(before).push(piece@));
    r
}

/// The lines of `b`, split at LF, each without its trailing CR.
pub fn lines_crlf<'a>(b: &'a [u8]) -> (r: Vec<&'a [u8]>)
    ensures
        views(r@) == spec_lines(b@),
{
    let pieces = split_bytes(b, 10u8);
    let mut r: Vec<&'a [u8]> = Vec::new();
    let mut i: usize = 0;
    while i < pieces.len()
        invariant
            i <= pieces@.len(),
            views(pieces@) == spec_split(b@, 10),
            views(r@) == views(pieces@).take(i as int).map_values(|l: Seq<u8>| strip_cr(l)),
        decreases pieces@.len() - i,
    {
        let l = pieces[i];
        let ghost before = r@;
        let ghost lv = views(pieces@)[i as int];
        assert(l@ == lv);
        if l.len() > 0 && l[l.len() - 1] == 13u8 {
            let t = &l[0..l.len() - 1];
            assert(t@ =~= l@.drop_last());
            r.push(t);
        } else {
            r.push(l);
        }
        assert(views(r@) =~= views(before).push(strip_cr(lv)));
        assert(views(pieces@).take(i + 1) =~= views(pieces@).take(i as int).push(lv));
        i = i + 1;
    }
    assert(views(pieces@).take(pieces@.len() as int) =~= views(pieces@));
    r
}

} // verus!
