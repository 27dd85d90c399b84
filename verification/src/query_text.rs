//! The text handed to `querystrong`: a query string whose oversized list
//! indices are written as `0`.
//!
//! `querystrong` numbers the next entry of a sparse list `k + 1` after its
//! last key `k`, which overflows once a list holds the key `usize::MAX`.
//! Each `&`-separated pair adds at most one key above the largest key
//! present, and a query string of `n` bytes has at most `n + 1` pairs, so
//! no list reaches `usize::MAX` when every numeric index in a key is at most
//! `usize::MAX - n - 1` (`index_limit`). Indices above that bound are
//! rewritten as `0`. That does not change what the parsed query holds at
//! its top level whenever parsing the original text does not overflow: a
//! numeric index only ever makes the value it indexes a list, whatever the
//! number, and a list never turns back into a string.
use vstd::prelude::*;
use vstd::string::*;
use vstd::utf8::*;

use crate::numbers::{all_digits, digits_value, is_digit, parse_std_usize, spec_std_int, spec_std_parse};

verus! {

/// `[`, `]`, `&` or `=`: the bytes that end a segment of a key path.
pub open spec fn is_path_delim(c: u8) -> bool {
    c == 91 || c == 93 || c == 38 || c == 61
}

/// The end of the run of non-delimiter bytes that starts at `k`.
pub open spec fn seg_end(b: Seq<u8>, k: int) -> int
    decreases b.len() - k,
{
    if 0 <= k < b.len() && !is_path_delim(b[k]) {
        seg_end(b, k + 1)
    } else {
        k
    }
}

/// The largest list index left as it is in a query string of bytes `b`.
pub open spec fn index_limit(b: Seq<u8>) -> int {
    if b.len() + 1 > usize::MAX {
        0
    } else {
        usize::MAX - (b.len() + 1)
    }
}

/// `seg` reads as a `usize` above `limit`.
pub open spec fn too_big(seg: Seq<u8>, limit: int) -> bool {
    match spec_std_parse(seg, false, 0, usize::MAX as int) {
        Some(n) => n > limit,
        None => false,
    }
}

/// Whether the byte after `c` lies in the value part of its pair, given
/// whether `c` does: `&` starts a new key, `=` starts the value.
pub open spec fn next_in_value(v: bool, c: u8) -> bool {
    if c == 38 {
        false
    } else if c == 61 {
        true
    } else {
        v
    }
}

/// The bytes from `i` on with every index above `limit` that follows a `[`
/// or `]` in a key (`v` says whether `i` lies in a value) written as `0`.
pub open spec fn tame_from(b: Seq<u8>, i: int, v: bool, limit: int) -> Seq<u8>
    decreases b.len() - i,
{
    if i < 0 || i >= b.len() {
        Seq::empty()
    } else if !v && (b[i] == 91 || b[i] == 93) && too_big(
        b.subrange(i + 1, seg_end(b, i + 1)),
        limit,
    ) {
        proof {
            lemma_seg_end_bound(b, i + 1);
        }
        seq![b[i], 48u8] + tame_from(b, seg_end(b, i + 1), v, limit)
    } else {
        seq![b[i]] + tame_from(b, i + 1, next_in_value(v, b[i]), limit)
    }
}

/// The query string `b` with its oversized list indices written as `0`.
pub open spec fn tame(b: Seq<u8>) -> Seq<u8> {
    tame_from(b, 0, false, index_limit(b))
}

/// The text that is parsed for the query string `q`.
pub open spec fn query_text_of(q: Seq<char>) -> Seq<char> {
    decode_utf8(tame(encode_utf8(q)))
}

pub proof fn lemma_seg_end_bound(b: Seq<u8>, k: int)
    ensures
        0 <= k <= b.len() ==> k <= seg_end(b, k) <= b.len(),
        k > b.len() ==> seg_end(b, k) == k,
    decreases b.len() - k,
{
    if 0 <= k < b.len() && !is_path_delim(b[k]) {
        lemma_seg_end_bound(b, k + 1);
    }
}

/// `m` is where the run from `k` ends when the bytes before it are no
/// delimiters and it is a delimiter or the end.
proof fn lemma_seg_end_is(s: Seq<u8>, k: int, m: int)
    requires
        0 <= k <= m <= s.len(),
        forall|t: int| k <= t < m ==> !is_path_delim(#[trigger] s[t]),
        m == s.len() || is_path_delim(s[m]),
    ensures
        seg_end(s, k) == m,
    decreases m - k,
{
    if k < m {
        lemma_seg_end_is(s, k + 1, m);
    }
}

proof fn lemma_seg_end_facts(b: Seq<u8>, k: int)
    requires
        0 <= k <= b.len(),
    ensures
        forall|t: int| k <= t < seg_end(b, k) ==> !is_path_delim(#[trigger] b[t]),
        seg_end(b, k) == b.len() || is_path_delim(b[seg_end(b, k)]),
    decreases b.len() - k,
{
    if k < b.len() && !is_path_delim(b[k]) {
        lemma_seg_end_facts(b, k + 1);
    }
}

/// The output from `i` begins with `b[i]`.
proof fn lemma_tame_first(b: Seq<u8>, i: int, v: bool, l: int)
    requires
        0 <= i < b.len(),
    ensures
        tame_from(b, i, v, l).len() > 0,
        tame_from(b, i, v, l)[0] == b[i],
{
}

/// The output from `i` is no longer than the input from `i`.
proof fn lemma_tame_len(b: Seq<u8>, i: int, v: bool, l: int)
    requires
        0 <= i <= b.len(),
    ensures
        tame_from(b, i, v, l).len() <= b.len() - i,
    decreases b.len() - i,
{
    if i < b.len() {
        let j = seg_end(b, i + 1);
        lemma_seg_end_bound(b, i + 1);
        if !v && (b[i] == 91 || b[i] == 93) && too_big(b.subrange(i + 1, j), l) {
            assert(j > i + 1);
            lemma_tame_len(b, j, v, l);
        } else {
            lemma_tame_len(b, i + 1, next_in_value(v, b[i]), l);
        }
    }
}

/// A run of non-delimiters is copied as it is.
proof fn lemma_tame_run(b: Seq<u8>, k: int, v: bool, l: int)
    requires
        0 <= k <= b.len(),
    ensures
        tame_from(b, k, v, l) == b.subrange(k, seg_end(b, k)) + tame_from(b, seg_end(b, k), v, l),
    decreases b.len() - k,
{
    if k < b.len() && !is_path_delim(b[k]) {
        lemma_tame_run(b, k + 1, v, l);
        lemma_seg_end_bound(b, k + 1);
        let e = seg_end(b, k);
        assert(seq![b[k]] + b.subrange(k + 1, e) =~= b.subrange(k, e));
        assert(seq![b[k]] + (b.subrange(k + 1, e) + tame_from(b, e, v, l)) =~= b.subrange(k, e)
            + tame_from(b, e, v, l));
    } else {
        assert(b.subrange(k, k) + tame_from(b, k, v, l) =~= tame_from(b, k, v, l));
    }
}

/// The scan looks only forward: a prefix in front changes nothing after it.
proof fn lemma_seg_end_shift(x: Seq<u8>, y: Seq<u8>, k: int)
    requires
        0 <= k <= y.len(),
    ensures
        seg_end(x + y, x.len() + k) == x.len() + seg_end(y, k),
    decreases y.len() - k,
{
    if k < y.len() && !is_path_delim(y[k]) {
        lemma_seg_end_shift(x, y, k + 1);
    }
}

proof fn lemma_tame_shift(x: Seq<u8>, y: Seq<u8>, k: int, v: bool, l: int)
    requires
        0 <= k <= y.len(),
    ensures
        tame_from(x + y, x.len() + k, v, l) == tame_from(y, k, v, l),
    decreases y.len() - k,
{
    let s = x + y;
    let i = x.len() + k;
    if k < y.len() {
        lemma_seg_end_shift(x, y, k + 1);
        lemma_seg_end_bound(y, k + 1);
        let j = seg_end(y, k + 1);
        assert(s.subrange(i + 1, x.len() + j) =~= y.subrange(k + 1, j));
        assert(s[i] == y[k]);
        if !v && (y[k] == 91 || y[k] == 93) && too_big(y.subrange(k + 1, j), l) {
            lemma_tame_shift(x, y, j, v, l);
        } else {
            lemma_tame_shift(x, y, k + 1, next_in_value(v, y[k]), l);
        }
    }
}

/// Rewriting twice rewrites nothing more, even with a larger limit.
proof fn lemma_tame_idempotent(b: Seq<u8>, i: int, v: bool, l: int, l2: int)
    requires
        0 <= i <= b.len(),
        0 <= l <= l2,
    ensures
        tame_from(tame_from(b, i, v, l), 0, v, l2) == tame_from(b, i, v, l),
    decreases b.len() - i,
{
    let out = tame_from(b, i, v, l);
    if i < b.len() {
        let c = b[i];
        let j = seg_end(b, i + 1);
        lemma_seg_end_bound(b, i + 1);
        lemma_seg_end_facts(b, i + 1);
        if !v && (c == 91 || c == 93) && too_big(b.subrange(i + 1, j), l) {
            let r = tame_from(b, j, v, l);
            assert(out == seq![c, 48u8] + r);
            // The rewritten index is one `0`, followed by a delimiter or the end.
            if j < b.len() {
                lemma_tame_first(b, j, v, l);
            }
            assert forall|t: int| 1 <= t < 2 implies !is_path_delim(#[trigger] out[t]) by {}
            lemma_seg_end_is(out, 1, 2);
            assert(out.subrange(1, 2) =~= seq![48u8]);
            lemma_zero_reads_zero();
            assert(!too_big(out.subrange(1, 2), l2));
            lemma_tame_shift(seq![c, 48u8], r, 0, v, l2);
            assert(out =~= seq![c, 48u8] + r);
            lemma_tame_idempotent(b, j, v, l, l2);
            // out = [c] + ([48] + r), and the scan copies `c` then `0`.
            assert(tame_from(out, 2, v, l2) == r) by {
                assert(seq![c, 48u8].len() == 2);
            }
            assert(tame_from(out, 1, v, l2) == seq![48u8] + tame_from(out, 2, v, l2));
            assert(tame_from(out, 0, v, l2) =~= seq![c] + (seq![48u8] + r));
        } else {
            let v2 = next_in_value(v, c);
            let r1 = tame_from(b, i + 1, v2, l);
            assert(out == seq![c] + r1);
            lemma_tame_shift(seq![c], r1, 0, v2, l2);
            assert(out =~= seq![c] + r1);
            lemma_tame_idempotent(b, i + 1, v2, l, l2);
            if !v && (c == 91 || c == 93) {
                // The index after the bracket is copied as it is, and stays
                // within the limit.
                assert(v2 == v);
                lemma_tame_run(b, i + 1, v, l);
                let rest = tame_from(b, j, v, l);
                assert(r1 == b.subrange(i + 1, j) + rest);
                if j < b.len() {
                    lemma_tame_first(b, j, v, l);
                }
                let m = 1 + (j - (i + 1));
                assert forall|t: int| 1 <= t < m implies !is_path_delim(#[trigger] out[t]) by {
                    assert(out[t] == b[i + t]);
                }
                assert(m == out.len() || is_path_delim(out[m])) by {
                    if m < out.len() {
                        assert(out[m] == rest[0]);
                    }
                }
                lemma_seg_end_is(out, 1, m);
                assert(out.subrange(1, m) =~= b.subrange(i + 1, j));
                assert(!too_big(out.subrange(1, m), l2));
            }
        }
    }
}

/// `encode_utf8` of a concatenation.
pub proof fn lemma_encode_concat(a: Seq<char>, c: Seq<char>)
    ensures
        encode_utf8(a + c) == encode_utf8(a) + encode_utf8(c),
    decreases a.len(),
{
    if a.len() > 0 {
        assert((a + c).drop_first() =~= a.drop_first() + c);
        lemma_encode_concat(a.drop_first(), c);
        assert((a + c)[0] == a[0]);
        assert(encode_scalar(a[0] as u32) + (encode_utf8(a.drop_first()) + encode_utf8(c))
            =~= (encode_scalar(a[0] as u32) + encode_utf8(a.drop_first())) + encode_utf8(c));
    } else {
        assert(a + c =~= c);
    }
}

/// `q[from..to]` for byte offsets that fall on ASCII bytes (or the end).
fn str_range<'a>(q: &'a str, from: usize, to: usize) -> (r: &'a str)
    requires
        from <= to <= encode_utf8(q@).len(),
        from == 0 || from == encode_utf8(q@).len() || encode_utf8(q@)[from as int] < 128,
        to == encode_utf8(q@).len() || encode_utf8(q@)[to as int] < 128,
    ensures
        encode_utf8(r@) == encode_utf8(q@).subrange(from as int, to as int),
{
    let ghost b = encode_utf8(q@);
    proof {
        encode_utf8_valid_utf8(q@);
        is_char_boundary_start_end_of_seq(b);
        if 0 < from < b.len() {
            is_char_boundary_iff_is_leading_byte(b, from as int);
        }
    }
    let (_head, tail) = q.split_at(from);
    let ghost tb = encode_utf8(tail@);
    proof {
        assert(tb =~= b.subrange(from as int, b.len() as int));
        encode_utf8_valid_utf8(tail@);
        is_char_boundary_start_end_of_seq(tb);
        if to < b.len() {
            assert(tb[to - from] == b[to as int]);
            is_char_boundary_iff_is_leading_byte(tb, to - from);
        }
    }
    let (piece, _rest) = tail.split_at(to - from);
    proof {
        assert(encode_utf8(piece@) =~= tb.subrange(0, to - from));
        assert(tb.subrange(0, to - from) =~= b.subrange(from as int, to as int));
    }
    piece
}

/// A parsed `usize` starts with `+` or a digit.
proof fn lemma_parsed_starts_ascii(s: Seq<u8>)
    requires
        spec_std_parse(s, false, 0, usize::MAX as int) is Some,
    ensures
        s.len() > 0,
        s[0] < 128,
{
    if s[0] != 43 {
        assert(all_digits(s));
        assert(crate::numbers::is_digit(s[0]));
    }
}

/// The index `0` reads as 0.
proof fn lemma_zero_reads_zero()
    ensures
        spec_std_int(seq![48u8], false) == Some(0int),
{
    let z = seq![48u8];
    assert(is_digit(z[0]));
    assert(all_digits(z));
    assert(z.drop_last() =~= Seq::<u8>::empty());
    assert(digits_value(z.drop_last()) == 0);
    assert(digits_value(z) == 0);
}

/// The bytes of the string `"0"`.
proof fn lemma_encode_zero()
    ensures
        encode_utf8(seq!['0']) == seq![48u8],
{
    let z = seq!['0'];
    assert(is_ascii_chars(z));
    is_ascii_chars_encode_utf8(z);
    assert(encode_utf8(z) =~= seq![48u8]);
}

/// The end of the run of non-delimiters from `k`.
fn run_end(b: &[u8], k: usize) -> (j: usize)
    requires
        k <= b@.len(),
    ensures
        j as int == seg_end(b@, k as int),
        k <= j <= b@.len(),
{
    let n = b.len();
    let mut j = k;
    while j < n && !(b[j] == 91u8 || b[j] == 93u8 || b[j] == 38u8 || b[j] == 61u8)
        invariant
            n == b@.len(),
            k <= j <= n,
            forall|t: int| k <= t < j ==> !is_path_delim(#[trigger] b@[t]),
        decreases n - j,
    {
        j = j + 1;
    }
    proof {
        lemma_seg_end_is(b@, k as int, j as int);
    }
    j
}

/// Whether the byte at `i` is a bracket in a key followed by an index above
/// `lim`, and where that index ends.
fn oversized_index_at(b: &[u8], i: usize, v: bool, lim: usize) -> (r: (bool, usize))
    requires
        i < b@.len(),
    ensures
        r.0 == (!v && (b@[i as int] == 91 || b@[i as int] == 93) && too_big(
            b@.subrange(i + 1, seg_end(b@, i + 1)),
            lim as int,
        )),
        r.1 as int == seg_end(b@, i + 1),
        i < r.1 <= b@.len(),
        r.1 == b@.len() || b@[r.1 as int] < 128,
        r.0 ==> i + 1 < r.1 && b@[i + 1] < 128,
{
    let n = b.len();
    let j = run_end(b, i + 1);
    proof {
        lemma_seg_end_facts(b@, i + 1);
    }
    let c = b[i];
    if !v && (c == 91u8 || c == 93u8) {
        let seg = &b[i + 1..j];
        assert(seg@ =~= b@.subrange(i + 1, j as int));
        let big = match parse_std_usize(seg) {
            Some(x) => x > lim,
            None => false,
        };
        if big {
            proof {
                lemma_parsed_starts_ascii(seg@);
                assert(b@[i + 1] == seg@[0]);
            }
        }
        (big, j)
    } else {
        (false, j)
    }
}

/// The invariant of `tame_query` after a rewritten index.
proof fn lemma_step_rewrite(
    bs: Seq<u8>,
    o: Seq<u8>,
    start: int,
    i: int,
    j: int,
    t: Seq<u8>,
    piece: Seq<u8>,
)
    requires
        0 <= start <= i < j <= bs.len(),
        piece == bs.subrange(start, i + 1),
    ensures
        o + bs.subrange(start, i) + (seq![bs[i], 48u8] + t) == (o + piece + seq![48u8])
            + bs.subrange(j, j) + t,
{
    assert(bs.subrange(start, i) + seq![bs[i]] =~= bs.subrange(start, i + 1));
    assert(o + bs.subrange(start, i) + (seq![bs[i], 48u8] + t) =~= (o + piece + seq![48u8])
        + bs.subrange(j, j) + t);
}

/// The invariant of `tame_query` after a copied byte.
proof fn lemma_step_copy(bs: Seq<u8>, o: Seq<u8>, start: int, i: int, t: Seq<u8>)
    requires
        0 <= start <= i < bs.len(),
    ensures
        o + bs.subrange(start, i) + (seq![bs[i]] + t) == o + bs.subrange(start, i + 1) + t,
{
    assert(o + bs.subrange(start, i) + (seq![bs[i]] + t) =~= o + bs.subrange(start, i + 1) + t);
}

/// The query string `q` with its oversized list indices written as `0`
/// (see the module's doc); `None` when there is none, so that `q` itself is
/// parsed.
pub fn tame_query(q: &str) -> (r: Option<String>)
    ensures
        match r {
            None => tame(encode_utf8(q@)) == encode_utf8(q@),
            Some(s) => encode_utf8(s@) == tame(encode_utf8(q@)),
        },
{
    let b = q.as_bytes();
    let n = b.len();
    let ghost bs = b@;
    let lim: usize = if n == usize::MAX {
        0
    } else {
        usize::MAX - (n + 1)
    };
    let mut out = String::new();
    let mut i: usize = 0;
    let mut start: usize = 0;
    let mut v = false;
    let mut changed = false;
    proof {
        assert(encode_utf8(Seq::<char>::empty()) =~= Seq::<u8>::empty());
        assert(bs.subrange(0, 0) =~= Seq::<u8>::empty());
        assert(tame(bs) =~= encode_utf8(out@) + bs.subrange(0, 0) + tame_from(bs, 0, false, lim as int));
    }
    while i < n
        invariant
            bs == b@,
            bs == encode_utf8(q@),
            n == bs.len(),
            lim as int == index_limit(bs),
            start <= i <= n,
            start == 0 || start == n || bs[start as int] < 128,
            tame(bs) == encode_utf8(out@) + bs.subrange(start as int, i as int) + tame_from(
                bs,
                i as int,
                v,
                lim as int,
            ),
            !changed ==> start == 0 && out@ == Seq::<char>::empty(),
        decreases n - i,
    {
        let c = b[i];
        let (big, j) = oversized_index_at(b, i, v, lim);
        let ghost t1 = tame_from(bs, j as int, v, lim as int);
        let ghost t2 = tame_from(bs, i + 1, next_in_value(v, c), lim as int);
        if big {
            let ghost ov = out@;
            let piece = str_range(q, start, i + 1);
            out.append(piece);
            let ghost o1 = out@;
            out.append("0");
            proof {
                reveal_strlit("0");
                assert("0"@ =~= seq!['0']);
                lemma_encode_zero();
                lemma_encode_concat(ov, piece@);
                lemma_encode_concat(o1, "0"@);
                lemma_step_rewrite(
                    bs,
                    encode_utf8(ov),
                    start as int,
                    i as int,
                    j as int,
                    t1,
                    encode_utf8(piece@),
                );
            }
            start = j;
            i = j;
            changed = true;
        } else {
            proof {
                lemma_step_copy(bs, encode_utf8(out@), start as int, i as int, t2);
            }
            if c == 38u8 {
                v = false;
            } else if c == 61u8 {
                v = true;
            }
            i = i + 1;
        }
    }
    if !changed {
        proof {
            assert(tame_from(bs, n as int, v, lim as int) =~= Seq::<u8>::empty());
            assert(tame(bs) =~= bs);
        }
        return None;
    }
    let ghost o2 = out@;
    let piece = str_range(q, start, n);
    out.append(piece);
    proof {
        lemma_encode_concat(o2, piece@);
        assert(tame_from(bs, n as int, v, lim as int) =~= Seq::<u8>::empty());
        assert(tame(bs) =~= encode_utf8(out@));
    }
    Some(out)
}

/// The text to parse for the query string `q`, given what `tame_query(q)`
/// gave: the rewritten string, or `q` itself.
pub fn query_text<'a>(q: &'a str, tamed: &'a Option<String>) -> (t: &'a str)
    requires
        match tamed {
            None => tame(encode_utf8(q@)) == encode_utf8(q@),
            Some(s) => encode_utf8(s@) == tame(encode_utf8(q@)),
        },
    ensures
        t@ == query_text_of(q@),
        tame(encode_utf8(t@)) == encode_utf8(t@),
{
    let ghost b = encode_utf8(q@);
    match tamed {
        Some(s) => {
            let t = s.as_str();
            proof {
                lemma_tame_len(b, 0, false, index_limit(b));
                lemma_tame_idempotent(b, 0, false, index_limit(b), index_limit(tame(b)));
                encode_utf8_decode_utf8(t@);
            }
            t
        },
        None => {
            proof {
                encode_utf8_decode_utf8(q@);
            }
            q
        },
    }
}

} // verus!
