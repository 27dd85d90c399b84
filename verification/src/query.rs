//! Query strings, read through the `querystrong` crate, and the integers
//! found in them.
use vstd::prelude::*;
use vstd::utf8::encode_utf8;

use querystrong::QueryStrong;

use crate::numbers::{parse_std_i64, spec_std_parse, wrap_i64};
use crate::query_text::{query_text, query_text_of, tame, tame_query};

verus! {

#[verifier::external_type_specification]
#[verifier::external_body]
pub struct ExQueryStrong<'a>(QueryStrong<'a>);

/// What a parsed query string holds at its top level, in the order its map
/// iterates (ascending key order): each key with its string value, or with
/// `None` when the value there is not a plain string (a nested map, a list,
/// or a key given without `=`).
pub uninterp spec fn query_entries(qs: QueryStrong<'_>) -> Seq<(Seq<char>, Option<Seq<char>>)>;

/// The top-level entries that `QueryStrong::parse` finds in a query string
/// (percent-decoding, bracket nesting and conflicts handled as that crate
/// does).
pub uninterp spec fn parsed_query(q: Seq<char>) -> Seq<(Seq<char>, Option<Seq<char>>)>;

/// The keys of `entries` are pairwise distinct.
pub open spec fn distinct_keys(entries: Seq<(Seq<char>, Option<Seq<char>>)>) -> bool {
    forall|i: int, j: int|
        0 <= i < j < entries.len() ==> (#[trigger] entries[i]).0 != (#[trigger] entries[j]).0
}

/// A key made of lowercase ASCII letters: `querystrong` reads it as one
/// plain top-level key, with nothing to decode.
pub open spec fn plain_query_key(k: Seq<char>) -> bool {
    k.len() > 0 && forall|i: int| 0 <= i < k.len() ==> 'a' <= #[trigger] k[i] <= 'z'
}

/// The string value of `key` in `entries`, if it has one.
pub open spec fn entry_str(entries: Seq<(Seq<char>, Option<Seq<char>>)>, key: Seq<char>) -> Option<
    Seq<char>,
> {
    if exists|i: int| 0 <= i < entries.len() && (#[trigger] entries[i]).0 == key {
        entries[choose|i: int| 0 <= i < entries.len() && (#[trigger] entries[i]).0 == key].1
    } else {
        None
    }
}

/// `QueryStrong::parse`: parses a query string permissively, skipping the
/// segments it cannot use. Its top-level entries are those the crate's
/// parser yields for `q`; they come from a `BTreeMap`, so their keys are
/// distinct. The crate numbers the next entry of a sparse list `k + 1`,
/// which overflows (and panics under overflow checks) once a list has the
/// key `usize::MAX`; `requires` admits only strings whose list indices stay
/// within `index_limit`, on which no list reaches that key (see
/// `query_text`).
#[verifier::external_body]
pub(crate) fn parse_query<'a>(q: &'a str) -> (qs: QueryStrong<'a>)
    requires
        tame(encode_utf8(q@)) == encode_utf8(q@),
    ensures
        query_entries(qs) == parsed_query(q@),
        distinct_keys(query_entries(qs)),
{
    QueryStrong::parse(q)
}

/// The entries the handlers read from a query string: what `querystrong`
/// parses from it once its oversized list indices are written as `0`
/// (which leaves the top-level entries as they are; see `query_text`).
pub open spec fn read_query(q: Seq<char>) -> Seq<(Seq<char>, Option<Seq<char>>)> {
    parsed_query(query_text_of(q))
}

/// `Value::get_str` on a parsed query, for a plain key: the string stored
/// under that key at the top level, `None` when the key is absent or its
/// value is not a string.
#[verifier::external_body]
pub(crate) fn query_get_str<'a>(qs: &'a QueryStrong<'a>, key: &str) -> (r: Option<&'a str>)
    requires
        plain_query_key(key@),
    ensures
        match r {
            Some(s) => entry_str(query_entries(*qs), key@) == Some(s@),
            None => entry_str(query_entries(*qs), key@) is None,
        },
{
    qs.get_str(key)
}

/// `Value::as_map` on a parsed query followed by its values, each taken
/// with `Value::as_str`: one item per top-level entry, in the map's order.
#[verifier::external_body]
fn query_top_values<'a>(qs: &'a QueryStrong<'a>) -> (r: Vec<Option<&'a str>>)
    ensures
        r@.len() == query_entries(*qs).len(),
        forall|i: int|
            0 <= i < r@.len() ==> match #[trigger] r@[i] {
                Some(s) => query_entries(*qs)[i].1 == Some(s@),
                None => query_entries(*qs)[i].1 is None,
            },
{
    match qs.as_map() {
        Some(m) => m.values().map(|v| v.as_str()).collect(),
        None => Vec::new(),
    }
}

/// What `str::parse::<i64>` gives for the string `s`.
pub open spec fn str_i64(s: Seq<char>) -> Option<int> {
    spec_std_parse(encode_utf8(s), true, i64::MIN as int, i64::MAX as int)
}

/// The exact sum of the values that read as `i64` (others count as 0).
pub open spec fn sum_of_ints(vals: Seq<Option<Seq<char>>>) -> int
    decreases vals.len(),
{
    if vals.len() == 0 {
        0
    } else {
        sum_of_ints(vals.drop_last()) + match vals.last() {
            Some(s) => match str_i64(s) {
                Some(n) => n,
                None => 0,
            },
            None => 0,
        }
    }
}

/// The values of the entries, in order.
pub open spec fn entry_values(entries: Seq<(Seq<char>, Option<Seq<char>>)>) -> Seq<
    Option<Seq<char>>,
> {
    entries.map_values(|e: (Seq<char>, Option<Seq<char>>)| e.1)
}

/// `str::parse::<i64>` on a string.
pub fn str_to_i64(s: &str) -> (r: Option<i64>)
    ensures
        r is Some <==> str_i64(s@) is Some,
        r matches Some(v) ==> str_i64(s@) == Some(v as int),
{
    parse_std_i64(s.as_bytes())
}

/// The sum of the top-level query values that read as `i64`, wrapping at
/// the `i64` bounds.
pub fn sum_query_values(q: &str) -> (r: i64)
    ensures
        r as int == wrap_i64(sum_of_ints(entry_values(read_query(q@)))),
{
    let tamed = tame_query(q);
    let qs = parse_query(query_text(q, &tamed));
    let vals = query_top_values(&qs);
    let ghost ev = entry_values(query_entries(qs));
    let mut sum: i64 = 0;
    let mut i: usize = 0;
    proof {
        crate::numbers::lemma_wrap_id(0);
        assert(ev.take(0) =~= Seq::<Option<Seq<char>>>::empty());
    }
    while i < vals.len()
        invariant
            i <= vals@.len(),
            ev == entry_values(query_entries(qs)),
            vals@.len() == ev.len(),
            forall|k: int|
                0 <= k < vals@.len() ==> match #[trigger] vals@[k] {
                    Some(s) => ev[k] == Some(s@),
                    None => ev[k] is None,
                },
            sum as int == wrap_i64(sum_of_ints(ev.take(i as int))),
        decreases vals@.len() - i,
    {
        assert(ev.take(i + 1).drop_last() =~= ev.take(i as int));
        let ghost prev = sum_of_ints(ev.take(i as int));
        match vals[i] {
            Some(s) => match str_to_i64(s) {
                Some(n) => {
                    proof {
                        crate::numbers::lemma_wrapping_add_is_wrap(sum, n);
                        crate::numbers::lemma_wrap_id(n as int);
                        crate::numbers::lemma_wrap_add(prev, n as int);
                    }
                    sum = sum.wrapping_add(n);
                },
                None => {},
            },
            None => {},
        }
        i = i + 1;
    }
    assert(ev.take(vals@.len() as int) =~= ev);
    sum
}

} // verus!
