//! Range scans: which entries a scan selects, and what holds of them.

use crate::byte_order::{lex_le, lex_lt};
use crate::common::{decoded_key, encoded_key, lemma_encode_decode, lemma_encoded_key_order};
use crate::sorted_map::{ascending, has_key, lemma_position, map_of, position, strictly_sorted};
use vstd::prelude::*;

verus! {

/// The encoded key `k` is selected by a scan of the column family `cf` from
/// `start` up to, and without, `end`.
pub open spec fn in_scan(k: Seq<u8>, cf: Seq<char>, start: Seq<u8>, end: Option<Seq<u8>>) -> bool {
    &&& lex_le(encoded_key(cf, start), k)
    &&& (end matches Some(e) ==> lex_lt(k, encoded_key(cf, e)))
    &&& decoded_key(cf, k) is Some
}

/// The entries of `s` that a scan selects, in the order of `s`, each under
/// its raw key.
pub open spec fn scan_all(
    s: Seq<(Seq<u8>, Seq<u8>)>,
    cf: Seq<char>,
    start: Seq<u8>,
    end: Option<Seq<u8>>,
) -> Seq<(Seq<u8>, Seq<u8>)>
    decreases s.len(),
{
    if s.len() == 0 {
        Seq::empty()
    } else {
        let rest = scan_all(s.drop_last(), cf, start, end);
        if in_scan(s.last().0, cf, start, end) {
            rest.push((decoded_key(cf, s.last().0)->0, s.last().1))
        } else {
            rest
        }
    }
}

/// What a scan of the contents `m` returns: the selected entries in
/// ascending key order, cut off after `limit` of them.
pub open spec fn scan_result(
    m: Map<Seq<u8>, Seq<u8>>,
    cf: Seq<char>,
    start: Seq<u8>,
    end: Option<Seq<u8>>,
    limit: nat,
) -> Seq<(Seq<u8>, Seq<u8>)> {
    let all = scan_all(ascending(m), cf, start, end);
    if limit < all.len() {
        all.take(limit as int)
    } else {
        all
    }
}

/// A scan of a sequence is the scan of its front followed by the scan of
/// the rest.
pub proof fn lemma_scan_all_split(
    s: Seq<(Seq<u8>, Seq<u8>)>,
    i: int,
    cf: Seq<char>,
    start: Seq<u8>,
    end: Option<Seq<u8>>,
)
    requires
        0 <= i <= s.len(),
    ensures
        scan_all(s, cf, start, end) == scan_all(s.take(i), cf, start, end) + scan_all(
            s.skip(i),
            cf,
            start,
            end,
        ),
    decreases s.len(),
{
    if i == s.len() {
        assert(s.take(i) =~= s);
        assert(s.skip(i) =~= Seq::<(Seq<u8>, Seq<u8>)>::empty());
        assert(scan_all(s, cf, start, end) =~= scan_all(s, cf, start, end) + Seq::<
            (Seq<u8>, Seq<u8>),
        >::empty());
    } else {
        let t = s.drop_last();
        lemma_scan_all_split(t, i, cf, start, end);
        assert(t.take(i) =~= s.take(i));
        assert(t.skip(i) =~= s.skip(i).drop_last());
        assert(s.skip(i).last() == s.last());
        let front = scan_all(s.take(i), cf, start, end);
        let back = scan_all(t.skip(i), cf, start, end);
        if in_scan(s.last().0, cf, start, end) {
            let e = (decoded_key(cf, s.last().0)->0, s.last().1);
            assert((front + back).push(e) =~= front + back.push(e));
        }
    }
}

/// A scan of a sequence none of whose keys is selected is empty.
pub proof fn lemma_scan_all_none(
    s: Seq<(Seq<u8>, Seq<u8>)>,
    cf: Seq<char>,
    start: Seq<u8>,
    end: Option<Seq<u8>>,
)
    requires
        forall|j: int| 0 <= j < s.len() ==> !in_scan((#[trigger] s[j]).0, cf, start, end),
    ensures
        scan_all(s, cf, start, end) == Seq::<(Seq<u8>, Seq<u8>)>::empty(),
    decreases s.len(),
{
    if s.len() > 0 {
        let t = s.drop_last();
        assert forall|j: int| 0 <= j < t.len() implies !in_scan(
            (#[trigger] t[j]).0,
            cf,
            start,
            end,
        ) by {
            assert(t[j] == s[j]);
        }
        lemma_scan_all_none(t, cf, start, end);
        assert(s.last() == s[s.len() - 1]);
    }
}

/// The scanned entry `e` is an entry of `s` under the column family `cf`,
/// and its key is selected by the scan.
pub open spec fn scanned_from(
    s: Seq<(Seq<u8>, Seq<u8>)>,
    cf: Seq<char>,
    start: Seq<u8>,
    end: Option<Seq<u8>>,
    e: (Seq<u8>, Seq<u8>),
) -> bool {
    &&& has_key(s, encoded_key(cf, e.0))
    &&& map_of(s)[encoded_key(cf, e.0)] == e.1
    &&& in_scan(encoded_key(cf, e.0), cf, start, end)
}

/// Every entry that a scan of a sorted sequence selects is an entry of the
/// sequence, and the selected entries ascend.
pub proof fn lemma_scan_all_sound(
    s: Seq<(Seq<u8>, Seq<u8>)>,
    cf: Seq<char>,
    start: Seq<u8>,
    end: Option<Seq<u8>>,
)
    requires
        strictly_sorted(s),
    ensures
        forall|i: int|
            0 <= i < scan_all(s, cf, start, end).len() ==> scanned_from(
                s,
                cf,
                start,
                end,
                #[trigger] scan_all(s, cf, start, end)[i],
            ),
        forall|i: int, j: int|
            0 <= i < j < scan_all(s, cf, start, end).len() ==> lex_lt(
                (#[trigger] scan_all(s, cf, start, end)[i]).0,
                (#[trigger] scan_all(s, cf, start, end)[j]).0,
            ),
    decreases s.len(),
{
    let r = scan_all(s, cf, start, end);
    if s.len() > 0 {
        let n = s.len() - 1;
        let t = s.drop_last();
        let rt = scan_all(t, cf, start, end);
        assert forall|a: int, b: int| 0 <= a < b < t.len() implies lex_lt(
            (#[trigger] t[a]).0,
            (#[trigger] t[b]).0,
        ) by {
            assert(t[a] == s[a] && t[b] == s[b]);
        }
        lemma_scan_all_sound(t, cf, start, end);
        assert forall|i: int| 0 <= i < rt.len() implies scanned_from(
            s,
            cf,
            start,
            end,
            #[trigger] rt[i],
        ) && lex_lt(encoded_key(cf, rt[i].0), s[n].0) by {
            assert(scanned_from(t, cf, start, end, rt[i]));
            let k = encoded_key(cf, rt[i].0);
            let q = position(t, k);
            assert(t[q] == s[q]);
            lemma_position(t, q);
            lemma_position(s, q);
            assert(lex_lt(s[q].0, s[n].0));
        }
        if in_scan(s[n].0, cf, start, end) {
            let e = (decoded_key(cf, s[n].0)->0, s[n].1);
            lemma_encode_decode(cf, s[n].0);
            lemma_position(s, n);
            assert(scanned_from(s, cf, start, end, e));
            assert(r == rt.push(e));
            assert forall|i: int, j: int| 0 <= i < j < r.len() implies lex_lt(
                (#[trigger] r[i]).0,
                (#[trigger] r[j]).0,
            ) by {
                assert(r[i] == rt[i]);
                if j < rt.len() {
                    assert(r[j] == rt[j]);
                } else {
                    lemma_encoded_key_order(cf, rt[i].0, e.0);
                }
            }
            assert forall|i: int| 0 <= i < r.len() implies scanned_from(
                s,
                cf,
                start,
                end,
                #[trigger] r[i],
            ) by {
                if i < rt.len() {
                    assert(r[i] == rt[i]);
                }
            }
        } else {
            assert(r == rt);
        }
    }
}

/// A scan of a sequence holds every entry of it whose key is selected.
pub proof fn lemma_scan_all_complete(
    s: Seq<(Seq<u8>, Seq<u8>)>,
    j: int,
    cf: Seq<char>,
    start: Seq<u8>,
    end: Option<Seq<u8>>,
)
    requires
        0 <= j < s.len(),
        in_scan(s[j].0, cf, start, end),
    ensures
        scan_all(s, cf, start, end).contains((decoded_key(cf, s[j].0)->0, s[j].1)),
    decreases s.len(),
{
    let r = scan_all(s, cf, start, end);
    let e = (decoded_key(cf, s[j].0)->0, s[j].1);
    let t = s.drop_last();
    let rt = scan_all(t, cf, start, end);
    if j == s.len() - 1 {
        assert(r == rt.push(e));
        assert(r[rt.len() as int] == e);
    } else {
        assert(t[j] == s[j]);
        lemma_scan_all_complete(t, j, cf, start, end);
        let i = choose|i: int| 0 <= i < rt.len() && rt[i] == e;
        assert(r[i] == e);
    }
}

} // verus!
