//! The column families of a store: the names that its statistics list.

use crate::byte_order::{is_prefix, lex_lt};
use crate::common::{encoded_key, lemma_name_has_no_separator, CF_SEPARATOR};
use crate::snapshot::utf8_str;
use crate::sorted_map::{
    has_key, lemma_position, lemma_sorted_unique, map_of, position, strictly_sorted, SortedMap,
};
use vstd::prelude::*;
use vstd::slice::{slice_subrange, slice_to_vec};
use vstd::utf8::{encode_utf8, encode_utf8_decode_utf8, valid_utf8};

verus! {

/// `name` is the column-family part of the encoded key `k`: what stands
/// before the first separator of `k`.
pub open spec fn is_family_of(name: Seq<u8>, k: Seq<u8>) -> bool {
    !name.contains(CF_SEPARATOR) && is_prefix(name.push(CF_SEPARATOR), k)
}

/// Some key of the contents `m` has the column-family part `name`.
pub open spec fn has_family(m: Map<Seq<u8>, Seq<u8>>, name: Seq<u8>) -> bool {
    exists|k: Seq<u8>| #[trigger] m.contains_key(k) && is_family_of(name, k)
}

/// The store holds some entry of the column family `cf`.
pub open spec fn family_has_entry(m: Map<Seq<u8>, Seq<u8>>, cf: Seq<char>) -> bool {
    exists|key: Seq<u8>| #[trigger] m.contains_key(encoded_key(cf, key))
}

/// `names` lists the column families of the contents `m`: the names of
/// the column families that hold an entry, each once, in ascending order
/// of their UTF-8 bytes.
pub open spec fn lists_families(names: Seq<Seq<char>>, m: Map<Seq<u8>, Seq<u8>>) -> bool {
    &&& forall|i: int, j: int|
        0 <= i < j < names.len() ==> lex_lt(
            encode_utf8(#[trigger] names[i]),
            encode_utf8(#[trigger] names[j]),
        )
    &&& forall|cf: Seq<char>| #[trigger] names.contains(cf) <==> family_has_entry(m, cf)
}

/// `names` lists the column-family parts of the keys of `m`: each name
/// whose UTF-8 bytes are the column-family part of some key, once, in
/// ascending order of those bytes.
pub open spec fn lists_family_parts(names: Seq<Seq<char>>, m: Map<Seq<u8>, Seq<u8>>) -> bool {
    &&& forall|i: int, j: int|
        0 <= i < j < names.len() ==> lex_lt(
            encode_utf8(#[trigger] names[i]),
            encode_utf8(#[trigger] names[j]),
        )
    &&& forall|i: int| 0 <= i < names.len() ==> has_family(m, encode_utf8(#[trigger] names[i]))
    &&& forall|c: Seq<char>| #[trigger] has_family(m, encode_utf8(c)) ==> names.contains(c)
}

/// An encoded key has at most one column-family part.
pub proof fn lemma_family_unique(x: Seq<u8>, y: Seq<u8>, k: Seq<u8>)
    requires
        is_family_of(x, k),
        is_family_of(y, k),
    ensures
        x == y,
{
    let xs = x.push(CF_SEPARATOR);
    let ys = y.push(CF_SEPARATOR);
    assert forall|i: int| 0 <= i < xs.len() implies xs[i] == k[i] by {
        assert(k.subrange(0, xs.len() as int)[i] == k[i]);
    }
    assert forall|i: int| 0 <= i < ys.len() implies ys[i] == k[i] by {
        assert(k.subrange(0, ys.len() as int)[i] == k[i]);
    }
    if x.len() < y.len() {
        assert(xs[x.len() as int] == CF_SEPARATOR);
        assert(ys[x.len() as int] == y[x.len() as int]);
        assert(y.contains(CF_SEPARATOR));
    } else if y.len() < x.len() {
        assert(ys[y.len() as int] == CF_SEPARATOR);
        assert(xs[y.len() as int] == x[y.len() as int]);
        assert(x.contains(CF_SEPARATOR));
    } else {
        assert forall|i: int| 0 <= i < x.len() implies x[i] == y[i] by {
            assert(xs[i] == x[i] && ys[i] == y[i]);
        }
        assert(x =~= y);
    }
}

/// Finds the first separator byte of `key`.
fn separator_position(key: &[u8]) -> (r: Option<usize>)
    ensures
        match r {
            Some(p) => p < key@.len() && is_family_of(key@.subrange(0, p as int), key@),
            None => !key@.contains(CF_SEPARATOR),
        },
{
    let mut i: usize = 0;
    while i < key.len()
        invariant
            i <= key@.len(),
            forall|j: int| 0 <= j < i ==> key@[j] != CF_SEPARATOR,
        decreases key@.len() - i,
    {
        if key[i] == CF_SEPARATOR {
            proof {
                let name = key@.subrange(0, i as int);
                assert(key@.subrange(0, i + 1) =~= name.push(CF_SEPARATOR));
            }
            return Some(i);
        }
        i += 1;
    }
    None
}

/// Some entry among the first `n` of `s` has the column-family part `x`.
pub open spec fn family_among(s: Seq<(Seq<u8>, Seq<u8>)>, n: int, x: Seq<u8>) -> bool {
    exists|j: int| 0 <= j < n && is_family_of(x, (#[trigger] s[j]).0)
}

/// Some string of `names` has the UTF-8 bytes `x`.
pub open spec fn named(names: Seq<String>, x: Seq<u8>) -> bool {
    exists|a: int| 0 <= a < names.len() && encode_utf8((#[trigger] names[a])@) == x
}

/// An entry among the first `n` of a sorted sequence has the column-family
/// part `x` exactly if a key of the front of the sequence has.
proof fn lemma_family_among(s: Seq<(Seq<u8>, Seq<u8>)>, x: Seq<u8>)
    requires
        strictly_sorted(s),
    ensures
        family_among(s, s.len() as int, x) <==> has_family(map_of(s), x),
{
    if family_among(s, s.len() as int, x) {
        let q = choose|q: int| 0 <= q < s.len() && is_family_of(x, (#[trigger] s[q]).0);
        lemma_position(s, q);
        assert(map_of(s).contains_key(s[q].0));
    }
    if has_family(map_of(s), x) {
        let k = choose|k: Seq<u8>| #[trigger] map_of(s).contains_key(k) && is_family_of(x, k);
        let q = position(s, k);
        assert(is_family_of(x, s[q].0));
    }
}

/// With one more entry the column-family parts seen are those seen before
/// and the part of that entry, if it has one.
proof fn lemma_family_among_step(s: Seq<(Seq<u8>, Seq<u8>)>, i: int, x: Seq<u8>)
    requires
        0 <= i < s.len(),
    ensures
        family_among(s, i + 1, x) <==> family_among(s, i, x) || is_family_of(x, s[i].0),
{
    if family_among(s, i + 1, x) {
        let j = choose|j: int| 0 <= j < i + 1 && is_family_of(x, (#[trigger] s[j]).0);
        if j < i {
            assert(family_among(s, i, x));
        }
    }
    if family_among(s, i, x) {
        let j = choose|j: int| 0 <= j < i && is_family_of(x, (#[trigger] s[j]).0);
        assert(is_family_of(x, s[j].0));
    }
}

/// A key without a separator has no column-family part.
proof fn lemma_no_family(x: Seq<u8>, k: Seq<u8>)
    requires
        !k.contains(CF_SEPARATOR),
    ensures
        !is_family_of(x, k),
{
    if is_family_of(x, k) {
        let xs = x.push(CF_SEPARATOR);
        assert(k.subrange(0, xs.len() as int)[x.len() as int] == k[x.len() as int]);
        assert(xs[x.len() as int] == CF_SEPARATOR);
    }
}

/// Collects the column-family parts of the keys of `data`, as the keys of
/// a map.
pub(crate) fn family_parts(data: &SortedMap) -> (families: SortedMap)
    requires
        data.wf(),
    ensures
        families.wf(),
        forall|x: Seq<u8>| #[trigger] families@.contains_key(x) <==> has_family(data@, x),
{
    let ghost s = data.entries();
    let n = data.len();
    let mut families = SortedMap::new();
    let mut i: usize = 0;
    while i < n
        invariant
            i <= n,
            n == s.len(),
            s == data.entries(),
            families.wf(),
            forall|x: Seq<u8>| #[trigger]
                families@.contains_key(x) <==> family_among(s, i as int, x),
        decreases n - i,
    {
        let key = data.key_at(i);
        let ghost before = families@;
        match separator_position(key.as_slice()) {
            Some(p) => {
                let name = slice_to_vec(slice_subrange(key.as_slice(), 0, p));
                families.insert(name, Vec::new());
                proof {
                    assert forall|x: Seq<u8>| #[trigger]
                        families@.contains_key(x) <==> family_among(s, i + 1, x) by {
                        lemma_family_among_step(s, i as int, x);
                        assert(before.contains_key(x) <==> family_among(s, i as int, x));
                        if is_family_of(x, s[i as int].0) {
                            lemma_family_unique(x, name@, s[i as int].0);
                        }
                    }
                }
            },
            None => {
                proof {
                    assert forall|x: Seq<u8>| #[trigger]
                        families@.contains_key(x) <==> family_among(s, i + 1, x) by {
                        lemma_family_among_step(s, i as int, x);
                        lemma_no_family(x, s[i as int].0);
                    }
                }
            },
        }
        i += 1;
    }
    proof {
        assert forall|x: Seq<u8>| #[trigger]
            families@.contains_key(x) <==> has_family(data@, x) by {
            lemma_family_among(s, x);
        }
    }
    families
}

/// Turns the keys of `families` that are well-formed UTF-8 into strings,
/// in the ascending order of the keys.
pub(crate) fn utf8_names(families: &SortedMap) -> (names: Vec<String>)
    requires
        families.wf(),
    ensures
        forall|a: int, b: int|
            0 <= a < b < names@.len() ==> lex_lt(
                encode_utf8((#[trigger] names@[a])@),
                encode_utf8((#[trigger] names@[b])@),
            ),
        forall|a: int|
            0 <= a < names@.len() ==> families@.contains_key(
                encode_utf8((#[trigger] names@[a])@),
            ),
        forall|x: Seq<u8>| #[trigger]
            families@.contains_key(x) && valid_utf8(x) ==> named(names@, x),
{
    let ghost f = families.entries();
    let m = families.len();
    let mut names: Vec<String> = Vec::new();
    let mut j: usize = 0;
    while j < m
        invariant
            j <= m,
            m == f.len(),
            f == families.entries(),
            families.wf(),
            forall|a: int, b: int|
                0 <= a < b < names@.len() ==> lex_lt(
                    encode_utf8((#[trigger] names@[a])@),
                    encode_utf8((#[trigger] names@[b])@),
                ),
            forall|a: int|
                0 <= a < names@.len() ==> has_key(
                    f.take(j as int),
                    encode_utf8((#[trigger] names@[a])@),
                ),
            forall|q: int| 0 <= q < j && valid_utf8((#[trigger] f[q]).0) ==> named(names@, f[q].0),
        decreases m - j,
    {
        let key = families.key_at(j);
        let ghost prev = names@;
        let ghost front = f.take(j as int);
        let ghost next = f.take(j + 1);
        proof {
            assert forall|a: int| 0 <= a < prev.len() implies has_key(
                next,
                encode_utf8((#[trigger] prev[a])@),
            ) && lex_lt(encode_utf8(prev[a]@), f[j as int].0) by {
                let q = position(front, encode_utf8(prev[a]@));
                assert(next[q] == front[q] && front[q] == f[q]);
                assert(lex_lt(f[q].0, f[j as int].0));
            }
        }
        match utf8_str(key.as_slice()) {
            Some(name) => {
                names.push(name.to_owned());
                proof {
                    let last = prev.len() as int;
                    assert(encode_utf8(names@[last]@) == f[j as int].0);
                    assert(next[j as int] == f[j as int]);
                    assert forall|a: int| 0 <= a < names@.len() implies has_key(
                        next,
                        encode_utf8((#[trigger] names@[a])@),
                    ) by {
                        if a < last {
                            assert(names@[a] == prev[a]);
                        }
                    }
                    assert forall|a: int, b: int| 0 <= a < b < names@.len() implies lex_lt(
                        encode_utf8((#[trigger] names@[a])@),
                        encode_utf8((#[trigger] names@[b])@),
                    ) by {
                        assert(names@[a] == prev[a]);
                        if b < last {
                            assert(names@[b] == prev[b]);
                        }
                    }
                    assert forall|q: int|
                        0 <= q < j + 1 && valid_utf8((#[trigger] f[q]).0) implies named(
                        names@,
                        f[q].0,
                    ) by {
                        if q < j {
                            let a = choose|a: int|
                                0 <= a < prev.len() && encode_utf8((#[trigger] prev[a])@)
                                    == f[q].0;
                            assert(names@[a] == prev[a]);
                        } else {
                            assert(encode_utf8(names@[last]@) == f[q].0);
                        }
                    }
                }
            },
            None => {},
        }
        j += 1;
    }
    proof {
        assert(f.take(j as int) =~= f);
        assert forall|x: Seq<u8>| #[trigger]
            families@.contains_key(x) && valid_utf8(x) implies named(names@, x) by {
            let q = position(f, x);
            assert(valid_utf8(f[q].0));
        }
    }
    names
}

/// A column family holds an entry exactly if its name is the
/// column-family part of some key.
pub proof fn lemma_family_has_entry(m: Map<Seq<u8>, Seq<u8>>, cf: Seq<char>)
    ensures
        family_has_entry(m, cf) <==> has_family(m, encode_utf8(cf)),
{
    let name = encode_utf8(cf);
    let p = name.push(CF_SEPARATOR);
    lemma_name_has_no_separator(cf);
    if has_family(m, name) {
        let k = choose|k: Seq<u8>| #[trigger] m.contains_key(k) && is_family_of(name, k);
        let key = k.skip(p.len() as int);
        assert(k.subrange(0, p.len() as int) + key =~= k);
        assert(m.contains_key(encoded_key(cf, key)));
    }
    if family_has_entry(m, cf) {
        let key = choose|key: Seq<u8>| #[trigger] m.contains_key(encoded_key(cf, key));
        let k = encoded_key(cf, key);
        assert(k.subrange(0, p.len() as int) =~= p);
        assert(is_family_of(name, k));
    }
}

/// A list of the column-family parts of the keys is the list of the column
/// families that hold an entry.
pub proof fn lemma_family_parts_listed(names: Seq<Seq<char>>, m: Map<Seq<u8>, Seq<u8>>)
    requires
        lists_family_parts(names, m),
    ensures
        lists_families(names, m),
{
    assert forall|cf: Seq<char>| #[trigger] names.contains(cf) <==> family_has_entry(m, cf) by {
        lemma_family_has_entry(m, cf);
        if names.contains(cf) {
            let i = choose|i: int| 0 <= i < names.len() && names[i] == cf;
            assert(has_family(m, encode_utf8(names[i])));
        }
    }
}

/// The contents decide the list of their column families: two lists of the
/// column families of the same contents are equal.
pub proof fn lemma_families_unique(a: Seq<Seq<char>>, b: Seq<Seq<char>>, m: Map<Seq<u8>, Seq<u8>>)
    requires
        lists_families(a, m),
        lists_families(b, m),
    ensures
        a == b,
{
    let none = Seq::<u8>::empty();
    let ea = Seq::new(a.len(), |i: int| (encode_utf8(a[i]), none));
    let eb = Seq::new(b.len(), |i: int| (encode_utf8(b[i]), none));
    assert forall|x: Seq<u8>| has_key(ea, x) <==> has_key(eb, x) by {
        if has_key(ea, x) {
            let i = position(ea, x);
            assert(a.contains(a[i]));
            assert(b.contains(a[i]));
            let j = choose|j: int| 0 <= j < b.len() && b[j] == a[i];
            assert(eb[j].0 == x);
        }
        if has_key(eb, x) {
            let i = position(eb, x);
            assert(b.contains(b[i]));
            assert(a.contains(b[i]));
            let j = choose|j: int| 0 <= j < a.len() && a[j] == b[i];
            assert(ea[j].0 == x);
        }
    }
    assert(map_of(ea) =~= map_of(eb));
    lemma_sorted_unique(ea, eb);
    assert forall|i: int| 0 <= i < a.len() implies a[i] == b[i] by {
        assert(ea[i].0 == eb[i].0);
        encode_utf8_decode_utf8(a[i]);
        encode_utf8_decode_utf8(b[i]);
    }
    assert(a =~= b);
}

} // verus!
