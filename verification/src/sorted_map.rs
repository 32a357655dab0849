//! An ordered map from byte strings to byte strings, kept as a vector of
//! entries in strictly ascending key order.

use crate::byte_order::{
    lemma_lex_lt_irreflexive, lemma_lex_lt_total, lemma_lex_lt_transitive, lex_lt, order_of,
    ByteOrder,
};
use vstd::prelude::*;
use vstd::slice::slice_to_vec;

verus! {

/// The keys of `s` ascend strictly, so no key occurs twice.
pub open spec fn strictly_sorted(s: Seq<(Seq<u8>, Seq<u8>)>) -> bool {
    forall|i: int, j: int| 0 <= i < j < s.len() ==> lex_lt(#[trigger] s[i].0, #[trigger] s[j].0)
}

/// Some entry of `s` has the key `k`.
pub open spec fn has_key(s: Seq<(Seq<u8>, Seq<u8>)>, k: Seq<u8>) -> bool {
    exists|i: int| 0 <= i < s.len() && (#[trigger] s[i]).0 == k
}

/// The index of an entry of `s` with the key `k`.
pub open spec fn position(s: Seq<(Seq<u8>, Seq<u8>)>, k: Seq<u8>) -> int {
    choose|i: int| 0 <= i < s.len() && (#[trigger] s[i]).0 == k
}

/// The mapping that a sequence of entries stands for.
pub open spec fn map_of(s: Seq<(Seq<u8>, Seq<u8>)>) -> Map<Seq<u8>, Seq<u8>> {
    Map::new(|k: Seq<u8>| has_key(s, k), |k: Seq<u8>| s[position(s, k)].1)
}

/// `p` is where the key `k` stands, or would stand, in `s`: every entry
/// before `p` has a smaller key and no entry from `p` on has.
pub open spec fn is_lower_bound(s: Seq<(Seq<u8>, Seq<u8>)>, k: Seq<u8>, p: int) -> bool {
    &&& 0 <= p <= s.len()
    &&& forall|i: int| 0 <= i < p ==> lex_lt((#[trigger] s[i]).0, k)
    &&& forall|i: int| p <= i < s.len() ==> !lex_lt((#[trigger] s[i]).0, k)
}

/// In a sorted sequence every entry is found under its own key.
pub proof fn lemma_position(s: Seq<(Seq<u8>, Seq<u8>)>, i: int)
    requires
        strictly_sorted(s),
        0 <= i < s.len(),
    ensures
        has_key(s, s[i].0),
        position(s, s[i].0) == i,
        map_of(s).contains_key(s[i].0),
        map_of(s)[s[i].0] == s[i].1,
{
    let j = position(s, s[i].0);
    lemma_lex_lt_irreflexive(s[i].0);
    if j < i {
        assert(lex_lt(s[j].0, s[i].0));
    } else if i < j {
        assert(lex_lt(s[i].0, s[j].0));
    }
}

/// Where the entry at the lower bound of `k` has another key, `k` has no entry.
pub proof fn lemma_absent(s: Seq<(Seq<u8>, Seq<u8>)>, k: Seq<u8>, p: int)
    requires
        strictly_sorted(s),
        is_lower_bound(s, k, p),
        p == s.len() || s[p].0 != k,
    ensures
        !has_key(s, k),
        !map_of(s).contains_key(k),
        forall|i: int| p <= i < s.len() ==> lex_lt(k, (#[trigger] s[i]).0),
{
    lemma_lex_lt_irreflexive(k);
    assert forall|i: int| p <= i < s.len() implies lex_lt(k, (#[trigger] s[i]).0) by {
        lemma_lex_lt_total(k, s[p].0);
        if p < i {
            assert(lex_lt(s[p].0, s[i].0));
            lemma_lex_lt_transitive(k, s[p].0, s[i].0);
        }
    }
    if has_key(s, k) {
        let j = position(s, k);
        if j < p {
            assert(lex_lt(s[j].0, k));
        } else {
            assert(lex_lt(k, s[j].0));
        }
    }
}

/// Putting a new key at its lower bound keeps the order and adds the entry.
pub proof fn lemma_insert_new(s: Seq<(Seq<u8>, Seq<u8>)>, k: Seq<u8>, v: Seq<u8>, p: int)
    requires
        strictly_sorted(s),
        is_lower_bound(s, k, p),
        p == s.len() || s[p].0 != k,
    ensures
        strictly_sorted(s.insert(p, (k, v))),
        map_of(s.insert(p, (k, v))) == map_of(s).insert(k, v),
{
    let t = s.insert(p, (k, v));
    lemma_absent(s, k, p);
    assert forall|i: int, j: int| 0 <= i < j < t.len() implies lex_lt(
        (#[trigger] t[i]).0,
        (#[trigger] t[j]).0,
    ) by {
        if j < p {
            assert(t[i] == s[i] && t[j] == s[j]);
        } else if j == p {
            assert(t[i] == s[i]);
        } else if i < p {
            assert(t[i] == s[i] && t[j] == s[j - 1]);
            if i < j - 1 {
            } else {
                lemma_lex_lt_transitive(s[i].0, k, s[j - 1].0);
            }
        } else if i == p {
            assert(t[j] == s[j - 1]);
        } else {
            assert(t[i] == s[i - 1] && t[j] == s[j - 1]);
        }
    }
    let u = map_of(s).insert(k, v);
    assert forall|x: Seq<u8>| #[trigger] map_of(t).contains_key(x) == u.contains_key(x) by {
        if has_key(t, x) {
            let j = position(t, x);
            if j < p {
                assert(s[j].0 == x);
            } else if j > p {
                assert(s[j - 1].0 == x);
            }
        }
        if has_key(s, x) {
            let j = position(s, x);
            if j < p {
                assert(t[j].0 == x);
            } else {
                assert(t[j + 1].0 == x);
            }
        }
        if x == k {
            assert(t[p].0 == x);
        }
    }
    assert forall|x: Seq<u8>| #[trigger] map_of(t).contains_key(x) implies map_of(t)[x] == u[x] by {
        let j = position(t, x);
        lemma_position(t, j);
        if j < p {
            lemma_position(s, j);
        } else if j > p {
            lemma_position(s, j - 1);
        }
    }
    assert(map_of(t) =~= u);
}

/// Replacing the value of an entry keeps the order and overwrites the key.
pub proof fn lemma_overwrite(s: Seq<(Seq<u8>, Seq<u8>)>, k: Seq<u8>, v: Seq<u8>, p: int)
    requires
        strictly_sorted(s),
        0 <= p < s.len(),
        s[p].0 == k,
    ensures
        strictly_sorted(s.update(p, (k, v))),
        map_of(s.update(p, (k, v))) == map_of(s).insert(k, v),
{
    let t = s.update(p, (k, v));
    assert forall|i: int, j: int| 0 <= i < j < t.len() implies lex_lt(
        (#[trigger] t[i]).0,
        (#[trigger] t[j]).0,
    ) by {
        assert(t[i].0 == s[i].0 && t[j].0 == s[j].0);
    }
    let u = map_of(s).insert(k, v);
    assert forall|x: Seq<u8>| #[trigger] map_of(t).contains_key(x) == u.contains_key(x) by {
        if has_key(t, x) {
            let j = position(t, x);
            assert(s[j].0 == x);
        }
        if has_key(s, x) {
            let j = position(s, x);
            assert(t[j].0 == x);
        }
        if x == k {
            assert(t[p].0 == x);
        }
    }
    assert forall|x: Seq<u8>| #[trigger] map_of(t).contains_key(x) implies map_of(t)[x] == u[x] by {
        let j = position(t, x);
        lemma_position(t, j);
        lemma_position(t, p);
        if j != p {
            assert(t[j] == s[j]);
            lemma_position(s, j);
        }
    }
    assert(map_of(t) =~= u);
}

/// Taking an entry out keeps the order and removes its key.
pub proof fn lemma_remove(s: Seq<(Seq<u8>, Seq<u8>)>, p: int)
    requires
        strictly_sorted(s),
        0 <= p < s.len(),
    ensures
        strictly_sorted(s.remove(p)),
        map_of(s.remove(p)) == map_of(s).remove(s[p].0),
{
    let t = s.remove(p);
    let k = s[p].0;
    assert forall|i: int, j: int| 0 <= i < j < t.len() implies lex_lt(
        (#[trigger] t[i]).0,
        (#[trigger] t[j]).0,
    ) by {
        let si = if i < p { i } else { i + 1 };
        let sj = if j < p { j } else { j + 1 };
        assert(t[i] == s[si] && t[j] == s[sj]);
    }
    let u = map_of(s).remove(k);
    assert forall|x: Seq<u8>| #[trigger] map_of(t).contains_key(x) == u.contains_key(x) by {
        if has_key(t, x) {
            let j = position(t, x);
            let sj = if j < p { j } else { j + 1 };
            assert(s[sj].0 == x);
            lemma_position(s, sj);
            lemma_position(s, p);
        }
        if has_key(s, x) && x != k {
            let j = position(s, x);
            if j < p {
                assert(t[j].0 == x);
            } else {
                assert(t[j - 1].0 == x);
            }
        }
    }
    assert forall|x: Seq<u8>| #[trigger] map_of(t).contains_key(x) implies map_of(t)[x] == u[x] by {
        let j = position(t, x);
        lemma_position(t, j);
        let sj = if j < p { j } else { j + 1 };
        assert(t[j] == s[sj]);
        lemma_position(s, sj);
        lemma_position(s, p);
    }
    assert(map_of(t) =~= u);
}

/// A sorted sequence holds as many entries as its mapping has keys.
pub proof fn lemma_map_of_len(s: Seq<(Seq<u8>, Seq<u8>)>)
    requires
        strictly_sorted(s),
    ensures
        map_of(s).dom().finite(),
        map_of(s).dom().len() == s.len(),
    decreases s.len(),
{
    if s.len() == 0 {
        assert(map_of(s).dom() =~= Set::<Seq<u8>>::empty());
    } else {
        let p = s.len() - 1;
        let t = s.remove(p);
        lemma_remove(s, p);
        lemma_map_of_len(t);
        lemma_position(s, p);
        assert(map_of(s).dom() =~= map_of(t).dom().insert(s[p].0));
    }
}

/// A mapping has only one strictly ascending sequence of entries.
pub proof fn lemma_sorted_unique(a: Seq<(Seq<u8>, Seq<u8>)>, b: Seq<(Seq<u8>, Seq<u8>)>)
    requires
        strictly_sorted(a),
        strictly_sorted(b),
        map_of(a) == map_of(b),
    ensures
        a == b,
    decreases a.len(),
{
    lemma_map_of_len(a);
    lemma_map_of_len(b);
    if a.len() == 0 {
        assert(a =~= b);
    } else {
        let n = a.len() - 1;
        lemma_position(a, n);
        lemma_position(b, n);
        assert(map_of(b).contains_key(a[n].0));
        assert(map_of(a).contains_key(b[n].0));
        let j = position(b, a[n].0);
        let i = position(a, b[n].0);
        lemma_lex_lt_irreflexive(a[n].0);
        if j < n {
            assert(lex_lt(b[j].0, b[n].0));
            if i < n {
                assert(lex_lt(a[i].0, a[n].0));
                lemma_lex_lt_transitive(a[n].0, b[n].0, a[n].0);
            }
        }
        assert(a[n].0 == b[n].0);
        assert(a[n] == b[n]);
        lemma_remove(a, n);
        lemma_remove(b, n);
        lemma_sorted_unique(a.remove(n), b.remove(n));
        assert(a =~= a.remove(n).push(a[n]));
        assert(b =~= b.remove(n).push(b[n]));
    }
}

/// The entries of a mapping in strictly ascending key order.
pub open spec fn ascending(m: Map<Seq<u8>, Seq<u8>>) -> Seq<(Seq<u8>, Seq<u8>)> {
    choose|s: Seq<(Seq<u8>, Seq<u8>)>| strictly_sorted(s) && map_of(s) == m
}

/// A strictly ascending sequence is the ascending sequence of its mapping.
pub proof fn lemma_ascending(s: Seq<(Seq<u8>, Seq<u8>)>)
    requires
        strictly_sorted(s),
    ensures
        ascending(map_of(s)) == s,
{
    lemma_sorted_unique(ascending(map_of(s)), s);
}

/// The entries of a vector as plain values.
pub open spec fn entries_of(v: Seq<(Vec<u8>, Vec<u8>)>) -> Seq<(Seq<u8>, Seq<u8>)> {
    Seq::new(v.len(), |i: int| (v[i].0@, v[i].1@))
}

/// Tells whether two byte strings are equal.
pub fn bytes_equal(a: &[u8], b: &[u8]) -> (r: bool)
    ensures
        r == (a@ == b@),
{
    match order_of(a, b) {
        ByteOrder::Equal => true,
        _ => false,
    }
}

/// Tells whether two vectors hold the same entries in the same order.
pub fn entries_equal(a: &Vec<(Vec<u8>, Vec<u8>)>, b: &Vec<(Vec<u8>, Vec<u8>)>) -> (r: bool)
    ensures
        r == (entries_of(a@) == entries_of(b@)),
{
    if a.len() != b.len() {
        proof {
            assert(entries_of(a@).len() != entries_of(b@).len());
        }
        return false;
    }
    let mut i: usize = 0;
    while i < a.len()
        invariant
            i <= a@.len(),
            a@.len() == b@.len(),
            forall|j: int| 0 <= j < i ==> entries_of(a@)[j] == entries_of(b@)[j],
        decreases a@.len() - i,
    {
        let same = bytes_equal(a[i].0.as_slice(), b[i].0.as_slice()) && bytes_equal(
            a[i].1.as_slice(),
            b[i].1.as_slice(),
        );
        if !same {
            proof {
                assert(entries_of(a@)[i as int] != entries_of(b@)[i as int]);
            }
            return false;
        }
        i += 1;
    }
    proof {
        assert(entries_of(a@) =~= entries_of(b@));
    }
    true
}

/// An ordered map from byte strings to byte strings.
pub struct SortedMap {
    entries: Vec<(Vec<u8>, Vec<u8>)>,
}

impl View for SortedMap {
    type V = Map<Seq<u8>, Seq<u8>>;

    /// The mapping from keys to values.
    open spec fn view(&self) -> Map<Seq<u8>, Seq<u8>> {
        map_of(self.entries())
    }
}

impl SortedMap {
    /// The entries in ascending key order.
    pub closed spec fn entries(&self) -> Seq<(Seq<u8>, Seq<u8>)> {
        entries_of(self.entries@)
    }

    /// The entries ascend strictly by key.
    pub open spec fn wf(&self) -> bool {
        strictly_sorted(self.entries())
    }

    /// The entries of a well-formed map are the ascending entries of its mapping.
    pub proof fn lemma_entries(&self)
        requires
            self.wf(),
        ensures
            self.entries() == ascending(self@),
            self@.dom().finite(),
            self@.dom().len() == self.entries().len(),
    {
        lemma_ascending(self.entries());
        lemma_map_of_len(self.entries());
    }

    /// The entries as a vector, in ascending key order.
    pub fn as_entries(&self) -> (v: &Vec<(Vec<u8>, Vec<u8>)>)
        ensures
            entries_of(v@) == self.entries(),
    {
        &self.entries
    }

    /// The empty map.
    pub fn new() -> (m: Self)
        ensures
            m.wf(),
            m.entries() == Seq::<(Seq<u8>, Seq<u8>)>::empty(),
            m@ == Map::<Seq<u8>, Seq<u8>>::empty(),
    {
        let m = SortedMap { entries: Vec::new() };
        proof {
            assert(m.entries() =~= Seq::<(Seq<u8>, Seq<u8>)>::empty());
            assert(m@ =~= Map::<Seq<u8>, Seq<u8>>::empty());
        }
        m
    }

    /// The number of entries.
    pub fn len(&self) -> (n: usize)
        ensures
            n == self.entries().len(),
    {
        self.entries.len()
    }

    /// The key of the entry at position `i` of the ascending order.
    pub fn key_at(&self, i: usize) -> (k: &Vec<u8>)
        requires
            i < self.entries().len(),
        ensures
            k@ == self.entries()[i as int].0,
    {
        &self.entries[i].0
    }

    /// The value of the entry at position `i` of the ascending order.
    pub fn value_at(&self, i: usize) -> (v: &Vec<u8>)
        requires
            i < self.entries().len(),
        ensures
            v@ == self.entries()[i as int].1,
    {
        &self.entries[i].1
    }

    /// Finds by binary search where `key` stands, or would stand.
    pub fn lower_bound(&self, key: &[u8]) -> (p: usize)
        requires
            self.wf(),
        ensures
            is_lower_bound(self.entries(), key@, p as int),
    {
        let mut lo: usize = 0;
        let mut hi: usize = self.entries.len();
        while lo < hi
            invariant
                self.wf(),
                lo <= hi <= self.entries().len(),
                self.entries().len() == self.entries@.len(),
                forall|i: int| 0 <= i < lo ==> lex_lt((#[trigger] self.entries()[i]).0, key@),
                forall|i: int|
                    hi <= i < self.entries().len() ==> !lex_lt(
                        (#[trigger] self.entries()[i]).0,
                        key@,
                    ),
            decreases hi - lo,
        {
            let mid: usize = lo + (hi - lo) / 2;
            let ghost s = self.entries();
            let ghost m = s[mid as int].0;
            match order_of(self.entries[mid].0.as_slice(), key) {
                ByteOrder::Less => {
                    proof {
                        assert forall|i: int| 0 <= i < mid + 1 implies lex_lt(
                            (#[trigger] s[i]).0,
                            key@,
                        ) by {
                            if i < mid {
                                assert(lex_lt(s[i].0, s[mid as int].0));
                                lemma_lex_lt_transitive(s[i].0, m, key@);
                            }
                        }
                    }
                    lo = mid + 1;
                },
                _ => {
                    proof {
                        assert forall|i: int| mid <= i < s.len() implies !lex_lt(
                            (#[trigger] s[i]).0,
                            key@,
                        ) by {
                            if mid < i && lex_lt(s[i].0, key@) {
                                assert(lex_lt(s[mid as int].0, s[i].0));
                                lemma_lex_lt_transitive(m, s[i].0, key@);
                            }
                        }
                    }
                    hi = mid;
                },
            }
        }
        lo
    }

    /// Tells whether the entry at position `p` exists and has the key `key`.
    fn holds_at(&self, p: usize, key: &[u8]) -> (r: bool)
        requires
            p <= self.entries().len(),
        ensures
            r == (p < self.entries().len() && self.entries()[p as int].0 == key@),
    {
        if p < self.entries.len() {
            match order_of(self.entries[p].0.as_slice(), key) {
                ByteOrder::Equal => true,
                _ => false,
            }
        } else {
            false
        }
    }

    /// Looks `key` up.
    pub fn get(&self, key: &[u8]) -> (r: Option<Vec<u8>>)
        requires
            self.wf(),
        ensures
            match r {
                Some(v) => self@.contains_key(key@) && v@ == self@[key@],
                None => !self@.contains_key(key@),
            },
    {
        let p = self.lower_bound(key);
        if self.holds_at(p, key) {
            proof {
                lemma_position(self.entries(), p as int);
            }
            Some(slice_to_vec(self.entries[p].1.as_slice()))
        } else {
            proof {
                lemma_absent(self.entries(), key@, p as int);
            }
            None
        }
    }

    /// Binds `key` to `value`, overwriting what it was bound to.
    pub fn insert(&mut self, key: Vec<u8>, value: Vec<u8>)
        requires
            old(self).wf(),
        ensures
            final(self).wf(),
            final(self)@ == old(self)@.insert(key@, value@),
    {
        let p = self.lower_bound(key.as_slice());
        let ghost s = self.entries();
        if self.holds_at(p, key.as_slice()) {
            self.entries.set(p, (key, value));
            proof {
                lemma_overwrite(s, key@, value@, p as int);
                assert(self.entries() =~= s.update(p as int, (key@, value@)));
            }
        } else {
            self.entries.insert(p, (key, value));
            proof {
                lemma_insert_new(s, key@, value@, p as int);
                assert(self.entries() =~= s.insert(p as int, (key@, value@)));
            }
        }
    }

    /// Unbinds `key`; a key that is not bound is left so.
    pub fn remove(&mut self, key: &[u8])
        requires
            old(self).wf(),
        ensures
            final(self).wf(),
            final(self)@ == old(self)@.remove(key@),
    {
        let p = self.lower_bound(key);
        let ghost s = self.entries();
        if self.holds_at(p, key) {
            self.entries.remove(p);
            proof {
                lemma_remove(s, p as int);
                assert(self.entries() =~= s.remove(p as int));
            }
        } else {
            proof {
                lemma_absent(s, key@, p as int);
                assert(self@ =~= self@.remove(key@));
            }
        }
    }
}

} // verus!
