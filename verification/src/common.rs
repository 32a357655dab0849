//! Column-family key encoding, the mutation records, and the requests and
//! replies of the store.

use crate::byte_order::{is_prefix, lemma_lex_lt_common_prefix, lex_le, lex_lt, starts_with};
use crate::snapshot::Failure;
use crate::sorted_map::entries_of;
use crate::families::lists_families;
use crate::scan::scan_result;
use crate::storage::{
    loaded, lookup, saved, scan_sound, StandaloneStorage, StorageReader,
};
use vstd::prelude::*;
use vstd::slice::{slice_subrange, slice_to_vec};
use vstd::utf8::{
    encode_utf8, encode_utf8_decode_utf8, encode_utf8_valid_utf8, length_of_first_scalar,
    pop_first_scalar, valid_utf8,
};

verus! {

/// The byte that separates a column family's name from the raw key. It is
/// a byte that no UTF-8 text holds, so it cannot occur in a name: the first
/// separator of an encoded key is where the name ends, whatever bytes the
/// raw key holds. A separator that a name could hold, such as an underscore,
/// would let two different pairs of a name and a raw key share one encoded
/// key.
pub const CF_SEPARATOR: u8 = 0xff;

/// What every encoded key of the column family `cf` starts with: the UTF-8
/// bytes of the name, then the separator.
pub open spec fn cf_prefix(cf: Seq<char>) -> Seq<u8> {
    encode_utf8(cf).push(CF_SEPARATOR)
}

/// The key under which the store holds the raw key `key` of the column
/// family `cf`: the family's prefix, then the raw key. No two pairs of a
/// name and a raw key have the same encoded key (see
/// `lemma_encoded_keys_do_not_collide`).
pub open spec fn encoded_key(cf: Seq<char>, key: Seq<u8>) -> Seq<u8> {
    cf_prefix(cf) + key
}

/// The raw key that `encoded` stands for in the column family `cf`, if it
/// belongs to it.
pub open spec fn decoded_key(cf: Seq<char>, encoded: Seq<u8>) -> Option<Seq<u8>> {
    if is_prefix(cf_prefix(cf), encoded) {
        Some(encoded.skip(cf_prefix(cf).len() as int))
    } else {
        None
    }
}

/// Decoding undoes encoding.
pub proof fn lemma_decode_encode(cf: Seq<char>, key: Seq<u8>)
    ensures
        decoded_key(cf, encoded_key(cf, key)) == Some(key),
{
    let p = cf_prefix(cf);
    assert((p + key).subrange(0, p.len() as int) =~= p);
    assert((p + key).skip(p.len() as int) =~= key);
}

/// A key that decodes in a column family is the encoding of what it decodes to.
pub proof fn lemma_encode_decode(cf: Seq<char>, encoded: Seq<u8>)
    requires
        decoded_key(cf, encoded) is Some,
    ensures
        encoded_key(cf, decoded_key(cf, encoded)->0) == encoded,
{
    let p = cf_prefix(cf);
    assert(encoded.subrange(0, p.len() as int) + encoded.skip(p.len() as int) =~= encoded);
}

/// Within one column family, encoding is injective.
pub proof fn lemma_encoded_key_injective(cf: Seq<char>, k1: Seq<u8>, k2: Seq<u8>)
    ensures
        encoded_key(cf, k1) == encoded_key(cf, k2) <==> k1 == k2,
{
    lemma_decode_encode(cf, k1);
    lemma_decode_encode(cf, k2);
}

/// No byte of well-formed UTF-8 is the separator.
pub proof fn lemma_utf8_has_no_separator(bytes: Seq<u8>)
    requires
        valid_utf8(bytes),
    ensures
        !bytes.contains(CF_SEPARATOR),
    decreases bytes.len(),
{
    if bytes.len() > 0 {
        let n = length_of_first_scalar(bytes);
        let rest = pop_first_scalar(bytes);
        assert(1 <= n <= 4 && n <= bytes.len());
        lemma_utf8_has_no_separator(rest);
        assert forall|i: int| 0 <= i < bytes.len() implies bytes[i] != CF_SEPARATOR by {
            if i >= n {
                assert(bytes[i] == rest[i - n]);
                assert(rest.contains(rest[i - n]));
            }
        }
    }
}

/// The name of a column family never holds the separator.
pub proof fn lemma_name_has_no_separator(cf: Seq<char>)
    ensures
        !encode_utf8(cf).contains(CF_SEPARATOR),
{
    encode_utf8_valid_utf8(cf);
    lemma_utf8_has_no_separator(encode_utf8(cf));
}

/// The encoding is free of collisions: two pairs of a column family and a
/// raw key have the same encoded key only if they are the same pair.
pub proof fn lemma_encoded_keys_do_not_collide(
    cf1: Seq<char>,
    key1: Seq<u8>,
    cf2: Seq<char>,
    key2: Seq<u8>,
)
    ensures
        encoded_key(cf1, key1) == encoded_key(cf2, key2) <==> cf1 == cf2 && key1 == key2,
{
    if encoded_key(cf1, key1) == encoded_key(cf2, key2) {
        let k = encoded_key(cf1, key1);
        let e1 = encode_utf8(cf1);
        let e2 = encode_utf8(cf2);
        lemma_name_has_no_separator(cf1);
        lemma_name_has_no_separator(cf2);
        assert(k[e1.len() as int] == CF_SEPARATOR);
        assert(encoded_key(cf2, key2)[e2.len() as int] == CF_SEPARATOR);
        if e1.len() < e2.len() {
            assert(k[e1.len() as int] == e2[e1.len() as int]);
            assert(e2.contains(CF_SEPARATOR));
        } else if e2.len() < e1.len() {
            assert(k[e2.len() as int] == e1[e2.len() as int]);
            assert(e1.contains(CF_SEPARATOR));
        }
        assert(e1 =~= k.subrange(0, e1.len() as int));
        assert(e2 =~= k.subrange(0, e2.len() as int));
        encode_utf8_decode_utf8(cf1);
        encode_utf8_decode_utf8(cf2);
        lemma_encoded_key_injective(cf1, key1, key2);
    }
}

/// Encoding keeps the order of the raw keys of one column family.
pub proof fn lemma_encoded_key_order(cf: Seq<char>, k1: Seq<u8>, k2: Seq<u8>)
    ensures
        lex_lt(encoded_key(cf, k1), encoded_key(cf, k2)) == lex_lt(k1, k2),
{
    lemma_lex_lt_common_prefix(cf_prefix(cf), k1, k2);
}

/// Encodes a raw key of the column family `cf`.
pub fn key_with_cf(cf: &str, key: &[u8]) -> (prefixed: Vec<u8>)
    ensures
        prefixed@ == encoded_key(cf@, key@),
{
    let mut prefixed = slice_to_vec(cf.as_bytes());
    prefixed.push(CF_SEPARATOR);
    let mut i: usize = 0;
    while i < key.len()
        invariant
            i <= key@.len(),
            prefixed@ == cf_prefix(cf@) + key@.subrange(0, i as int),
        decreases key@.len() - i,
    {
        prefixed.push(key[i]);
        proof {
            assert(key@.subrange(0, i + 1) =~= key@.subrange(0, i as int).push(key@[i as int]));
            assert(prefixed@ =~= cf_prefix(cf@) + key@.subrange(0, i + 1));
        }
        i += 1;
    }
    proof {
        assert(key@.subrange(0, i as int) =~= key@);
    }
    prefixed
}

/// Decodes an encoded key against the column family `cf`: the raw key where
/// `key` starts with the family's prefix, `None` where it does not.
pub fn strip_cf_prefix<'a>(cf: &str, key: &'a [u8]) -> (raw: Option<&'a [u8]>)
    ensures
        match raw {
            Some(r) => decoded_key(cf@, key@) == Some(r@),
            None => decoded_key(cf@, key@) is None,
        },
{
    let mut prefix = slice_to_vec(cf.as_bytes());
    prefix.push(CF_SEPARATOR);
    if starts_with(key, prefix.as_slice()) {
        let r = slice_subrange(key, prefix.len(), key.len());
        Some(r)
    } else {
        None
    }
}

/// The kind of a mutation.
#[derive(Debug, Clone, Copy, PartialEq, Eq)]
pub enum ModifyOp {
    Put,
    Delete,
}

/// One mutation of the store: a put or a delete of one raw key of one
/// column family.
#[derive(Debug, Clone, PartialEq, Eq)]
pub struct Modify {
    pub op: ModifyOp,
    pub cf: String,
    pub key: Vec<u8>,
    pub value: Vec<u8>,
}

impl Modify {
    /// The encoded key that the mutation is about.
    pub open spec fn target(&self) -> Seq<u8> {
        encoded_key(self.cf@, self.key@)
    }

    /// The mutation is about the raw key `key` of the column family `cf`.
    pub open spec fn names(&self, cf: Seq<char>, key: Seq<u8>) -> bool {
        self.cf@ == cf && self.key@ == key
    }

    /// The contents after the mutation, given the contents before it.
    pub open spec fn apply(&self, m: Map<Seq<u8>, Seq<u8>>) -> Map<Seq<u8>, Seq<u8>> {
        match self.op {
            ModifyOp::Put => m.insert(self.target(), self.value@),
            ModifyOp::Delete => m.remove(self.target()),
        }
    }

    /// The mutation that binds `key` to `value` in the column family `cf`.
    pub fn new_put(cf: String, key: Vec<u8>, value: Vec<u8>) -> (m: Self)
        ensures
            m.op == ModifyOp::Put,
            m.cf == cf,
            m.key == key,
            m.value == value,
    {
        Modify { op: ModifyOp::Put, cf, key, value }
    }

    /// The mutation that unbinds `key` in the column family `cf`.
    pub fn new_delete(cf: String, key: Vec<u8>) -> (m: Self)
        ensures
            m.op == ModifyOp::Delete,
            m.cf == cf,
            m.key == key,
            m.value@ == Seq::<u8>::empty(),
    {
        Modify { op: ModifyOp::Delete, cf, key, value: Vec::new() }
    }
}

/// The contents after a batch of mutations applied in order, so that of
/// several mutations of one key the last decides.
pub open spec fn apply_batch(m: Map<Seq<u8>, Seq<u8>>, batch: Seq<Modify>) -> Map<
    Seq<u8>,
    Seq<u8>,
>
    decreases batch.len(),
{
    if batch.len() == 0 {
        m
    } else {
        batch.last().apply(apply_batch(m, batch.drop_last()))
    }
}

/// Some mutation of `batch` is about the raw key `key` of the column family
/// `cf`.
pub open spec fn batch_names(batch: Seq<Modify>, cf: Seq<char>, key: Seq<u8>) -> bool {
    exists|i: int| 0 <= i < batch.len() && (#[trigger] batch[i]).names(cf, key)
}

/// A batch leaves alone what it does not name: for a raw key of a column
/// family that no mutation of the batch is about, the contents hold after
/// the batch what they held before it.
pub proof fn lemma_batch_leaves_unnamed(
    m: Map<Seq<u8>, Seq<u8>>,
    batch: Seq<Modify>,
    cf: Seq<char>,
    key: Seq<u8>,
)
    requires
        !batch_names(batch, cf, key),
    ensures
        lookup(apply_batch(m, batch), cf, key) == lookup(m, cf, key),
    decreases batch.len(),
{
    if batch.len() > 0 {
        let front = batch.drop_last();
        let last = batch.last();
        assert(last == batch[batch.len() - 1]);
        assert(!last.names(cf, key));
        assert forall|i: int| 0 <= i < front.len() implies !(#[trigger] front[i]).names(
            cf,
            key,
        ) by {
            assert(front[i] == batch[i]);
        }
        lemma_batch_leaves_unnamed(m, front, cf, key);
        lemma_encoded_keys_do_not_collide(last.cf@, last.key@, cf, key);
    }
}

/// In a batch the last mutation of a key wins: where no later mutation of
/// the batch is about the key of the mutation at `i`, the contents after the
/// batch hold for that key what that mutation left.
pub proof fn lemma_last_mutation_wins(m: Map<Seq<u8>, Seq<u8>>, batch: Seq<Modify>, i: int)
    requires
        0 <= i < batch.len(),
        forall|j: int| i < j < batch.len() ==> (#[trigger] batch[j]).target() != batch[i].target(),
    ensures
        batch[i].op == ModifyOp::Put ==> {
            &&& apply_batch(m, batch).contains_key(batch[i].target())
            &&& apply_batch(m, batch)[batch[i].target()] == batch[i].value@
        },
        batch[i].op == ModifyOp::Delete ==> !apply_batch(m, batch).contains_key(batch[i].target()),
    decreases batch.len(),
{
    let front = batch.drop_last();
    if i < batch.len() - 1 {
        assert(front[i] == batch[i]);
        assert forall|j: int| i < j < front.len() implies (#[trigger] front[j]).target()
            != front[i].target() by {
            assert(front[j] == batch[j]);
        }
        lemma_last_mutation_wins(m, front, i);
        assert(batch.last() == batch[batch.len() - 1]);
    }
}

/// A request to the store.
#[derive(Debug, Clone, PartialEq, Eq)]
pub enum Command {
    Get { cf: String, key: Vec<u8> },
    Put { cf: String, key: Vec<u8>, value: Vec<u8> },
    Delete { cf: String, key: Vec<u8> },
    Scan { cf: String, start_key: Vec<u8>, end_key: Option<Vec<u8>>, limit: usize },
    Info,
    Flush,
    Compact,
}

/// A reply of the store.
#[derive(Debug, Clone, PartialEq, Eq)]
pub enum Response {
    Success,
    Value(Option<Vec<u8>>),
    Values(Vec<(Vec<u8>, Vec<u8>)>),
    Error(String),
    Info { total_keys: usize, column_families: Vec<String> },
}

/// A reply as plain values.
pub enum ResponseView {
    Success,
    Value(Option<Seq<u8>>),
    Values(Seq<(Seq<u8>, Seq<u8>)>),
    Error(Seq<char>),
    Info { total_keys: nat, column_families: Seq<Seq<char>> },
}

/// An optional byte string as plain values.
pub open spec fn bytes_view(v: Option<Vec<u8>>) -> Option<Seq<u8>> {
    match v {
        Some(b) => Some(b@),
        None => None,
    }
}

/// An optional byte slice as plain values.
pub open spec fn slice_view(v: Option<&[u8]>) -> Option<Seq<u8>> {
    match v {
        Some(b) => Some(b@),
        None => None,
    }
}

/// A list of names as plain values.
pub open spec fn names_view(v: Seq<String>) -> Seq<Seq<char>> {
    Seq::new(v.len(), |i: int| v[i]@)
}

impl View for Response {
    type V = ResponseView;

    open spec fn view(&self) -> ResponseView {
        match self {
            Response::Success => ResponseView::Success,
            Response::Value(v) => ResponseView::Value(bytes_view(*v)),
            Response::Values(v) => ResponseView::Values(entries_of(v@)),
            Response::Error(e) => ResponseView::Error(e@),
            Response::Info { total_keys, column_families } => ResponseView::Info {
                total_keys: *total_keys as nat,
                column_families: names_view(column_families@),
            },
        }
    }
}

/// What the store asks for in answer to a request: to send a reply, or
/// first to write a snapshot and then to reply according to how the write
/// went (see `RawKeyValueApi::flush_response`).
#[derive(Debug, Clone, PartialEq, Eq)]
pub enum Dispatch {
    Reply(Response),
    Persist(String),
}

impl Command {
    /// The request changes the contents of the store: it is a put or a
    /// delete. Every other request only reads.
    pub open spec fn changes_contents(&self) -> bool {
        self is Put || self is Delete
    }

    /// Tells whether the request changes the contents of the store, and so
    /// needs exclusive access to it.
    #[verifier::when_used_as_spec(changes_contents)]
    pub fn mutates(&self) -> (b: bool)
        ensures
            b == self.changes_contents(),
    {
        match self {
            Command::Put { .. } => true,
            Command::Delete { .. } => true,
            _ => false,
        }
    }

    /// The contents after the request, given the contents before it.
    pub open spec fn effect(&self, m: Map<Seq<u8>, Seq<u8>>) -> Map<Seq<u8>, Seq<u8>> {
        match self {
            Command::Put { cf, key, value } => m.insert(encoded_key(cf@, key@), value@),
            Command::Delete { cf, key } => m.remove(encoded_key(cf@, key@)),
            _ => m,
        }
    }

    /// The request is a put or a delete of the raw key `key` of the column
    /// family `cf`.
    pub open spec fn names(&self, cf: Seq<char>, key: Seq<u8>) -> bool {
        match self {
            Command::Put { cf: c, key: k, .. } => c@ == cf && k@ == key,
            Command::Delete { cf: c, key: k } => c@ == cf && k@ == key,
            _ => false,
        }
    }

    /// A request leaves alone what it does not name: for a raw key of a
    /// column family that the request is no put or delete of, the contents
    /// hold after the request what they held before it.
    pub proof fn lemma_effect_leaves_unnamed(
        &self,
        m: Map<Seq<u8>, Seq<u8>>,
        cf: Seq<char>,
        key: Seq<u8>,
    )
        requires
            !self.names(cf, key),
        ensures
            lookup(self.effect(m), cf, key) == lookup(m, cf, key),
    {
        match self {
            Command::Put { cf: c, key: k, .. } => {
                lemma_encoded_keys_do_not_collide(c@, k@, cf, key);
            },
            Command::Delete { cf: c, key: k } => {
                lemma_encoded_keys_do_not_collide(c@, k@, cf, key);
            },
            _ => {},
        }
    }

    /// `out` is the answer to the request on a store with the contents `m`
    /// that persists under `directory`.
    pub open spec fn answered_by(
        &self,
        m: Map<Seq<u8>, Seq<u8>>,
        directory: Seq<char>,
        out: Dispatch,
    ) -> bool {
        match self {
            Command::Get { cf, key } => out matches Dispatch::Reply(r) && r@ == ResponseView::Value(
                lookup(m, cf@, key@),
            ),
            Command::Put { .. } | Command::Delete { .. } | Command::Compact => {
                out matches Dispatch::Reply(r) && r@ == ResponseView::Success
            },
            Command::Scan { cf, start_key, end_key, limit } => out matches Dispatch::Reply(r) && r@
                == ResponseView::Values(
                scan_result(m, cf@, start_key@, bytes_view(*end_key), *limit as nat),
            ),
            Command::Info => out matches Dispatch::Reply(r) && (r@ matches ResponseView::Info {
                total_keys,
                column_families,
            } && m.dom().finite() && total_keys == m.dom().len() && lists_families(
                column_families,
                m,
            )),
            Command::Flush => match saved(m, directory) {
                Ok(None) => out matches Dispatch::Reply(r) && r@ == ResponseView::Success,
                Ok(Some(text)) => out matches Dispatch::Persist(t) && t@ == text,
                Err(_) => out matches Dispatch::Reply(r) && (r@ matches ResponseView::Error(msg)
                    && Failure::Serialize.reported_by(msg)),
            },
        }
    }
}

/// The store as its clients see it: raw gets, puts, deletes and scans, and
/// the dispatch of requests to them.
pub struct RawKeyValueApi {
    storage: StandaloneStorage,
}

impl View for RawKeyValueApi {
    type V = Map<Seq<u8>, Seq<u8>>;

    /// The contents of the store.
    closed spec fn view(&self) -> Map<Seq<u8>, Seq<u8>> {
        self.storage@
    }
}

impl RawKeyValueApi {
    /// The invariant of the storage engine holds.
    pub closed spec fn wf(&self) -> bool {
        self.storage.wf()
    }

    /// The directory under which the store persists; empty where it does not.
    pub closed spec fn directory(&self) -> Seq<char> {
        self.storage.directory()
    }

    /// What a scan returns: at most `limit` entries, in strictly ascending
    /// order of their raw keys, each with a raw key from `start` up to, and
    /// without, `end`, and each an entry of the column family `cf`.
    pub proof fn lemma_scan_result(
        self,
        cf: Seq<char>,
        start: Seq<u8>,
        end: Option<Seq<u8>>,
        limit: nat,
    )
        requires
            self.wf(),
        ensures
            scan_sound(self@, cf, start, end, limit),
    {
        self.storage.lemma_scan_result(cf, start, end, limit);
    }

    /// A scan that stays under its limit misses nothing: it returns every
    /// entry of the column family `cf` with a raw key from `start` up to,
    /// and without, `end`.
    pub proof fn lemma_scan_complete(
        self,
        cf: Seq<char>,
        start: Seq<u8>,
        end: Option<Seq<u8>>,
        limit: nat,
        key: Seq<u8>,
    )
        requires
            self.wf(),
            lookup(self@, cf, key) is Some,
            lex_le(start, key),
            end matches Some(bound) ==> lex_lt(key, bound),
            scan_result(self@, cf, start, end, limit).len() < limit,
        ensures
            scan_result(self@, cf, start, end, limit).contains((key, lookup(self@, cf, key)->0)),
    {
        self.storage.lemma_scan_complete(cf, start, end, limit, key);
    }

    /// A flush followed by a fresh open restores the contents: where `text`
    /// is the snapshot that a flush prepares, a store opened under the same
    /// path with that snapshot has the contents that this store had.
    pub proof fn lemma_flush_then_open(self, text: Seq<char>)
        requires
            self.wf(),
            saved(self@, self.directory()) == Ok::<Option<Seq<char>>, ()>(Some(text)),
        ensures
            forall|before: Map<Seq<u8>, Seq<u8>>| #[trigger]
                loaded(before, self.directory(), Some(text)) == Some(self@),
    {
        self.storage.lemma_flush_then_open(text);
    }

    /// The store `storage` as its clients see it.
    pub fn new(storage: StandaloneStorage) -> (api: Self)
        requires
            storage.wf(),
        ensures
            api.wf(),
            api@ == storage@,
            api.directory() == storage.directory(),
    {
        RawKeyValueApi { storage }
    }

    /// The value of the raw key `key` of the column family `cf`, if it has one.
    pub fn raw_get(&self, cf: &str, key: &[u8]) -> (r: Result<Option<Vec<u8>>, String>)
        requires
            self.wf(),
        ensures
            r matches Ok(v) && bytes_view(v) == lookup(self@, cf@, key@),
    {
        match self.storage.reader() {
            Ok(reader) => reader.get_cf(cf, key),
            Err(e) => Err(e),
        }
    }

    /// Binds the raw key `key` of the column family `cf` to `value`.
    pub fn raw_put(&mut self, cf: String, key: Vec<u8>, value: Vec<u8>) -> (r: Result<(), String>)
        requires
            old(self).wf(),
        ensures
            r is Ok,
            final(self).wf(),
            final(self).directory() == old(self).directory(),
            final(self)@ == old(self)@.insert(encoded_key(cf@, key@), value@),
            lookup(final(self)@, cf@, key@) == Some(value@),
            forall|c: Seq<char>, k: Seq<u8>|
                c != cf@ || k != key@ ==> #[trigger] lookup(final(self)@, c, k) == lookup(
                    old(self)@,
                    c,
                    k,
                ),
    {
        let modify = Modify::new_put(cf, key, value);
        let batch = vec![modify];
        proof {
            assert(batch@.drop_last() =~= Seq::<Modify>::empty());
            assert(batch@.last() == modify);
            reveal_with_fuel(apply_batch, 2);
            assert forall|c: Seq<char>, k: Seq<u8>| c != cf@ || k != key@ implies #[trigger] lookup(
                old(self)@.insert(encoded_key(cf@, key@), value@),
                c,
                k,
            ) == lookup(old(self)@, c, k) by {
                lemma_encoded_keys_do_not_collide(cf@, key@, c, k);
            }
        }
        self.storage.write(batch)
    }

    /// Unbinds the raw key `key` of the column family `cf`; to delete a key
    /// that is not bound changes nothing and succeeds.
    pub fn raw_delete(&mut self, cf: String, key: Vec<u8>) -> (r: Result<(), String>)
        requires
            old(self).wf(),
        ensures
            r is Ok,
            final(self).wf(),
            final(self).directory() == old(self).directory(),
            final(self)@ == old(self)@.remove(encoded_key(cf@, key@)),
            lookup(final(self)@, cf@, key@) is None,
            forall|c: Seq<char>, k: Seq<u8>|
                c != cf@ || k != key@ ==> #[trigger] lookup(final(self)@, c, k) == lookup(
                    old(self)@,
                    c,
                    k,
                ),
    {
        let modify = Modify::new_delete(cf, key);
        let batch = vec![modify];
        proof {
            assert(batch@.drop_last() =~= Seq::<Modify>::empty());
            assert(batch@.last() == modify);
            reveal_with_fuel(apply_batch, 2);
            assert forall|c: Seq<char>, k: Seq<u8>| c != cf@ || k != key@ implies #[trigger] lookup(
                old(self)@.remove(encoded_key(cf@, key@)),
                c,
                k,
            ) == lookup(old(self)@, c, k) by {
                lemma_encoded_keys_do_not_collide(cf@, key@, c, k);
            }
        }
        self.storage.write(batch)
    }

    /// The entries of the column family `cf` with raw keys from `start_key`
    /// up to, and without, `end_key`, in ascending order, at most `limit`.
    pub fn raw_scan(&self, cf: &str, start_key: &[u8], end_key: Option<&[u8]>, limit: usize) -> (r:
        Result<Vec<(Vec<u8>, Vec<u8>)>, String>)
        requires
            self.wf(),
        ensures
            r matches Ok(v) && entries_of(v@) == scan_result(
                self@,
                cf@,
                start_key@,
                slice_view(end_key),
                limit as nat,
            ),
            scan_sound(self@, cf@, start_key@, slice_view(end_key), limit as nat),
    {
        proof {
            self.storage.lemma_scan_result(cf@, start_key@, slice_view(end_key), limit as nat);
        }
        match self.storage.reader() {
            Ok(reader) => reader.scan_cf(cf, start_key, end_key, limit),
            Err(e) => Err(e),
        }
    }

    /// Carries out a request that does not change the contents, for which
    /// shared access to the store is enough.
    pub fn handle_query(&self, cmd: Command) -> (out: Dispatch)
        requires
            self.wf(),
            !cmd.mutates(),
        ensures
            cmd.answered_by(self@, self.directory(), out),
    {
        match cmd {
            Command::Get { cf, key } => {
                match self.raw_get(cf.as_str(), key.as_slice()) {
                    Ok(value) => Dispatch::Reply(Response::Value(value)),
                    Err(e) => Dispatch::Reply(Response::Error(e)),
                }
            },
            Command::Scan { cf, start_key, end_key, limit } => {
                let end: Option<&[u8]> = match &end_key {
                    Some(k) => Some(k.as_slice()),
                    None => None,
                };
                match self.raw_scan(cf.as_str(), start_key.as_slice(), end, limit) {
                    Ok(values) => Dispatch::Reply(Response::Values(values)),
                    Err(e) => Dispatch::Reply(Response::Error(e)),
                }
            },
            Command::Info => {
                match self.storage.get_stats() {
                    Ok((total_keys, cfs)) => Dispatch::Reply(
                        Response::Info { total_keys, column_families: cfs },
                    ),
                    Err(e) => Dispatch::Reply(Response::Error(e)),
                }
            },
            Command::Flush => {
                match self.storage.flush() {
                    Ok(Some(text)) => Dispatch::Persist(text),
                    Ok(None) => Dispatch::Reply(Response::Success),
                    Err(e) => Dispatch::Reply(Response::Error(e)),
                }
            },
            _ => Dispatch::Reply(Response::Success),
        }
    }

    /// Carries out one request. Every request but a flush of a persisted
    /// store is answered with a reply; for such a flush the answer is the
    /// snapshot to write.
    pub fn handle_command(&mut self, cmd: Command) -> (out: Dispatch)
        requires
            old(self).wf(),
        ensures
            final(self).wf(),
            final(self).directory() == old(self).directory(),
            final(self)@ == cmd.effect(old(self)@),
            cmd.answered_by(old(self)@, old(self).directory(), out),
    {
        match cmd {
            Command::Put { cf, key, value } => {
                match self.raw_put(cf, key, value) {
                    Ok(_) => Dispatch::Reply(Response::Success),
                    Err(e) => Dispatch::Reply(Response::Error(e)),
                }
            },
            Command::Delete { cf, key } => {
                match self.raw_delete(cf, key) {
                    Ok(_) => Dispatch::Reply(Response::Success),
                    Err(e) => Dispatch::Reply(Response::Error(e)),
                }
            },
            query => self.handle_query(query),
        }
    }

    /// The reply to a flush whose snapshot was handed out for writing:
    /// success where the write succeeded, else the error with its message.
    pub fn flush_response(outcome: Result<(), String>) -> (r: Response)
        ensures
            r@ == match outcome {
                Ok(_) => ResponseView::Success,
                Err(e) => ResponseView::Error(e@),
            },
    {
        match outcome {
            Ok(_) => Response::Success,
            Err(e) => Response::Error(e),
        }
    }
}

/// Namespace isolation: after a put of the raw key `key` in the column
/// family `a` and then in another column family `b`, each column family
/// holds its own value for the key.
pub proof fn lemma_namespace_isolation(
    m: Map<Seq<u8>, Seq<u8>>,
    a: Seq<char>,
    b: Seq<char>,
    key: Seq<u8>,
    v1: Seq<u8>,
    v2: Seq<u8>,
)
    requires
        a != b,
    ensures
        ({
            let after = m.insert(encoded_key(a, key), v1).insert(encoded_key(b, key), v2);
            &&& lookup(after, a, key) == Some(v1)
            &&& lookup(after, b, key) == Some(v2)
        }),
{
    lemma_encoded_keys_do_not_collide(a, key, b, key);
}

/// After a delete of a key the store holds nothing for it, whatever it held
/// before; and to delete a key that the store does not hold changes nothing.
pub proof fn lemma_delete(m: Map<Seq<u8>, Seq<u8>>, cf: Seq<char>, key: Seq<u8>)
    ensures
        lookup(m.remove(encoded_key(cf, key)), cf, key) is None,
        lookup(m, cf, key) is None ==> m.remove(encoded_key(cf, key)) == m,
{
    if lookup(m, cf, key) is None {
        assert(m.remove(encoded_key(cf, key)) =~= m);
    }
}

/// A put is idempotent: applied twice it leaves what it leaves applied once.
pub proof fn lemma_put_idempotent(m: Map<Seq<u8>, Seq<u8>>, put: Modify)
    requires
        put.op == ModifyOp::Put,
    ensures
        put.apply(put.apply(m)) == put.apply(m),
        apply_batch(m, seq![put, put]) == apply_batch(m, seq![put]),
{
    assert(put.apply(put.apply(m)) =~= put.apply(m));
    let two = seq![put, put];
    let one = seq![put];
    assert(two.drop_last() =~= one);
    assert(one.drop_last() =~= Seq::<Modify>::empty());
    reveal_with_fuel(apply_batch, 3);
}

} // verus!
