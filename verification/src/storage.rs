//! The storage engine: the contents of the store, point lookup, batched
//! mutation, statistics, and the snapshot that is saved and loaded.

use crate::byte_order::{
    lemma_lex_lt_asymmetric, lemma_lex_lt_irreflexive, lemma_lex_lt_total,
    lemma_lex_lt_transitive, lex_le, lex_lt, order_of, ByteOrder,
};
use crate::common::{
    apply_batch, batch_names, bytes_view, encoded_key, key_with_cf, lemma_batch_leaves_unnamed,
    lemma_decode_encode,
    lemma_encoded_key_injective, lemma_encoded_key_order, names_view, slice_view, strip_cf_prefix,
    Modify, ModifyOp,
};
use crate::families::{
    family_parts, has_family, lemma_family_parts_listed, lists_families, named, utf8_names,
};
use crate::scan::{
    in_scan, lemma_scan_all_complete, lemma_scan_all_none, lemma_scan_all_sound,
    lemma_scan_all_split, scan_all, scan_result, scanned_from,
};
use crate::snapshot::{from_json, json_error_text, parsed_json, pretty_json, to_json, Failure};
use crate::sorted_map::{
    ascending, entries_equal, entries_of, lemma_insert_new, lemma_position, map_of, position,
    strictly_sorted, SortedMap,
};
use vstd::prelude::*;
use vstd::slice::slice_to_vec;
use vstd::string::StringExecFns;
use vstd::utf8::{encode_utf8, encode_utf8_decode_utf8, encode_utf8_valid_utf8};

verus! {


/// What the contents `m` hold for the raw key `key` of the column family `cf`.
pub open spec fn lookup(m: Map<Seq<u8>, Seq<u8>>, cf: Seq<char>, key: Seq<u8>) -> Option<Seq<u8>> {
    if m.contains_key(encoded_key(cf, key)) {
        Some(m[encoded_key(cf, key)])
    } else {
        None
    }
}

/// A read-only view of a store, for point lookups and range scans.
pub trait StorageReader {
    /// The contents that the reader sees.
    spec fn contents(&self) -> Map<Seq<u8>, Seq<u8>>;

    /// The reader is in a state in which it can be asked.
    spec fn valid(&self) -> bool;

    /// Looks up the raw key `key` of the column family `cf`. That the key is
    /// not bound is no error.
    fn get_cf(&self, cf: &str, key: &[u8]) -> (r: Result<Option<Vec<u8>>, String>)
        requires
            self.valid(),
        ensures
            r matches Ok(v) ==> bytes_view(v) == lookup(self.contents(), cf@, key@),
    ;

    /// Returns, in ascending key order and under their raw keys, the entries
    /// of the column family `cf` from `start_key` up to, and without,
    /// `end_key`, and at most `limit` of them.
    fn scan_cf(&self, cf: &str, start_key: &[u8], end_key: Option<&[u8]>, limit: usize) -> (r:
        Result<Vec<(Vec<u8>, Vec<u8>)>, String>)
        requires
            self.valid(),
        ensures
            r matches Ok(v) ==> entries_of(v@) == scan_result(
                self.contents(),
                cf@,
                start_key@,
                slice_view(end_key),
                limit as nat,
            ),
    ;
}

/// The reader of a `StandaloneStorage`.
pub struct StandaloneStorageReader<'a> {
    data: &'a SortedMap,
}

impl<'a> StorageReader for StandaloneStorageReader<'a> {
    closed spec fn contents(&self) -> Map<Seq<u8>, Seq<u8>> {
        self.data@
    }

    closed spec fn valid(&self) -> bool {
        self.data.wf()
    }

    fn get_cf(&self, cf: &str, key: &[u8]) -> (r: Result<Option<Vec<u8>>, String>)
        ensures
            r is Ok,
    {
        let prefixed_key = key_with_cf(cf, key);
        Ok(self.data.get(prefixed_key.as_slice()))
    }

    fn scan_cf(&self, cf: &str, start_key: &[u8], end_key: Option<&[u8]>, limit: usize) -> (r:
        Result<Vec<(Vec<u8>, Vec<u8>)>, String>)
        ensures
            r is Ok,
    {
        let prefixed_start = key_with_cf(cf, start_key);
        let prefixed_end: Option<Vec<u8>> = match end_key {
            Some(k) => Some(key_with_cf(cf, k)),
            None => None,
        };
        let ghost s = self.data.entries();
        let ghost end = slice_view(end_key);
        let mut results: Vec<(Vec<u8>, Vec<u8>)> = Vec::new();
        let n = self.data.len();
        let mut i = self.data.lower_bound(prefixed_start.as_slice());
        let mut past_end = false;
        proof {
            self.data.lemma_entries();
            assert forall|j: int| 0 <= j < s.take(i as int).len() implies !in_scan(
                (#[trigger] s.take(i as int)[j]).0,
                cf@,
                start_key@,
                end,
            ) by {
                assert(s.take(i as int)[j] == s[j]);
                lemma_lex_lt_asymmetric(s[j].0, prefixed_start@);
                lemma_lex_lt_irreflexive(s[j].0);
            }
            lemma_scan_all_none(s.take(i as int), cf@, start_key@, end);
        }
        while i < n && results.len() < limit && !past_end
            invariant
                self.data.wf(),
                s == self.data.entries(),
                n == s.len(),
                i <= n,
                end == slice_view(end_key),
                prefixed_start@ == encoded_key(cf@, start_key@),
                match prefixed_end {
                    Some(e) => end is Some && e@ == encoded_key(cf@, end->0),
                    None => end is None,
                },
                forall|j: int| i <= j < n ==> !lex_lt((#[trigger] s[j]).0, prefixed_start@),
                results@.len() <= limit,
                entries_of(results@) == scan_all(s.take(i as int), cf@, start_key@, end),
                past_end ==> forall|j: int|
                    i <= j < n ==> !in_scan((#[trigger] s[j]).0, cf@, start_key@, end),
            decreases n - i + (if past_end { 0int } else { 1int }),
        {
            let k = self.data.key_at(i);
            let before_end = match &prefixed_end {
                Some(e) => match order_of(k.as_slice(), e.as_slice()) {
                    ByteOrder::Less => true,
                    _ => false,
                },
                None => true,
            };
            if !before_end {
                proof {
                    let e = encoded_key(cf@, end->0);
                    assert forall|j: int| i <= j < n implies !in_scan(
                        (#[trigger] s[j]).0,
                        cf@,
                        start_key@,
                        end,
                    ) by {
                        if i < j && lex_lt(s[j].0, e) {
                            assert(lex_lt(s[i as int].0, s[j].0));
                            lemma_lex_lt_transitive(s[i as int].0, s[j].0, e);
                        }
                    }
                }
                past_end = true;
            } else {
                let ghost t = s.take(i + 1);
                proof {
                    assert(t.drop_last() =~= s.take(i as int));
                    assert(t.last() == s[i as int]);
                    lemma_lex_lt_total(s[i as int].0, prefixed_start@);
                }
                match strip_cf_prefix(cf, k.as_slice()) {
                    Some(raw) => {
                        let v = self.data.value_at(i);
                        results.push((slice_to_vec(raw), slice_to_vec(v.as_slice())));
                        proof {
                            assert(in_scan(s[i as int].0, cf@, start_key@, end));
                            assert(entries_of(results@) =~= scan_all(
                                s.take(i as int),
                                cf@,
                                start_key@,
                                end,
                            ).push((raw@, v@)));
                        }
                    },
                    None => {},
                }
                i += 1;
            }
        }
        proof {
            let all = scan_all(s, cf@, start_key@, end);
            let front = scan_all(s.take(i as int), cf@, start_key@, end);
            lemma_scan_all_split(s, i as int, cf@, start_key@, end);
            if i == n || past_end {
                assert forall|j: int| 0 <= j < s.skip(i as int).len() implies !in_scan(
                    (#[trigger] s.skip(i as int)[j]).0,
                    cf@,
                    start_key@,
                    end,
                ) by {
                    assert(s.skip(i as int)[j] == s[i + j]);
                }
                lemma_scan_all_none(s.skip(i as int), cf@, start_key@, end);
                assert(all =~= front);
            } else {
                assert(all.take(limit as int) =~= front);
            }
        }
        Ok(results)
    }
}

/// What holds of the result of a scan of the contents `m`: it has at most
/// `limit` entries, in strictly ascending order of their raw keys, each
/// with a raw key from `start` up to, and without, `end`, and each an entry
/// of the column family `cf` in `m`.
pub open spec fn scan_sound(
    m: Map<Seq<u8>, Seq<u8>>,
    cf: Seq<char>,
    start: Seq<u8>,
    end: Option<Seq<u8>>,
    limit: nat,
) -> bool {
    let r = scan_result(m, cf, start, end, limit);
    &&& r.len() <= limit
    &&& forall|i: int, j: int|
        0 <= i < j < r.len() ==> lex_lt((#[trigger] r[i]).0, (#[trigger] r[j]).0)
    &&& forall|i: int|
        0 <= i < r.len() ==> {
            let e = #[trigger] r[i];
            &&& lex_le(start, e.0)
            &&& (end matches Some(bound) ==> lex_lt(e.0, bound))
            &&& lookup(m, cf, e.0) == Some(e.1)
        }
}

/// The contents that a list of entries restores: the entries put one after
/// the other, so that of several with one key the last decides.
pub open spec fn load_entries(entries: Seq<(Seq<u8>, Seq<u8>)>) -> Map<Seq<u8>, Seq<u8>>
    decreases entries.len(),
{
    if entries.len() == 0 {
        Map::empty()
    } else {
        load_entries(entries.drop_last()).insert(entries.last().0, entries.last().1)
    }
}

/// An optional text as plain values.
pub open spec fn text_view(t: Option<&str>) -> Option<Seq<char>> {
    match t {
        Some(s) => Some(s@),
        None => None,
    }
}

/// An optional string as plain values.
pub open spec fn text_view_owned(t: Option<String>) -> Option<Seq<char>> {
    match t {
        Some(s) => Some(s@),
        None => None,
    }
}

/// The contents that loading leaves in a store with the contents `before`
/// that persists under `directory`, where `snapshot` is what its snapshot
/// file holds; `None` where loading fails. A store that is not persisted,
/// or has no snapshot file, keeps its contents.
pub open spec fn loaded(
    before: Map<Seq<u8>, Seq<u8>>,
    directory: Seq<char>,
    snapshot: Option<Seq<char>>,
) -> Option<Map<Seq<u8>, Seq<u8>>> {
    if directory.len() == 0 || snapshot is None {
        Some(before)
    } else {
        match parsed_json(snapshot->0) {
            Some(entries) => Some(load_entries(entries)),
            None => None,
        }
    }
}

/// What saving a store with the contents `m` that persists under
/// `directory` prepares: nothing for a store that is not persisted, else
/// the text that lists the entries in ascending key order. It is an error
/// where there is no such text, or where the text does not read back as
/// those entries: a snapshot that would not restore the store is never
/// handed out.
pub open spec fn saved(m: Map<Seq<u8>, Seq<u8>>, directory: Seq<char>) -> Result<
    Option<Seq<char>>,
    (),
> {
    if directory.len() == 0 {
        Ok(None)
    } else {
        match pretty_json(ascending(m)) {
            Some(text) => if parsed_json(text) == Some(ascending(m)) {
                Ok(Some(text))
            } else {
                Err(())
            },
            None => Err(()),
        }
    }
}

/// The name of the snapshot file of a store that persists under `path`.
pub open spec fn snapshot_file_name(path: Seq<char>) -> Seq<char> {
    path + "/data.json"@
}

/// The file that holds the snapshot of a store opened with `path`, or `None`
/// where the path is empty and the store is not persisted.
pub fn snapshot_file(path: &str) -> (r: Option<String>)
    ensures
        match r {
            Some(f) => path@.len() > 0 && f@ == snapshot_file_name(path@),
            None => path@.len() == 0,
        },
{
    if path.is_empty() {
        None
    } else {
        Some(String::from_str(path).concat("/data.json"))
    }
}

/// The storage engine: the contents of the store and the directory under
/// which its snapshot is kept.
pub struct StandaloneStorage {
    data: SortedMap,
    path: String,
}

impl View for StandaloneStorage {
    type V = Map<Seq<u8>, Seq<u8>>;

    /// The contents: the mapping from encoded keys to values.
    closed spec fn view(&self) -> Map<Seq<u8>, Seq<u8>> {
        self.data@
    }
}

impl StandaloneStorage {
    /// The invariant of the engine: its entries are in strictly ascending
    /// key order.
    pub closed spec fn wf(&self) -> bool {
        self.data.wf()
    }

    /// The directory under which the snapshot is kept; empty where the store
    /// is not persisted.
    pub closed spec fn directory(&self) -> Seq<char> {
        self.path@
    }

    /// An empty store that is not persisted.
    pub fn new() -> (s: Self)
        ensures
            s.wf(),
            s@ == Map::<Seq<u8>, Seq<u8>>::empty(),
            s.directory().len() == 0,
    {
        StandaloneStorage { data: SortedMap::new(), path: String::new() }
    }

    /// Opens the store that persists under `path`. `snapshot` is what its
    /// snapshot file holds, `None` where there is no such file. With an
    /// empty path, or without a file, the store starts empty; a snapshot
    /// that cannot be read as a list of entries is an error.
    pub fn open(path: &str, snapshot: Option<&str>) -> (r: Result<Self, String>)
        ensures
            match loaded(Map::empty(), path@, text_view(snapshot)) {
                Some(m) => r matches Ok(s) && s.wf() && s.directory() == path@ && s@ == m,
                None => r matches Err(msg) && Failure::Deserialize.reported_by(msg@),
            },
    {
        let mut storage = StandaloneStorage {
            data: SortedMap::new(),
            path: String::from_str(path),
        };
        match storage.load_from_disk(snapshot) {
            Ok(_) => Ok(storage),
            Err(e) => Err(e),
        }
    }

    /// Replaces the contents by those of the snapshot `snapshot`, which is
    /// what the snapshot file holds, `None` where there is no such file. A
    /// store that is not persisted, or has no file, is left as it is; so is
    /// one whose snapshot cannot be read as a list of entries, which is an
    /// error.
    pub fn load_from_disk(&mut self, snapshot: Option<&str>) -> (r: Result<(), String>)
        requires
            old(self).wf(),
        ensures
            final(self).wf(),
            final(self).directory() == old(self).directory(),
            match loaded(old(self)@, old(self).directory(), text_view(snapshot)) {
                Some(m) => r is Ok && final(self)@ == m,
                None => {
                    &&& r matches Err(msg) && Failure::Deserialize.reported_by(msg@)
                    &&& final(self)@ == old(self)@
                },
            },
    {
        if self.path.as_str().is_empty() {
            return Ok(());
        }
        let text = match snapshot {
            Some(text) => text,
            None => {
                return Ok(());
            },
        };
        match from_json(text) {
            Ok(entries) => {
                self.restore(&entries);
                Ok(())
            },
            Err(e) => {
                let detail = json_error_text(&e);
                Err(Failure::Deserialize.message(detail.as_str()))
            },
        }
    }

    /// Replaces the contents by those that the list `entries` restores: its
    /// entries put one after the other, so that of several with one key the
    /// last decides. What the store held before is gone.
    pub fn restore(&mut self, entries: &Vec<(Vec<u8>, Vec<u8>)>)
        requires
            old(self).wf(),
        ensures
            final(self).wf(),
            final(self).directory() == old(self).directory(),
            final(self)@ == load_entries(entries_of(entries@)),
    {
        let mut data = SortedMap::new();
        let mut i: usize = 0;
        while i < entries.len()
            invariant
                i <= entries@.len(),
                data.wf(),
                data@ == load_entries(entries_of(entries@).take(i as int)),
            decreases entries@.len() - i,
        {
            proof {
                let t = entries_of(entries@).take(i + 1);
                assert(t.drop_last() =~= entries_of(entries@).take(i as int));
                assert(t.last() == entries_of(entries@)[i as int]);
            }
            data.insert(
                slice_to_vec(entries[i].0.as_slice()),
                slice_to_vec(entries[i].1.as_slice()),
            );
            i += 1;
        }
        proof {
            assert(entries_of(entries@).take(i as int) =~= entries_of(entries@));
        }
        self.data = data;
    }

    /// Applies the mutations of `batch` in order.
    pub fn write(&mut self, batch: Vec<Modify>) -> (r: Result<(), String>)
        requires
            old(self).wf(),
        ensures
            r is Ok,
            final(self).wf(),
            final(self).directory() == old(self).directory(),
            final(self)@ == apply_batch(old(self)@, batch@),
            forall|cf: Seq<char>, key: Seq<u8>|
                !batch_names(batch@, cf, key) ==> #[trigger] lookup(final(self)@, cf, key)
                    == lookup(old(self)@, cf, key),
    {
        let mut i: usize = 0;
        proof {
            assert(batch@.take(0) =~= Seq::<Modify>::empty());
        }
        while i < batch.len()
            invariant
                i <= batch@.len(),
                self.wf(),
                self.directory() == old(self).directory(),
                self@ == apply_batch(old(self)@, batch@.take(i as int)),
            decreases batch@.len() - i,
        {
            let modify = &batch[i];
            let prefixed_key = key_with_cf(modify.cf.as_str(), modify.key.as_slice());
            proof {
                let t = batch@.take(i + 1);
                assert(t.drop_last() =~= batch@.take(i as int));
                assert(t.last() == batch@[i as int]);
            }
            match modify.op {
                ModifyOp::Put => {
                    self.data.insert(prefixed_key, slice_to_vec(modify.value.as_slice()));
                },
                ModifyOp::Delete => {
                    self.data.remove(prefixed_key.as_slice());
                },
            }
            i += 1;
        }
        proof {
            assert(batch@.take(i as int) =~= batch@);
            assert forall|cf: Seq<char>, key: Seq<u8>|
                !batch_names(batch@, cf, key) implies #[trigger] lookup(self@, cf, key) == lookup(
                old(self)@,
                cf,
                key,
            ) by {
                lemma_batch_leaves_unnamed(old(self)@, batch@, cf, key);
            }
        }
        Ok(())
    }

    /// A reader of the current contents.
    pub fn reader(&self) -> (r: Result<StandaloneStorageReader<'_>, String>)
        requires
            self.wf(),
        ensures
            r matches Ok(reader) && reader.valid() && reader.contents() == self@,
    {
        Ok(StandaloneStorageReader { data: &self.data })
    }

    /// Prepares the snapshot that persists the store; see `save_to_disk`.
    pub fn flush(&self) -> (r: Result<Option<String>, String>)
        requires
            self.wf(),
        ensures
            match saved(self@, self.directory()) {
                Ok(text) => r matches Ok(t) && text_view_owned(t) == text,
                Err(_) => r matches Err(msg) && Failure::Serialize.reported_by(msg@),
            },
    {
        self.save_to_disk()
    }

    /// Prepares the snapshot that persists the store: the text to be
    /// written to the snapshot file, which lists all entries in ascending
    /// key order, or `None` for a store that is not persisted. The text is
    /// read back before it is handed out. That the entries cannot be written
    /// as text, or that the text does not read back as the entries, is an
    /// error.
    pub fn save_to_disk(&self) -> (r: Result<Option<String>, String>)
        requires
            self.wf(),
        ensures
            match saved(self@, self.directory()) {
                Ok(text) => r matches Ok(t) && text_view_owned(t) == text,
                Err(_) => r matches Err(msg) && Failure::Serialize.reported_by(msg@),
            },
    {
        if self.path.as_str().is_empty() {
            return Ok(None);
        }
        proof {
            self.data.lemma_entries();
        }
        let entries = self.data.as_entries();
        match to_json(entries) {
            Ok(text) => match from_json(text.as_str()) {
                Ok(read_back) => {
                    if entries_equal(&read_back, entries) {
                        Ok(Some(text))
                    } else {
                        Err(Failure::Serialize.message("the snapshot lists other entries"))
                    }
                },
                Err(e) => {
                    let detail = json_error_text(&e);
                    Err(Failure::Serialize.message(detail.as_str()))
                },
            },
            Err(e) => {
                let detail = json_error_text(&e);
                Err(Failure::Serialize.message(detail.as_str()))
            },
        }
    }

    /// The number of entries, and the names of the column families that
    /// have one, in ascending order.
    pub fn get_stats(&self) -> (r: Result<(usize, Vec<String>), String>)
        requires
            self.wf(),
        ensures
            self@.dom().finite(),
            r matches Ok((total, names)) && total == self@.dom().len() && lists_families(
                names_view(names@),
                self@,
            ),
    {
        let families = family_parts(&self.data);
        let names = utf8_names(&families);
        proof {
            self.data.lemma_entries();
            let nv = names_view(names@);
            assert forall|c: Seq<char>| #[trigger]
                has_family(self@, encode_utf8(c)) implies nv.contains(c) by {
                encode_utf8_valid_utf8(c);
                assert(families@.contains_key(encode_utf8(c)));
                assert(named(names@, encode_utf8(c)));
                let a = choose|a: int|
                    0 <= a < names@.len() && encode_utf8((#[trigger] names@[a])@) == encode_utf8(c);
                encode_utf8_decode_utf8(c);
                encode_utf8_decode_utf8(names@[a]@);
                assert(nv[a] == c);
            }
            assert forall|a: int, b: int| 0 <= a < b < nv.len() implies lex_lt(
                encode_utf8(#[trigger] nv[a]),
                encode_utf8(#[trigger] nv[b]),
            ) by {
                assert(nv[a] == names@[a]@ && nv[b] == names@[b]@);
            }
            assert forall|a: int| 0 <= a < nv.len() implies has_family(
                self@,
                encode_utf8(#[trigger] nv[a]),
            ) by {
                assert(families@.contains_key(encode_utf8(names@[a]@)));
            }
            lemma_family_parts_listed(nv, self@);
        }
        Ok((self.data.len(), names))
    }
}

impl Default for StandaloneStorage {
    /// An empty store that is not persisted.
    fn default() -> (s: Self)
        ensures
            s.wf(),
            s@ == Map::<Seq<u8>, Seq<u8>>::empty(),
            s.directory().len() == 0,
    {
        Self::new()
    }
}

impl StandaloneStorage {
    /// A scan that stays under its limit misses nothing: it returns every
    /// entry that the store holds under `cf` with a raw key from `start` up
    /// to, and without, `end`.
    pub proof fn lemma_scan_complete(
        self,
        cf: Seq<char>,
        start: Seq<u8>,
        end: Option<Seq<u8>>,
        limit: nat,
        key: Seq<u8>,
    )
        requires
            self.wf(),
            lookup(self@, cf, key) is Some,
            lex_le(start, key),
            end matches Some(bound) ==> lex_lt(key, bound),
            scan_result(self@, cf, start, end, limit).len() < limit,
        ensures
            scan_result(self@, cf, start, end, limit).contains((key, lookup(self@, cf, key)->0)),
    {
        self.data.lemma_entries();
        let s = ascending(self@);
        let k = encoded_key(cf, key);
        let j = position(s, k);
        lemma_position(s, j);
        lemma_encoded_key_order(cf, start, key);
        lemma_decode_encode(cf, key);
        if end is Some {
            lemma_encoded_key_order(cf, key, end->0);
        }
        lemma_scan_all_complete(s, j, cf, start, end);
    }

    /// What a scan returns: at most `limit` entries, in strictly ascending
    /// order of their raw keys, each with a raw key from `start` up to, and
    /// without, `end`, and each an entry of the column family `cf`.
    pub proof fn lemma_scan_result(
        self,
        cf: Seq<char>,
        start: Seq<u8>,
        end: Option<Seq<u8>>,
        limit: nat,
    )
        requires
            self.wf(),
        ensures
            scan_sound(self@, cf, start, end, limit),
    {
        self.data.lemma_entries();
        let s = ascending(self@);
        let all = scan_all(s, cf, start, end);
        let r = scan_result(self@, cf, start, end, limit);
        lemma_scan_all_sound(s, cf, start, end);
        assert forall|i: int| 0 <= i < r.len() implies r[i] == all[i] by {}
        assert forall|i: int| 0 <= i < r.len() implies {
            let e = #[trigger] r[i];
            &&& lex_le(start, e.0)
            &&& (end matches Some(bound) ==> lex_lt(e.0, bound))
            &&& lookup(self@, cf, e.0) == Some(e.1)
        } by {
            let e = r[i];
            assert(scanned_from(s, cf, start, end, all[i]));
            lemma_encoded_key_order(cf, start, e.0);
            lemma_encoded_key_injective(cf, start, e.0);
            if end is Some {
                lemma_encoded_key_order(cf, e.0, end->0);
            }
        }
        assert forall|i: int, j: int| 0 <= i < j < r.len() implies lex_lt(
            (#[trigger] r[i]).0,
            (#[trigger] r[j]).0,
        ) by {
            assert(r[i] == all[i] && r[j] == all[j]);
        }
    }

    /// The entries that a flush writes restore, when loaded, the very
    /// contents that the store had.
    pub proof fn lemma_snapshot_restores(self)
        requires
            self.wf(),
        ensures
            load_entries(ascending(self@)) == self@,
    {
        self.data.lemma_entries();
        lemma_load_sorted(ascending(self@));
    }

    /// A flush followed by a fresh open restores the contents: where `text`
    /// is the snapshot that a flush prepares, a store opened under the same
    /// path with that snapshot has the contents that this store had, and so
    /// has any store under that path that loads it, whatever it held.
    pub proof fn lemma_flush_then_open(self, text: Seq<char>)
        requires
            self.wf(),
            saved(self@, self.directory()) == Ok::<Option<Seq<char>>, ()>(Some(text)),
        ensures
            loaded(Map::empty(), self.directory(), Some(text)) == Some(self@),
            forall|before: Map<Seq<u8>, Seq<u8>>| #[trigger]
                loaded(before, self.directory(), Some(text)) == Some(self@),
    {
        self.lemma_snapshot_restores();
    }
}

/// Loading a strictly ascending list of entries gives the mapping that the
/// list stands for.
pub proof fn lemma_load_sorted(s: Seq<(Seq<u8>, Seq<u8>)>)
    requires
        strictly_sorted(s),
    ensures
        load_entries(s) == map_of(s),
    decreases s.len(),
{
    if s.len() == 0 {
        assert(map_of(s) =~= Map::<Seq<u8>, Seq<u8>>::empty());
    } else {
        let n = s.len() - 1;
        let t = s.drop_last();
        assert forall|a: int, b: int| 0 <= a < b < t.len() implies lex_lt(
            (#[trigger] t[a]).0,
            (#[trigger] t[b]).0,
        ) by {
            assert(t[a] == s[a] && t[b] == s[b]);
        }
        lemma_load_sorted(t);
        assert forall|i: int| 0 <= i < n implies lex_lt((#[trigger] t[i]).0, s[n].0) by {
            assert(t[i] == s[i]);
        }
        lemma_insert_new(t, s[n].0, s[n].1, n);
        assert(t.insert(n, (s[n].0, s[n].1)) =~= s);
    }
}

} // verus!
