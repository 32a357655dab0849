//! The server's decisions: how it opens its store, and what a connection
//! does with each thing it receives.

use crate::common::{Command, Dispatch, RawKeyValueApi};
use crate::snapshot::Failure;
use crate::byte_order::{lex_le, lex_lt};
use crate::scan::scan_result;
use crate::storage::{loaded, lookup, saved, scan_sound, text_view, StandaloneStorage};
use vstd::prelude::*;

verus! {

/// The size in bytes of the buffer into which a connection receives one
/// request; a request is expected to arrive whole within one receive.
pub const RECEIVE_BUFFER_SIZE: usize = 8192;

/// What a connection got from one receive.
#[derive(Debug, Clone, PartialEq, Eq)]
pub enum Received {
    /// Nothing: the peer has closed the connection.
    Closed,
    /// Bytes that are no request.
    Malformed,
    /// One request.
    Request(Command),
}

impl Received {
    /// What a connection does after a receive that brought no request: it
    /// ends in good order where the peer has closed, and is torn down where
    /// the bytes are no request. Neither touches the store. `None` for a
    /// request, which the server has to carry out.
    pub fn ending(&self) -> (step: Option<Step>)
        ensures
            match self {
                Received::Closed => step == Some(Step::Close),
                Received::Malformed => step == Some(Step::Abort),
                Received::Request(_) => step is None,
            },
    {
        match self {
            Received::Closed => Some(Step::Close),
            Received::Malformed => Some(Step::Abort),
            Received::Request(_) => None,
        }
    }
}

/// What a connection does after one receive.
#[derive(Debug, Clone, PartialEq, Eq)]
pub enum Step {
    /// End the connection in good order.
    Close,
    /// Tear the connection down; other connections are not affected.
    Abort,
    /// Answer the request, then receive again.
    Answer(Dispatch),
}

/// The key-value server: the store that all its connections share.
pub struct KvServer {
    api: RawKeyValueApi,
}

impl View for KvServer {
    type V = Map<Seq<u8>, Seq<u8>>;

    /// The contents of the store.
    closed spec fn view(&self) -> Map<Seq<u8>, Seq<u8>> {
        self.api@
    }
}

impl KvServer {
    /// The invariant of the store holds.
    pub closed spec fn wf(&self) -> bool {
        self.api.wf()
    }

    /// The directory under which the store persists.
    pub closed spec fn directory(&self) -> Seq<char> {
        self.api.directory()
    }

    /// What a scan returns: at most `limit` entries, in strictly ascending
    /// order of their raw keys, each with a raw key from `start` up to, and
    /// without, `end`, and each an entry of the column family `cf`.
    pub proof fn lemma_scan_result(
        self,
        cf: Seq<char>,
        start: Seq<u8>,
        end: Option<Seq<u8>>,
        limit: nat,
    )
        requires
            self.wf(),
        ensures
            scan_sound(self@, cf, start, end, limit),
    {
        self.api.lemma_scan_result(cf, start, end, limit);
    }

    /// A scan that stays under its limit misses nothing: it returns every
    /// entry of the column family `cf` with a raw key from `start` up to,
    /// and without, `end`.
    pub proof fn lemma_scan_complete(
        self,
        cf: Seq<char>,
        start: Seq<u8>,
        end: Option<Seq<u8>>,
        limit: nat,
        key: Seq<u8>,
    )
        requires
            self.wf(),
            lookup(self@, cf, key) is Some,
            lex_le(start, key),
            end matches Some(bound) ==> lex_lt(key, bound),
            scan_result(self@, cf, start, end, limit).len() < limit,
        ensures
            scan_result(self@, cf, start, end, limit).contains((key, lookup(self@, cf, key)->0)),
    {
        self.api.lemma_scan_complete(cf, start, end, limit, key);
    }

    /// A flush followed by a fresh open restores the contents: where `text`
    /// is the snapshot that a flush prepares, a store opened under the same
    /// path with that snapshot has the contents that this store had.
    pub proof fn lemma_flush_then_open(self, text: Seq<char>)
        requires
            self.wf(),
            saved(self@, self.directory()) == Ok::<Option<Seq<char>>, ()>(Some(text)),
        ensures
            forall|before: Map<Seq<u8>, Seq<u8>>| #[trigger]
                loaded(before, self.directory(), Some(text)) == Some(self@),
    {
        self.api.lemma_flush_then_open(text);
    }

    /// A server on the store that persists under `storage_path`, where
    /// `snapshot` is what the store's snapshot file holds, if there is one.
    pub fn new(storage_path: &str, snapshot: Option<&str>) -> (r: Result<Self, String>)
        ensures
            match loaded(Map::empty(), storage_path@, text_view(snapshot)) {
                Some(m) => r matches Ok(s) && s.wf() && s.directory() == storage_path@ && s@ == m,
                None => r matches Err(msg) && Failure::Deserialize.reported_by(msg@),
            },
    {
        match StandaloneStorage::open(storage_path, snapshot) {
            Ok(storage) => Ok(KvServer { api: RawKeyValueApi::new(storage) }),
            Err(e) => Err(e),
        }
    }

    /// Answers a request that does not change the contents, for which
    /// shared access to the server is enough.
    pub fn handle_query(&self, cmd: Command) -> (out: Dispatch)
        requires
            self.wf(),
            !cmd.mutates(),
        ensures
            cmd.answered_by(self@, self.directory(), out),
    {
        self.api.handle_query(cmd)
    }

    /// Decides what a connection does with what it received: a request is
    /// carried out and answered, a closed connection ends, and bytes that
    /// are no request tear the connection down and leave the store as it is.
    pub fn handle_client(&mut self, received: Received) -> (step: Step)
        requires
            old(self).wf(),
        ensures
            final(self).wf(),
            final(self).directory() == old(self).directory(),
            match received {
                Received::Closed => step == Step::Close && final(self)@ == old(self)@,
                Received::Malformed => step == Step::Abort && final(self)@ == old(self)@,
                Received::Request(cmd) => {
                    &&& final(self)@ == cmd.effect(old(self)@)
                    &&& step matches Step::Answer(out) && cmd.answered_by(
                        old(self)@,
                        old(self).directory(),
                        out,
                    )
                },
            },
    {
        match received {
            Received::Closed => Step::Close,
            Received::Malformed => Step::Abort,
            Received::Request(cmd) => Step::Answer(self.api.handle_command(cmd)),
        }
    }
}

} // verus!
