//! Connection state, the connection registry, and the dispatch decision the
//! event loop applies to each connection's accumulated bytes.

use vstd::prelude::*;
use crate::codec::append_slice;
use crate::codec::echo_bytes;
use crate::codec::first_bulk_from;
use crate::codec::flatten_args;
use crate::codec::join_parts;
use crate::codec::lemma_deep_view_from_is_models;
use crate::codec::lemma_models_from_at;
use crate::codec::lemma_models_from_len;
use crate::codec::lemma_parse_frame_bounds;
use crate::codec::models_from;
use crate::codec::pong;
use crate::codec::pong_reply;
use crate::codec::serialize_bulk;
use crate::codec::spec_encode_bulk;
use crate::codec::spec_parse_frame;
use crate::codec::FrameOutcome;
use crate::codec::ProtocolError;
use crate::codec::RespModel;
use crate::codec::RESP;

verus! {

/// What the dispatch phase decides to do with one connection.
pub enum Action {
    /// The buffer is empty: nothing to do, no side effect.
    Skip,
    /// The buffer holds an incomplete frame: keep it and wait for more
    /// bytes.
    Wait,
    /// A whole frame was parsed and answered: write `bytes` to the client
    /// and drop the first `consumed` bytes of the buffer.
    Reply { bytes: Vec<u8>, consumed: usize },
    /// A whole frame was parsed but calls for no reply: drop its bytes.
    Consume { consumed: usize },
    /// The buffer is malformed beyond repair: remove the connection.
    Close,
}

/// The reply a parsed frame calls for, if any: an array whose first bulk
/// string is exactly `ECHO` gets its remaining arguments echoed as a bulk
/// string; an array with any other first bulk string gets `+PONG`; anything
/// else gets no reply.
pub open spec fn frame_reply(val: RespModel) -> Option<Seq<u8>> {
    match val {
        RespModel::Arr(elems) => match first_bulk_from(elems, 0) {
            Some(cmd) => Some(
                if cmd == echo_bytes() {
                    spec_encode_bulk(join_parts(flatten_args(elems.drop_first())))
                } else {
                    pong()
                },
            ),
            None => None,
        },
        RespModel::Bulk(_) => None,
    }
}

/// What remains of a buffer after the dispatch phase: a parsed frame's
/// bytes are dropped, everything else is kept.
pub open spec fn next_buffer(b: Seq<u8>) -> Seq<u8> {
    match spec_parse_frame(b) {
        FrameOutcome::Done { next, .. } => b.skip(next as int),
        _ => b,
    }
}

/// Whether `s` holds exactly the bytes of `ECHO`.
fn is_echo(s: &Vec<u8>) -> (r: bool)
    ensures
        r == (s@ == echo_bytes()),
{
    if s.len() != 4 {
        return false;
    }
    let r = s[0] == 69 && s[1] == 67 && s[2] == 72 && s[3] == 79;
    proof {
        if r {
            assert(s@ =~= echo_bytes());
        }
    }
    r
}

/// Decide what to do with a connection whose buffer holds `buffer`: skip an
/// empty buffer, wait on an incomplete frame, close on a malformed one, and
/// answer a parsed frame according to `frame_reply`.
#[verifier::loop_isolation(false)]
pub fn dispatch_buffer(buffer: &Vec<u8>) -> (a: Action)
    ensures
        buffer@.len() == 0 ==> a is Skip,
        buffer@.len() > 0 && spec_parse_frame(buffer@) is More ==> a is Wait,
        buffer@.len() > 0 && spec_parse_frame(buffer@) is Bad ==> a is Close,
        (spec_parse_frame(buffer@) matches FrameOutcome::Done { val, next } ==> (match frame_reply(
            val,
        ) {
            Some(reply) => a matches Action::Reply { bytes, consumed } && bytes@ == reply
                && consumed == next,
            None => a matches Action::Consume { consumed } && consumed == next,
        })),
{
    if buffer.len() == 0 {
        return Action::Skip;
    }
    let (v, n) = match RESP::parse_redis_protocol(buffer.as_slice()) {
        Err(ProtocolError::TruncatedFrame) => {
            return Action::Wait;
        },
        Err(ProtocolError::InvalidHeader) => {
            return Action::Close;
        },
        Ok(p) => p,
    };
    match v {
        RESP::BulkString(_) => Action::Consume { consumed: n },
        RESP::Array(values) => {
            proof {
                lemma_deep_view_from_is_models(values, 0);
                lemma_models_from_len(values@, 0);
            }
            let ghost elems: Seq<RespModel> = models_from(values@, 0);
            let mut i: usize = 0;
            while i < values.len()
                invariant
                    i <= values@.len(),
                    first_bulk_from(elems, 0) == first_bulk_from(elems, i as nat),
                decreases values@.len() - i,
            {
                proof {
                    lemma_models_from_at(values@, 0, i as nat);
                }
                match &values[i] {
                    RESP::BulkString(cmd) => {
                        if is_echo(cmd) {
                            proof {
                                assert forall|k: int|
                                    0 <= k < elems.drop_first().len() implies elems.drop_first()[k]
                                    == models_from(values@, 1)[k] by {
                                    lemma_models_from_at(values@, 0, (k + 1) as nat);
                                    lemma_models_from_at(values@, 1, (k + 1) as nat);
                                }
                                lemma_models_from_len(values@, 1);
                                assert(elems.drop_first() =~= models_from(values@, 1));
                            }
                            let joined = RESP::get_response_value(&values);
                            let bytes = serialize_bulk(joined.as_slice());
                            return Action::Reply { bytes, consumed: n };
                        } else {
                            return Action::Reply { bytes: pong_reply(), consumed: n };
                        }
                    },
                    RESP::Array(_) => {
                        i = i + 1;
                    },
                }
            }
            Action::Consume { consumed: n }
        },
    }
}

/// One client session: its identifier and the bytes received so far that
/// have not yet been consumed.
pub struct Connection {
    /// Monotonically increasing, unique for the registry's lifetime.
    pub id: usize,
    /// Accumulates partial reads until a whole frame is recognized.
    pub buffer: Vec<u8>,
}

/// The registry of open connections, owned by the event loop.
pub struct Registry {
    /// Open connections, in accept order.
    connections: Vec<Connection>,
    /// The identifier the next accepted connection will receive.
    next_connection_id: usize,
}

impl Registry {
    /// Identifiers are strictly increasing along the vector (hence unique)
    /// and all below the next identifier to be handed out.
    pub closed spec fn wf(self) -> bool {
        &&& forall|i: int, j: int|
            0 <= i < j < self.connections@.len() ==> self.connections@[i].id
                < self.connections@[j].id
        &&& forall|i: int|
            0 <= i < self.connections@.len() ==> self.connections@[i].id
                < self.next_connection_id
    }

    /// The identifier the next accepted connection will receive; every
    /// identifier already handed out is smaller.
    pub closed spec fn next_id_spec(self) -> usize {
        self.next_connection_id
    }

    /// The registry as a sequence of (identifier, buffered bytes) pairs.
    pub closed spec fn model(self) -> Seq<(usize, Seq<u8>)> {
        self.connections@.map_values(|c: Connection| (c.id, c.buffer@))
    }

    /// Whether a connection with identifier `id` is registered.
    pub closed spec fn contains_id(self, id: usize) -> bool {
        exists|i: int| 0 <= i < self.connections@.len() && self.connections@[i].id == id
    }

    /// The position of the connection with identifier `id`.
    pub closed spec fn idx_of(self, id: usize) -> int {
        choose|i: int| 0 <= i < self.connections@.len() && self.connections@[i].id == id
    }

    /// The buffered bytes of the connection with identifier `id`.
    pub closed spec fn buffer_of(self, id: usize) -> Seq<u8> {
        self.connections@[self.idx_of(id)].buffer@
    }

    /// The identifier the next accepted connection would receive.
    pub fn next_id(&self) -> (r: usize)
        ensures
            r == self.next_id_spec(),
    {
        self.next_connection_id
    }

    /// A fresh registry: no connections, identifiers starting at 1.
    pub fn new() -> (r: Registry)
        ensures
            r.wf(),
            r.model() == Seq::<(usize, Seq<u8>)>::empty(),
            r.next_id_spec() == 1,
    {
        let r = Registry { connections: Vec::new(), next_connection_id: 1 };
        proof {
            assert(r.model() =~= Seq::<(usize, Seq<u8>)>::empty());
        }
        r
    }

    /// The position of the connection with identifier `id`, if registered.
    #[verifier::loop_isolation(false)]
    fn find_index(&self, id: usize) -> (r: Option<usize>)
        requires
            self.wf(),
        ensures
            (match r {
                Some(i) => i < self.connections@.len() && self.connections@[i as int].id == id
                    && self.idx_of(id) == i,
                None => !self.contains_id(id),
            }),
    {
        let mut i: usize = 0;
        while i < self.connections.len()
            invariant
                i <= self.connections@.len(),
                forall|k: int| 0 <= k < i ==> self.connections@[k].id != id,
            decreases self.connections@.len() - i,
        {
            if self.connections[i].id == id {
                proof {
                    assert(self.contains_id(id));
                    let ci = self.idx_of(id);
                    assert(0 <= ci < self.connections@.len() && self.connections@[ci].id == id);
                    if ci < i as int {
                        assert(self.connections@[ci].id < self.connections@[i as int].id);
                    } else if ci > i as int {
                        assert(self.connections@[i as int].id < self.connections@[ci].id);
                    }
                }
                return Some(i);
            }
            i = i + 1;
        }
        None
    }

    /// Register a newly accepted connection with an empty buffer, returning
    /// its fresh identifier. Every connection ever registered keeps a
    /// distinct identifier: identifiers are never reused.
    pub fn accept_connection(&mut self) -> (id: usize)
        requires
            old(self).wf(),
            old(self).next_id_spec() < usize::MAX,
        ensures
            final(self).wf(),
            id == old(self).next_id_spec(),
            final(self).next_id_spec() == old(self).next_id_spec() + 1,
            final(self).model() == old(self).model().push((id, Seq::<u8>::empty())),
            final(self).contains_id(id),
    {
        let id = self.next_connection_id;
        self.connections.push(Connection { id, buffer: Vec::new() });
        self.next_connection_id = self.next_connection_id + 1;
        proof {
            assert(self.model() =~= old(self).model().push((id, Seq::<u8>::empty())));
            assert(self.connections@[self.connections@.len() - 1].id == id);
        }
        id
    }

    /// Append bytes read from the socket of connection `id` to its buffer.
    /// Returns whether the connection was registered; every other
    /// connection is left untouched.
    pub fn append_bytes(&mut self, id: usize, data: &[u8]) -> (found: bool)
        requires
            old(self).wf(),
        ensures
            final(self).wf(),
            found == old(self).contains_id(id),
            final(self).next_id_spec() == old(self).next_id_spec(),
            !found ==> final(self).model() == old(self).model(),
            found ==> final(self).model() == old(self).model().update(
                old(self).idx_of(id),
                (id, old(self).buffer_of(id) + data@),
            ),
            found ==> final(self).buffer_of(id) == old(self).buffer_of(id) + data@,
    {
        let i = match self.find_index(id) {
            Some(i) => i,
            None => {
                return false;
            },
        };
        let mut conn = self.connections.remove(i);
        append_slice(&mut conn.buffer, data);
        self.connections.insert(i, conn);
        proof {
            assert(old(self).idx_of(id) == i);
            assert(self.model() =~= old(self).model().update(
                i as int,
                (id, old(self).buffer_of(id) + data@),
            ));
            assert(self.connections@[i as int].id == id);
            assert(self.contains_id(id));
            let ci = self.idx_of(id);
            assert(0 <= ci < self.connections@.len() && self.connections@[ci].id == id);
            if ci < i as int {
                assert(self.connections@[ci].id < self.connections@[i as int].id);
            } else if ci > i as int {
                assert(self.connections@[i as int].id < self.connections@[ci].id);
            }
        }
        true
    }

    /// Remove connection `id` from the registry, preserving the order of
    /// the others. Removal is deferred by the event loop to the end of a
    /// tick, so this is its own step.
    pub fn remove_connection(&mut self, id: usize) -> (found: bool)
        requires
            old(self).wf(),
        ensures
            final(self).wf(),
            found == old(self).contains_id(id),
            final(self).next_id_spec() == old(self).next_id_spec(),
            !found ==> final(self).model() == old(self).model(),
            found ==> final(self).model() == old(self).model().remove(old(self).idx_of(id)),
            !final(self).contains_id(id),
    {
        let i = match self.find_index(id) {
            Some(i) => i,
            None => {
                return false;
            },
        };
        self.connections.remove(i);
        proof {
            assert(old(self).idx_of(id) == i);
            assert(self.model() =~= old(self).model().remove(i as int));
            assert forall|k: int| 0 <= k < self.connections@.len() implies self.connections@[k].id
                != id by {
                if k < i {
                    assert(self.connections@[k] == old(self).connections@[k]);
                } else {
                    assert(self.connections@[k] == old(self).connections@[k + 1]);
                }
            }
        }
        true
    }
}

/// Drop the first `n` bytes of `buffer`, keeping the rest.
fn consume_front(buffer: &mut Vec<u8>, n: usize)
    requires
        n <= old(buffer)@.len(),
    ensures
        final(buffer)@ == old(buffer)@.skip(n as int),
{
    let tail = buffer.split_off(n);
    *buffer = tail;
    proof {
        assert(buffer@ =~= old(buffer)@.skip(n as int));
    }
}

impl Registry {
    /// The identifiers of the open connections, in registry order.
    #[verifier::loop_isolation(false)]
    pub fn connection_ids(&self) -> (r: Vec<usize>)
        ensures
            r@ == self.model().map_values(|p: (usize, Seq<u8>)| p.0),
    {
        let mut r: Vec<usize> = Vec::new();
        let mut i: usize = 0;
        while i < self.connections.len()
            invariant
                i <= self.connections@.len(),
                r@.len() == i,
                forall|k: int| 0 <= k < i ==> r@[k] == self.connections@[k].id,
            decreases self.connections@.len() - i,
        {
            r.push(self.connections[i].id);
            i = i + 1;
        }
        proof {
            assert(r@ =~= self.model().map_values(|p: (usize, Seq<u8>)| p.0));
        }
        r
    }

    /// One dispatch step for connection `id`: decide the action for its
    /// buffer, drop the bytes of a parsed frame, and leave every other
    /// connection untouched. An unregistered identifier is skipped.
    pub fn poll_connection(&mut self, id: usize) -> (a: Action)
        requires
            old(self).wf(),
        ensures
            final(self).wf(),
            final(self).next_id_spec() == old(self).next_id_spec(),
            !old(self).contains_id(id) ==> a is Skip && final(self).model() == old(self).model(),
            old(self).contains_id(id) && spec_parse_frame(old(self).buffer_of(id)) !is Done
                ==> final(self).model() == old(self).model(),
            old(self).contains_id(id) ==> ({
                let b = old(self).buffer_of(id);
                &&& (b.len() == 0 ==> a is Skip)
                &&& (b.len() > 0 && spec_parse_frame(b) is More ==> a is Wait)
                &&& (b.len() > 0 && spec_parse_frame(b) is Bad ==> a is Close)
                &&& (spec_parse_frame(b) matches FrameOutcome::Done { val, next } ==> (
                match frame_reply(val) {
                    Some(reply) => a matches Action::Reply { bytes, consumed } && bytes@ == reply
                        && consumed == next,
                    None => a matches Action::Consume { consumed } && consumed == next,
                }))
                &&& final(self).model() == old(self).model().update(
                    old(self).idx_of(id),
                    (id, next_buffer(b)),
                )
                &&& final(self).buffer_of(id) == next_buffer(b)
            }),
    {
        let i = match self.find_index(id) {
            Some(i) => i,
            None => {
                return Action::Skip;
            },
        };
        let ghost b: Seq<u8> = old(self).buffer_of(id);
        let conn_ref = vstd::std_specs::vec::vec_index(&self.connections, i);
        let buffer_len: usize = conn_ref.buffer.len();
        proof {
            assert(b.len() == buffer_len);
        }
        let a = dispatch_buffer(&conn_ref.buffer);
        let consumed_count: Option<usize> = match &a {
            Action::Reply { consumed, .. } => Some(*consumed),
            Action::Consume { consumed } => Some(*consumed),
            _ => None,
        };
        match consumed_count {
            Some(n) => {
                proof {
                    lemma_parse_frame_bounds(b);
                }
                let conn = vstd::std_specs::vec::vec_index_mut(&mut self.connections, i);
                consume_front(&mut conn.buffer, n);
                proof {
                    assert(self.connections@[i as int].id == id);
                    assert(self.contains_id(id));
                    let ci = self.idx_of(id);
                    assert(0 <= ci < self.connections@.len() && self.connections@[ci].id == id);
                    if ci < i as int {
                        assert(self.connections@[ci].id < self.connections@[i as int].id);
                    } else if ci > i as int {
                        assert(self.connections@[i as int].id < self.connections@[ci].id);
                    }
                    assert(self.model() =~= old(self).model().update(
                        i as int,
                        (id, next_buffer(b)),
                    ));
                }
            },
            None => {
                proof {
                    assert(next_buffer(b) == b);
                    assert(self.model() =~= old(self).model().update(
                        i as int,
                        (id, next_buffer(b)),
                    ));
                }
            },
        }
        a
    }
}

/// The reply owed for a buffer, if its front parses as a whole frame that
/// calls for one.
pub open spec fn spec_reply(b: Seq<u8>) -> Option<Seq<u8>> {
    match spec_parse_frame(b) {
        FrameOutcome::Done { val, .. } => frame_reply(val),
        _ => None,
    }
}

/// Whether a dispatch step on `b` closes the connection: only a malformed
/// buffer does.
pub open spec fn closes(b: Seq<u8>) -> bool {
    b.len() > 0 && spec_parse_frame(b) is Bad
}

/// The replies one dispatch scan owes, in registry order: one entry per
/// connection whose buffer holds a frame that calls for a reply.
pub open spec fn spec_writes(m: Seq<(usize, Seq<u8>)>) -> Seq<(usize, Seq<u8>)>
    decreases m.len(),
{
    if m.len() == 0 {
        Seq::empty()
    } else {
        (match spec_reply(m[0].1) {
            Some(bytes) => seq![(m[0].0, bytes)],
            None => Seq::<(usize, Seq<u8>)>::empty(),
        }) + spec_writes(m.drop_first())
    }
}

/// The connections one dispatch scan schedules for removal, in registry
/// order.
pub open spec fn spec_closes(m: Seq<(usize, Seq<u8>)>) -> Seq<usize>
    decreases m.len(),
{
    if m.len() == 0 {
        Seq::empty()
    } else {
        (if closes(m[0].1) {
            seq![m[0].0]
        } else {
            Seq::<usize>::empty()
        }) + spec_closes(m.drop_first())
    }
}

/// One more scanned connection appends its contribution to the replies.
proof fn lemma_writes_push(m: Seq<(usize, Seq<u8>)>, x: (usize, Seq<u8>))
    ensures
        spec_writes(m.push(x)) == spec_writes(m) + (match spec_reply(x.1) {
            Some(bytes) => seq![(x.0, bytes)],
            None => Seq::<(usize, Seq<u8>)>::empty(),
        }),
    decreases m.len(),
{
    if m.len() == 0 {
        assert(m.push(x)[0] == x);
        assert(m.push(x).drop_first() =~= Seq::<(usize, Seq<u8>)>::empty());
        assert(spec_writes(Seq::<(usize, Seq<u8>)>::empty()) == Seq::<(usize, Seq<u8>)>::empty());
        let c = (match spec_reply(x.1) {
            Some(bytes) => seq![(x.0, bytes)],
            None => Seq::<(usize, Seq<u8>)>::empty(),
        });
        assert(c + Seq::<(usize, Seq<u8>)>::empty() =~= c);
        assert(Seq::<(usize, Seq<u8>)>::empty() + c =~= c);
    } else {
        assert(m.push(x)[0] == m[0]);
        assert(m.push(x).drop_first() =~= m.drop_first().push(x));
        lemma_writes_push(m.drop_first(), x);
        let h = (match spec_reply(m[0].1) {
            Some(bytes) => seq![(m[0].0, bytes)],
            None => Seq::<(usize, Seq<u8>)>::empty(),
        });
        let c = (match spec_reply(x.1) {
            Some(bytes) => seq![(x.0, bytes)],
            None => Seq::<(usize, Seq<u8>)>::empty(),
        });
        assert(h + (spec_writes(m.drop_first()) + c) =~= (h + spec_writes(m.drop_first())) + c);
    }
}

/// One more scanned connection appends its contribution to the removals.
proof fn lemma_closes_push(m: Seq<(usize, Seq<u8>)>, x: (usize, Seq<u8>))
    ensures
        spec_closes(m.push(x)) == spec_closes(m) + (if closes(x.1) {
            seq![x.0]
        } else {
            Seq::<usize>::empty()
        }),
    decreases m.len(),
{
    if m.len() == 0 {
        assert(m.push(x)[0] == x);
        assert(m.push(x).drop_first() =~= Seq::<(usize, Seq<u8>)>::empty());
        assert(spec_closes(Seq::<(usize, Seq<u8>)>::empty()) == Seq::<usize>::empty());
        let c = (if closes(x.1) {
            seq![x.0]
        } else {
            Seq::<usize>::empty()
        });
        assert(c + Seq::<usize>::empty() =~= c);
        assert(Seq::<usize>::empty() + c =~= c);
    } else {
        assert(m.push(x)[0] == m[0]);
        assert(m.push(x).drop_first() =~= m.drop_first().push(x));
        lemma_closes_push(m.drop_first(), x);
        let h = (if closes(m[0].1) {
            seq![m[0].0]
        } else {
            Seq::<usize>::empty()
        });
        let c = (if closes(x.1) {
            seq![x.0]
        } else {
            Seq::<usize>::empty()
        });
        assert(h + (spec_closes(m.drop_first()) + c) =~= (h + spec_closes(m.drop_first())) + c);
    }
}

impl Registry {
    /// The dispatch phase of one tick: decide and apply the action for
    /// every connection, in registry order. Returns the replies to write
    /// and the connections to remove; removal itself is deferred to the
    /// caller, after the scan. Every connection's new buffer depends on its
    /// own old buffer alone.
    #[verifier::loop_isolation(false)]
    pub fn dispatch_phase(&mut self) -> (r: (Vec<(usize, Vec<u8>)>, Vec<usize>))
        requires
            old(self).wf(),
        ensures
            final(self).wf(),
            final(self).next_id_spec() == old(self).next_id_spec(),
            final(self).model().len() == old(self).model().len(),
            forall|k: int|
                0 <= k < old(self).model().len() ==> (#[trigger] final(self).model()[k]).0 == old(
                    self,
                ).model()[k].0 && final(self).model()[k].1 == next_buffer(old(self).model()[k].1),
            r.0@.map_values(|p: (usize, Vec<u8>)| (p.0, p.1@)) == spec_writes(old(self).model()),
            r.1@ == spec_closes(old(self).model()),
    {
        let mut writes: Vec<(usize, Vec<u8>)> = Vec::new();
        let mut removals: Vec<usize> = Vec::new();
        let total = self.connections.len();
        let mut i: usize = 0;
        proof {
            assert(old(self).model().take(0) =~= Seq::<(usize, Seq<u8>)>::empty());
            assert(writes@.map_values(|p: (usize, Vec<u8>)| (p.0, p.1@)) =~= Seq::<(
                usize,
                Seq<u8>,
            )>::empty());
        }
        while i < total
            invariant
                i <= total,
                total == old(self).model().len(),
                self.wf(),
                self.next_id_spec() == old(self).next_id_spec(),
                self.model().len() == old(self).model().len(),
                forall|k: int| i <= k < total ==> self.model()[k] == old(self).model()[k],
                forall|k: int|
                    0 <= k < i ==> (#[trigger] self.model()[k]).0 == old(self).model()[k].0
                        && self.model()[k].1 == next_buffer(old(self).model()[k].1),
                writes@.map_values(|p: (usize, Vec<u8>)| (p.0, p.1@)) == spec_writes(
                    old(self).model().take(i as int),
                ),
                removals@ == spec_closes(old(self).model().take(i as int)),
            decreases total - i,
        {
            let id = self.connections[i].id;
            let ghost entry: (usize, Seq<u8>) = old(self).model()[i as int];
            proof {
                assert(self.model()[i as int] == entry);
                assert(self.connections@[i as int].id == id && entry.0 == id);
                assert(self.contains_id(id));
                let ci = self.idx_of(id);
                assert(0 <= ci < self.connections@.len() && self.connections@[ci].id == id);
                if ci < i as int {
                    assert(self.connections@[ci].id < self.connections@[i as int].id);
                } else if ci > i as int {
                    assert(self.connections@[i as int].id < self.connections@[ci].id);
                }
                assert(self.buffer_of(id) == entry.1);
            }
            let ghost pre_writes: Seq<(usize, Seq<u8>)> = writes@.map_values(
                |p: (usize, Vec<u8>)| (p.0, p.1@),
            );
            let a = self.poll_connection(id);
            proof {
                lemma_writes_push(old(self).model().take(i as int), entry);
                lemma_closes_push(old(self).model().take(i as int), entry);
                assert(old(self).model().take(i as int).push(entry) =~= old(self).model().take(
                    i as int + 1,
                ));
            }
            match a {
                Action::Reply { bytes, .. } => {
                    proof {
                        assert(spec_reply(entry.1) == Some(bytes@));
                        assert(!closes(entry.1));
                    }
                    writes.push((id, bytes));
                    proof {
                        assert(writes@.map_values(|p: (usize, Vec<u8>)| (p.0, p.1@)) =~= pre_writes
                            + seq![(id, writes@[writes@.len() - 1].1@)]);
                    }
                },
                Action::Close => {
                    proof {
                        assert(spec_reply(entry.1) is None);
                        assert(closes(entry.1));
                        assert(pre_writes + Seq::<(usize, Seq<u8>)>::empty() =~= pre_writes);
                    }
                    removals.push(id);
                },
                _ => {
                    proof {
                        assert(spec_reply(entry.1) is None);
                        assert(!closes(entry.1));
                        assert(pre_writes + Seq::<(usize, Seq<u8>)>::empty() =~= pre_writes);
                        assert(removals@ + Seq::<usize>::empty() =~= removals@);
                    }
                },
            }
            i = i + 1;
        }
        proof {
            assert(old(self).model().take(total as int) =~= old(self).model());
        }
        (writes, removals)
    }
}

/// Round trip: an ECHO request built from any ordered argument list parses
/// back whole, is answered with exactly the arguments joined by single
/// spaces as a length-prefixed bulk string, and its bytes are consumed
/// exactly, leaving an empty buffer.
pub proof fn lemma_echo_round_trip(args: Seq<Seq<u8>>, b: Seq<u8>)
    requires
        b == crate::codec::spec_encode_array(seq![echo_bytes()] + args),
        b.len() <= usize::MAX,
        args.len() + 1 <= usize::MAX,
        forall|j: int| 0 <= j < args.len() ==> (#[trigger] args[j]).len() <= usize::MAX,
    ensures
        (spec_parse_frame(b) matches FrameOutcome::Done { val, next } && next == b.len()
            && frame_reply(val) == Some(spec_encode_bulk(join_parts(args)))),
        next_buffer(b) == Seq::<u8>::empty(),
{
    let payloads = seq![echo_bytes()] + args;
    assert(payloads[0] == echo_bytes());
    assert forall|j: int| 0 <= j < payloads.len() implies (#[trigger] payloads[j]).len()
        <= usize::MAX by {
        if j > 0 {
            assert(payloads[j] == args[j - 1]);
        }
    }
    crate::codec::lemma_parse_array_encode(b, payloads);
    let m = payloads.map_values(|p: Seq<u8>| RespModel::Bulk(p));
    assert(m[0] == RespModel::Bulk(echo_bytes()));
    assert(first_bulk_from(m, 0) == Some(echo_bytes()));
    assert(m.drop_first() =~= args.map_values(|p: Seq<u8>| RespModel::Bulk(p)));
    crate::codec::lemma_flatten_bulks(args);
    assert(next_buffer(b) =~= Seq::<u8>::empty());
}

/// Default reply: a well-formed array request whose first bulk string is
/// anything but `ECHO` is answered with exactly `+PONG` CRLF, and its bytes
/// are consumed exactly.
pub proof fn lemma_default_reply(payloads: Seq<Seq<u8>>, b: Seq<u8>)
    requires
        b == crate::codec::spec_encode_array(payloads),
        b.len() <= usize::MAX,
        1 <= payloads.len() <= usize::MAX,
        forall|j: int| 0 <= j < payloads.len() ==> (#[trigger] payloads[j]).len() <= usize::MAX,
        payloads[0] != echo_bytes(),
    ensures
        (spec_parse_frame(b) matches FrameOutcome::Done { val, next } && next == b.len()
            && frame_reply(val) == Some(pong())),
        next_buffer(b) == Seq::<u8>::empty(),
{
    crate::codec::lemma_parse_array_encode(b, payloads);
    let m = payloads.map_values(|p: Seq<u8>| RespModel::Bulk(p));
    assert(m[0] == RespModel::Bulk(payloads[0]));
    assert(first_bulk_from(m, 0) == Some(payloads[0]));
    assert(next_buffer(b) =~= Seq::<u8>::empty());
}

/// Partial read accumulation: any strict prefix of a complete frame is
/// merely incomplete — the dispatcher waits, writes nothing, and keeps the
/// bytes — and the prefix and its remainder together are exactly the
/// whole request, which is then handled as if it had arrived at once.
pub proof fn lemma_partial_request(b: Seq<u8>, k: int)
    requires
        b.len() <= usize::MAX,
        spec_parse_frame(b) is Done,
        0 <= k < spec_parse_frame(b)->Done_next,
    ensures
        spec_parse_frame(b.take(k)) is More,
        next_buffer(b.take(k)) == b.take(k),
        b.take(k) + b.skip(k) == b,
{
    crate::codec::lemma_parse_frame_bounds(b);
    crate::codec::lemma_parse_frame_take(b, k as nat);
    assert(b.take(k) + b.skip(k) =~= b);
}

/// Concurrency isolation: a dispatch or read step for one connection
/// rewrites the registry model only at that connection's index, so the
/// entry of every other connection is exactly what it was.
pub proof fn lemma_step_isolation(m: Seq<(usize, Seq<u8>)>, i: int, e: (usize, Seq<u8>), k: int)
    requires
        0 <= i < m.len(),
        0 <= k < m.len(),
        k != i,
    ensures
        m.update(i, e)[k] == m[k],
{
}

/// No cross-client leakage: every reply a dispatch scan emits is addressed
/// to some registered connection and is exactly the reply owed to that
/// connection's own buffered bytes — never derived from another
/// connection's data.
pub proof fn lemma_no_cross_client_leakage(m: Seq<(usize, Seq<u8>)>, w: int)
    requires
        0 <= w < spec_writes(m).len(),
    ensures
        exists|k: int|
            0 <= k < m.len() && (#[trigger] m[k]).0 == spec_writes(m)[w].0 && spec_reply(m[k].1)
                == Some(spec_writes(m)[w].1),
    decreases m.len(),
{
    let head = (match spec_reply(m[0].1) {
        Some(bytes) => seq![(m[0].0, bytes)],
        None => Seq::<(usize, Seq<u8>)>::empty(),
    });
    if w < head.len() {
        assert(spec_writes(m)[w] == head[0]);
        assert(m[0].0 == spec_writes(m)[w].0 && spec_reply(m[0].1) == Some(spec_writes(m)[w].1));
    } else {
        lemma_no_cross_client_leakage(m.drop_first(), w - head.len());
        let k0 = choose|k: int|
            0 <= k < m.drop_first().len() && (#[trigger] m.drop_first()[k]).0 == spec_writes(
                m.drop_first(),
            )[w - head.len()].0 && spec_reply(m.drop_first()[k].1) == Some(
                spec_writes(m.drop_first())[w - head.len()].1,
            );
        assert(m[k0 + 1] == m.drop_first()[k0]);
        assert(spec_writes(m)[w] == spec_writes(m.drop_first())[w - head.len()]);
    }
}

/// Idempotence of an empty buffer: it holds no frame, so a dispatch step
/// decides Skip, changes nothing, and may repeat indefinitely.
pub proof fn lemma_empty_buffer_skipped(b: Seq<u8>)
    requires
        b.len() == 0,
    ensures
        spec_parse_frame(b) is More,
        next_buffer(b) == b,
{
}

} // verus!

