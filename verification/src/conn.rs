//! The connection: the receive buffer, the id counter and the pending table,
//! and the multiplexing steps the event loop takes. The surrounding runtime
//! owns the child process and its streams; it hands every chunk read from the
//! child to [`Connection::feed`], writes out the bytes [`Connection::send`]
//! returns, and fulfills the destination [`Connection::deliver`] hands back.

use std::collections::HashMap;

use vstd::prelude::*;

use crate::codec::{parse_message, spec_parse, ParseError, SpecParse};
use crate::envelope::{
    decode_envelope, envelope_of, extract_message, extracted, frame_of_request, id_field_ok,
    jsonrpc_ok, Message, ReadError, ResponseEnvelope,
};
use crate::json::{depth_ok, json_text_of, parsed_of};

verus! {

// ---------------------------------------------------------------------------
// Receive buffer
// ---------------------------------------------------------------------------

/// The receive-side byte reservoir: a growable buffer whose first
/// `bytes_init` bytes are the unconsumed data read from the child.
pub struct RecvBuffer {
    buf: Vec<u8>,
    bytes_init: usize,
}

impl RecvBuffer {
    /// The unconsumed bytes.
    pub closed spec fn contents(&self) -> Seq<u8> {
        self.buf@.take(self.bytes_init as int)
    }

    /// The filled prefix never exceeds the buffer.
    pub closed spec fn wf(&self) -> bool {
        self.bytes_init <= self.buf@.len()
    }

    /// An empty receive buffer.
    pub fn new() -> (r: RecvBuffer)
        ensures
            r.wf(),
            r.contents() == Seq::<u8>::empty(),
    {
        let r = RecvBuffer { buf: Vec::new(), bytes_init: 0 };
        proof {
            assert(r.contents() =~= Seq::<u8>::empty());
        }
        r
    }

    /// Append one byte to the filled prefix. When the filled prefix reaches
    /// the end of the buffer, the buffer doubles (and starts at 256 bytes),
    /// so spare room is grown on demand, never per byte.
    fn push_byte(&mut self, b: u8)
        requires
            old(self).wf(),
            old(self).contents().len() < usize::MAX,
        ensures
            final(self).wf(),
            final(self).contents() == old(self).contents() + seq![b],
    {
        if self.bytes_init == self.buf.len() {
            let grown: usize = if self.buf.len() < 128 {
                256
            } else if self.buf.len() <= usize::MAX / 2 {
                self.buf.len() * 2
            } else {
                usize::MAX
            };
            self.buf.resize(grown, 0);
            proof {
                assert(self.buf@.take(self.bytes_init as int) =~= old(self).contents());
            }
        }
        self.buf[self.bytes_init] = b;
        proof {
            assert(self.buf@.take(self.bytes_init + 1int) =~= old(self).contents() + seq![b]);
        }
        self.bytes_init = self.bytes_init + 1;
    }

    /// Extend the filled prefix with a chunk read from the child.
    pub fn feed(&mut self, chunk: &[u8])
        requires
            old(self).wf(),
            old(self).contents().len() + chunk@.len() <= usize::MAX,
        ensures
            final(self).wf(),
            final(self).contents() == old(self).contents() + chunk@,
    {
        let ghost start = self.contents();
        let mut i: usize = 0;
        proof {
            assert(start + chunk@.take(0) =~= start);
        }
        while i < chunk.len()
            invariant
                0 <= i <= chunk@.len(),
                self.wf(),
                self.contents() == start + chunk@.take(i as int),
                start.len() + chunk@.len() <= usize::MAX,
            decreases chunk@.len() - i,
        {
            let b = *vstd::slice::slice_index_get(chunk, i);
            self.push_byte(b);
            proof {
                assert(start + chunk@.take(i + 1int) =~= (start + chunk@.take(i as int)) + seq![b]);
            }
            i = i + 1;
        }
        proof {
            assert(chunk@.take(chunk@.len() as int) =~= chunk@);
        }
    }

    /// How many unconsumed bytes are held.
    pub fn len(&self) -> (r: usize)
        requires
            self.wf(),
        ensures
            r == self.contents().len(),
    {
        self.bytes_init
    }

    /// Try to carve one frame out of the filled prefix. On success the
    /// payload is returned and the buffer is compacted: the consumed bytes
    /// are dropped and the unconsumed tail is shifted to the front. When the
    /// prefix holds no whole frame, or a fatal desync is found, nothing is
    /// consumed.
    pub fn try_carve(&mut self) -> (r: Result<Option<Vec<u8>>, ParseError>)
        requires
            old(self).wf(),
        ensures
            final(self).wf(),
            (match r {
                Ok(Some(payload)) => {
                    &&& spec_parse(old(self).contents()) matches SpecParse::Frame {
                        start,
                        consumed,
                    }
                    &&& payload@ == old(self).contents().subrange(start, consumed)
                    &&& final(self).contents() == old(self).contents().skip(consumed)
                },
                Ok(None) => {
                    &&& spec_parse(old(self).contents()) is NeedMore
                    &&& final(self).contents() == old(self).contents()
                },
                Err(e) => {
                    &&& final(self).contents() == old(self).contents()
                    &&& !(e is NeedMoreData)
                    &&& (e matches ParseError::UnexpectedToken { expected, found } ==> {
                        &&& spec_parse(old(self).contents()) matches SpecParse::BadLit { at, lit }
                        &&& expected@ == lit
                        &&& found@ == old(self).contents().skip(at)
                    })
                    &&& (e is InvalidInt ==> spec_parse(old(self).contents()) is BadNumber)
                },
            }),
    {
        let ghost oldc = self.contents();
        let filled = vstd::slice::slice_subrange(self.buf.as_slice(), 0, self.bytes_init);
        proof {
            assert(filled@ == oldc);
        }
        let (payload, consumed) = match parse_message(filled) {
            Ok(pc) => pc,
            Err(ParseError::NeedMoreData) => {
                return Ok(None);
            },
            Err(e) => {
                return Err(e);
            },
        };
        let keep = self.bytes_init - consumed;
        let ghost oldbuf = self.buf@;
        let mut i: usize = 0;
        while i < keep
            invariant
                0 <= i <= keep,
                keep + consumed == self.bytes_init <= self.buf@.len(),
                0 < consumed,
                self.buf@.len() == oldbuf.len(),
                forall|t: int| 0 <= t < i ==> self.buf@[t] == oldbuf[consumed + t],
                forall|t: int| i <= t < oldbuf.len() ==> self.buf@[t] == oldbuf[t],
            decreases keep - i,
        {
            let b = *vstd::slice::slice_index_get(self.buf.as_slice(), consumed + i);
            self.buf[i] = b;
            i = i + 1;
        }
        self.bytes_init = keep;
        proof {
            assert(self.contents() =~= oldc.skip(consumed as int));
        }
        Ok(Some(payload))
    }
}

// ---------------------------------------------------------------------------
// Connection
// ---------------------------------------------------------------------------

/// What one receive step asks of the event loop.
pub enum RecvStep {
    /// The buffer holds no whole frame: read more bytes and feed them in.
    NeedRead,
    /// One frame was consumed and decoded into a response envelope.
    Envelope(ResponseEnvelope),
}

/// What the connection does when the child terminates.
pub enum ExitOutcome {
    /// A clean exit: the connection ends, no further messages are possible.
    CleanShutdown,
    /// An abnormal exit: a fatal bridge failure.
    Fatal,
}

/// Any child termination ends the connection; only a clean exit is not fatal.
pub fn exit_outcome(clean: bool) -> (r: ExitOutcome)
    ensures
        r == (if clean {
            ExitOutcome::CleanShutdown
        } else {
            ExitOutcome::Fatal
        }),
{
    if clean {
        ExitOutcome::CleanShutdown
    } else {
        ExitOutcome::Fatal
    }
}

/// Every id in the table is below the bound.
pub open spec fn ids_below<D>(m: Map<u64, D>, bound: u64) -> bool {
    forall|id: u64| #[trigger] m.contains_key(id) ==> id < bound
}

/// The request-multiplexing connection: the receive buffer, the monotonic id
/// counter, and the pending table mapping each in-flight request id to its
/// single-use response destination `D`.
pub struct Connection<D> {
    reader: RecvBuffer,
    next_id: u64,
    pending: HashMap<u64, D>,
}

impl<D> Connection<D> {
    /// The unconsumed bytes received from the child.
    pub closed spec fn buffered(&self) -> Seq<u8> {
        self.reader.contents()
    }

    /// The id the next outbound call will be assigned.
    pub closed spec fn next_id_spec(&self) -> u64 {
        self.next_id
    }

    /// The in-flight requests: id to destination.
    pub closed spec fn pending_map(&self) -> Map<u64, D> {
        self.pending@
    }

    /// Every pending id was assigned by this connection, so ids never clash.
    pub closed spec fn wf(&self) -> bool {
        &&& self.reader.wf()
        &&& ids_below(self.pending@, self.next_id)
    }

    /// A fresh connection: ids start at zero, nothing pending, nothing
    /// buffered.
    pub fn new() -> (r: Connection<D>)
        ensures
            r.wf(),
            r.next_id_spec() == 0,
            r.pending_map() == Map::<u64, D>::empty(),
            r.buffered() == Seq::<u8>::empty(),
    {
        Connection { reader: RecvBuffer::new(), next_id: 0, pending: HashMap::new() }
    }

    /// The id the next call will be assigned.
    pub fn next_id_value(&self) -> (r: u64)
        ensures
            r == self.next_id_spec(),
    {
        self.next_id
    }

    /// How many bytes are buffered and not yet consumed.
    pub fn buffered_len(&self) -> (r: usize)
        requires
            self.wf(),
        ensures
            r == self.buffered().len(),
    {
        self.reader.len()
    }

    /// How many calls are in flight.
    pub fn pending_len(&self) -> (r: usize)
        ensures
            r == self.pending_map().len(),
    {
        self.pending.len()
    }

    /// Register a new outbound call: assign it the next id, record its
    /// destination in the pending table, and return the framed request bytes
    /// the event loop must write to the child — the frame around the envelope
    /// of `method`, the assigned id, and the JSON text of `params`.
    pub fn send(&mut self, method: &[u8], params: &serde_json::Value, dest: D) -> (r: Vec<u8>)
        requires
            old(self).wf(),
            old(self).next_id_spec() < u64::MAX,
        ensures
            final(self).wf(),
            final(self).next_id_spec() == old(self).next_id_spec() + 1,
            final(self).pending_map() == old(self).pending_map().insert(
                old(self).next_id_spec(),
                dest,
            ),
            final(self).buffered() == old(self).buffered(),
            r@ == frame_of_request(method@, old(self).next_id_spec(), *params),
            depth_ok(*params) ==> parsed_of(json_text_of(*params)) == Some(*params),
    {
        let params_json = crate::json::to_json_bytes(params);
        let framed = crate::envelope::encode_request(method, self.next_id, params_json.as_slice());
        self.pending.insert(self.next_id, dest);
        self.next_id = self.next_id + 1;
        proof {
            assert(ids_below(self.pending@, self.next_id)) by {
                assert forall|id: u64| #[trigger] self.pending@.contains_key(id) implies id
                    < self.next_id by {
                    if id != old(self).next_id {
                        assert(old(self).pending@.contains_key(id));
                    }
                }
            };
        }
        framed
    }

    /// Feed the connection a chunk of bytes read from the child.
    pub fn feed(&mut self, chunk: &[u8])
        requires
            old(self).wf(),
            old(self).buffered().len() + chunk@.len() <= usize::MAX,
        ensures
            final(self).wf(),
            final(self).buffered() == old(self).buffered() + chunk@,
            final(self).pending_map() == old(self).pending_map(),
            final(self).next_id_spec() == old(self).next_id_spec(),
    {
        self.reader.feed(chunk);
    }

    /// One receive step: try to carve a frame from the buffered bytes. When
    /// none is complete, ask the event loop to read more; when one is, consume
    /// exactly its bytes and decode its body as a response envelope. Framing
    /// desyncs and undecodable bodies are fatal errors. The outcome is a
    /// function of the buffered bytes alone, so a frame fed in pieces decodes
    /// to the same envelope as one fed whole, and two queued frames decode to
    /// their own envelopes in order.
    pub fn recv(&mut self) -> (r: Result<RecvStep, ReadError>)
        requires
            old(self).wf(),
        ensures
            final(self).wf(),
            final(self).pending_map() == old(self).pending_map(),
            final(self).next_id_spec() == old(self).next_id_spec(),
            (spec_parse(old(self).buffered()) is NeedMore ==> r == Ok::<RecvStep, ReadError>(
                RecvStep::NeedRead,
            ) && final(self).buffered() == old(self).buffered()),
            (spec_parse(old(self).buffered()) matches SpecParse::Frame { start, consumed } ==> {
                &&& final(self).buffered() == old(self).buffered().skip(consumed)
                &&& (match parsed_of(old(self).buffered().subrange(start, consumed)) {
                    Option::None => r matches Err(ReadError::InvalidJson(_)),
                    Option::Some(v) => if jsonrpc_ok(v) && id_field_ok(v) {
                        r == Ok::<RecvStep, ReadError>(RecvStep::Envelope(envelope_of(v)))
                    } else {
                        r == Err::<RecvStep, ReadError>(ReadError::InvalidEnvelope)
                    },
                })
            }),
            (spec_parse(old(self).buffered()) matches SpecParse::BadLit { at, lit } ==> {
                &&& final(self).buffered() == old(self).buffered()
                &&& r matches Err(ReadError::Parse(ParseError::UnexpectedToken { expected, found }))
                &&& expected@ == lit
                &&& found@ == old(self).buffered().skip(at)
            }),
            (spec_parse(old(self).buffered()) is BadNumber ==> final(self).buffered() == old(
                self,
            ).buffered() && r == Err::<RecvStep, ReadError>(
                ReadError::Parse(ParseError::InvalidInt),
            )),
    {
        let payload = match self.reader.try_carve() {
            Ok(Some(payload)) => payload,
            Ok(None) => {
                return Ok(RecvStep::NeedRead);
            },
            Err(e) => {
                return Err(ReadError::Parse(e));
            },
        };
        match decode_envelope(payload.as_slice()) {
            Ok(env) => Ok(RecvStep::Envelope(env)),
            Err(e) => Err(e),
        }
    }

    /// Route a decoded response envelope. An envelope without an id, or with
    /// an id no call is waiting on, is discarded: nothing is delivered and no
    /// state changes. Otherwise the matching pending entry — and only it — is
    /// consumed, and its destination is handed back with the envelope's
    /// message: `result` if present, else `error`, else null.
    pub fn deliver(&mut self, env: ResponseEnvelope) -> (r: Option<(D, Message)>)
        requires
            old(self).wf(),
        ensures
            final(self).wf(),
            final(self).buffered() == old(self).buffered(),
            final(self).next_id_spec() == old(self).next_id_spec(),
            (match env.id {
                Option::None => r is None && final(self).pending_map() == old(self).pending_map(),
                Option::Some(id) => {
                    if old(self).pending_map().contains_key(id) {
                        &&& r == Some((old(self).pending_map()[id], extracted(env.result, env.error)))
                        &&& final(self).pending_map() == old(self).pending_map().remove(id)
                    } else {
                        &&& r is None
                        &&& final(self).pending_map() == old(self).pending_map()
                    }
                },
            }),
    {
        let ResponseEnvelope { id, result, error } = env;
        let r = match id {
            Option::None => Option::None,
            Option::Some(id) => {
                match self.pending.remove(&id) {
                    Option::Some(dest) => Option::Some((dest, extract_message(result, error))),
                    Option::None => Option::None,
                }
            },
        };
        proof {
            assert(ids_below(self.pending@, self.next_id)) by {
                assert forall|id: u64| #[trigger] self.pending@.contains_key(id) implies id
                    < self.next_id by {
                    assert(old(self).pending@.contains_key(id));
                }
            };
        }
        r
    }
}

/// The pending table after the first `k` responses of `order` have been
/// matched and removed, starting from `m0`.
pub open spec fn table_after<D>(m0: Map<u64, D>, order: Seq<u64>, k: int) -> Map<u64, D>
    decreases k,
{
    if k <= 0 {
        m0
    } else {
        table_after(m0, order, k - 1).remove(order[k - 1])
    }
}

/// After `k` matched responses, the table holds exactly the entries of `m0`
/// whose ids have not yet been answered, unchanged.
proof fn lemma_table_after<D>(m0: Map<u64, D>, order: Seq<u64>, k: int)
    requires
        0 <= k <= order.len(),
    ensures
        forall|id: u64| #[trigger] table_after(m0, order, k).contains_key(id) <==> (
        m0.contains_key(id) && !order.take(k).contains(id)),
        forall|id: u64| #[trigger] table_after(m0, order, k).contains_key(id) ==> table_after(
            m0,
            order,
            k,
        )[id] == m0[id],
    decreases k,
{
    if k > 0 {
        lemma_table_after(m0, order, k - 1);
        assert(order.take(k) =~= order.take(k - 1).push(order[k - 1]));
        assert forall|id: u64| order.take(k).contains(id) <==> (order.take(k - 1).contains(id)
            || order[k - 1] == id) by {
            let pre = order.take(k - 1);
            if pre.contains(id) {
                let t = choose|t: int| 0 <= t < pre.len() && pre[t] == id;
                assert(order.take(k)[t] == id);
            }
            if order[k - 1] == id {
                assert(order.take(k)[k - 1] == id);
            }
            if order.take(k).contains(id) {
                let t = choose|t: int| 0 <= t < k && order.take(k)[t] == id;
                if t < k - 1 {
                    assert(pre[t] == id);
                }
            }
        }
        assert forall|id: u64| #[trigger] table_after(m0, order, k).contains_key(id) <==> (
        m0.contains_key(id) && !order.take(k).contains(id)) by {
            assert(table_after(m0, order, k) == table_after(m0, order, k - 1).remove(
                order[k - 1],
            ));
            assert(table_after(m0, order, k - 1).contains_key(id) <==> (m0.contains_key(id)
                && !order.take(k - 1).contains(id)));
        }
        assert forall|id: u64| #[trigger] table_after(m0, order, k).contains_key(id) implies
            table_after(m0, order, k)[id] == m0[id] by {
            assert(table_after(m0, order, k - 1).contains_key(id));
        }
    }
}

/// Id correlation over any number of calls: start from any pending table and
/// let the responses arrive in any order of distinct ids. Each response finds
/// its own call still pending, with the destination the call registered, and
/// consumes exactly that entry — so every caller is fulfilled exactly once,
/// whatever the arrival order; and once the ids have been answered, none of
/// them is pending any more.
pub proof fn lemma_each_delivered_once<D>(m0: Map<u64, D>, order: Seq<u64>)
    requires
        forall|t: int| 0 <= t < order.len() ==> m0.contains_key(#[trigger] order[t]),
        forall|s: int, t: int| 0 <= s < t < order.len() ==> order[s] != order[t],
    ensures
        forall|k: int|
            0 <= k < order.len() ==> {
                &&& table_after(m0, order, k).contains_key(#[trigger] order[k])
                &&& table_after(m0, order, k)[order[k]] == m0[order[k]]
                &&& !table_after(m0, order, k + 1).contains_key(order[k])
            },
{
    assert forall|k: int| 0 <= k < order.len() implies {
        &&& table_after(m0, order, k).contains_key(#[trigger] order[k])
        &&& table_after(m0, order, k)[order[k]] == m0[order[k]]
        &&& !table_after(m0, order, k + 1).contains_key(order[k])
    } by {
        lemma_table_after(m0, order, k);
        lemma_table_after(m0, order, k + 1);
        assert(!order.take(k).contains(order[k])) by {
            if order.take(k).contains(order[k]) {
                let t = choose|t: int| 0 <= t < k && order.take(k)[t] == order[k];
                assert(order[t] == order[k]);
            }
        }
        assert(order.take(k + 1).contains(order[k])) by {
            assert(order.take(k + 1)[k] == order[k]);
        }
    }
}

/// Id correlation: responses are matched to callers by id alone, and each
/// pending id is fulfilled at most once. With two calls pending under
/// distinct ids, a response to either id selects exactly that call's
/// destination, in whichever order the responses arrive; once an id has been
/// consumed a duplicate response to it selects nothing; and an id that was
/// never registered selects nothing and removes nothing.
pub proof fn lemma_id_correlation<D>(pending: Map<u64, D>, a: u64, b: u64)
    requires
        pending.contains_key(a),
        pending.contains_key(b),
        a != b,
    ensures
        pending.remove(a).contains_key(b) && pending.remove(a)[b] == pending[b],
        pending.remove(b).contains_key(a) && pending.remove(b)[a] == pending[a],
        !pending.remove(a).contains_key(a),
        !pending.remove(b).contains_key(b),
        pending.remove(a).remove(b) == pending.remove(b).remove(a),
        forall|x: u64| !pending.contains_key(x) ==> !pending.remove(a).contains_key(x),
{
    assert(pending.remove(a).remove(b) =~= pending.remove(b).remove(a));
}

} // verus!
