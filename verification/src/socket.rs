//! The per-connection state machine: it reassembles packets that await
//! binary frames, dispatches events and acknowledgments, and produces the
//! frames to send.
//!
//! The machine owns no transport and no handler closures: an inbound frame
//! yields the frames to reply with and an `Action` naming the handler work
//! the embedding must do; the frames an emit produces are handed back to be
//! sent.

use vstd::prelude::*;

use crate::attach::{
    bin_count_list, blobs, encode_data, ext_list, ext_val, inj_ok, inj_val, inject,
    lemma_view_data_seq, view_data_seq,
};
use crate::packet::{spec_decode, spec_encode, spec_error_packet, Error, Opcode, Packet, SpecPacket};
use crate::value::{copy_bytes, lemma_view_seq, view_seq, Data, Val, Value};

verus! {

/// One transport frame to send: the textual framing or one binary
/// attachment.
#[derive(Debug, PartialEq, Eq)]
pub enum Frame {
    Text(Vec<u8>),
    Binary(Vec<u8>),
}

/// The model of a frame.
pub enum SpecFrame {
    Text(Seq<u8>),
    Binary(Seq<u8>),
}

impl Frame {
    /// The model of this frame.
    pub open spec fn view(self) -> SpecFrame {
        match self {
            Frame::Text(b) => SpecFrame::Text(b@),
            Frame::Binary(b) => SpecFrame::Binary(b@),
        }
    }
}

/// The models of a sequence of frames, in order.
pub open spec fn view_frames(fs: Seq<Frame>) -> Seq<SpecFrame>
    decreases fs,
{
    if fs.len() == 0 {
        Seq::<SpecFrame>::empty()
    } else {
        view_frames(fs.drop_last()).push(fs.last().view())
    }
}

/// `view_frames` maps the view over the frames, one for one.
pub broadcast proof fn lemma_view_frames(fs: Seq<Frame>)
    ensures
        #[trigger] view_frames(fs).len() == fs.len(),
        forall|i: int| 0 <= i < fs.len() ==> view_frames(fs)[i] == fs[i].view(),
    decreases fs,
{
    if fs.len() > 0 {
        lemma_view_frames(fs.drop_last());
    }
}

/// What the embedding must do after an inbound frame was taken in.
#[derive(Debug, PartialEq, Eq)]
pub enum Action {
    /// Nothing: the frame was consumed, buffered, answered, or dropped.
    Ignore,
    /// Call the handler registered for `event` with the parameters and the
    /// attachments; when `ack_id` is set, hand the handler's result to
    /// `send_ack` under that id and send what it returns.
    Invoke { event: Vec<u8>, params: Vec<Value>, attachments: Option<Vec<Vec<u8>>>, ack_id: Option<
        usize,
    > },
    /// Call the one-shot continuation registered under `id` (now released)
    /// with the payload and the attachments.
    AckInvoke { id: usize, data: Option<Value>, attachments: Option<Vec<Vec<u8>>> },
    /// The peer asked to disconnect: close the transport and unregister.
    CloseRequested,
    /// The peer reported an error.
    PeerError { data: Option<Value> },
}

/// The model of an action.
pub enum SpecAction {
    Ignore,
    Invoke { event: Seq<u8>, params: Seq<Val>, attachments: Option<Seq<Seq<u8>>>, ack_id: Option<
        nat,
    > },
    AckInvoke { id: nat, data: Option<Val>, attachments: Option<Seq<Seq<u8>>> },
    CloseRequested,
    PeerError { data: Option<Val> },
}

impl Action {
    /// The model of this action.
    pub open spec fn view(self) -> SpecAction {
        match self {
            Action::Ignore => SpecAction::Ignore,
            Action::Invoke { event, params, attachments, ack_id } => SpecAction::Invoke {
                event: event@,
                params: view_seq(params@),
                attachments: match attachments {
                    Some(at) => Some(blobs(at@)),
                    None => None,
                },
                ack_id: match ack_id {
                    Some(i) => Some(i as nat),
                    None => None,
                },
            },
            Action::AckInvoke { id, data, attachments } => SpecAction::AckInvoke {
                id: id as nat,
                data: match data {
                    Some(v) => Some(v@),
                    None => None,
                },
                attachments: match attachments {
                    Some(at) => Some(blobs(at@)),
                    None => None,
                },
            },
            Action::CloseRequested => SpecAction::CloseRequested,
            Action::PeerError { data } => SpecAction::PeerError {
                data: match data {
                    Some(v) => Some(v@),
                    None => None,
                },
            },
        }
    }
}

/// The model of a connection.
#[verifier::ext_equal]
pub struct SpecSocket {
    pub id: Seq<u8>,
    pub callbacks: Seq<Seq<u8>>,
    pub pending: Seq<nat>,
    pub rooms: Seq<Seq<u8>>,
    pub namespace: Option<Seq<u8>>,
    pub buffered: Option<SpecPacket>,
    pub next_ack: nat,
}

/// One connection: the handler names registered, the acknowledgments
/// outstanding, the rooms joined, the namespace the peer connected to, the
/// packet awaiting its binary frames, and the acknowledgment counter.
#[derive(Debug)]
pub struct Socket {
    /// The transport's stable session identifier.
    pub id: Vec<u8>,
    /// Event names with a registered handler; the embedding keeps the
    /// handlers themselves.
    pub callbacks: Vec<Vec<u8>>,
    /// Acknowledgment ids awaiting a reply.
    pub pending_acks: Vec<usize>,
    /// Rooms this connection has joined.
    pub rooms_joined: Vec<Vec<u8>>,
    /// Set by the most recent inbound connect packet.
    pub namespace: Option<Vec<u8>>,
    /// The packet awaiting its declared binary frames.
    pub buffered: Option<Packet>,
    /// The next acknowledgment id to hand out.
    pub next_ack_id: usize,
}

/// The model of a sequence of acknowledgment ids.
pub open spec fn view_ids(v: Seq<usize>) -> Seq<nat> {
    v.map_values(|x: usize| x as nat)
}

impl Socket {
    /// The model of this connection.
    pub open spec fn view(self) -> SpecSocket {
        SpecSocket {
            id: self.id@,
            callbacks: blobs(self.callbacks@),
            pending: view_ids(self.pending_acks@),
            rooms: blobs(self.rooms_joined@),
            namespace: match self.namespace {
                Some(ns) => Some(ns@),
                None => None,
            },
            buffered: match self.buffered {
                Some(p) => Some(p@),
                None => None,
            },
            next_ack: self.next_ack_id as nat,
        }
    }

    /// A fresh connection over the transport session named `id`.
    pub fn new(id: Vec<u8>) -> (r: Socket)
        ensures
            r@ == (SpecSocket {
                id: id@,
                callbacks: Seq::<Seq<u8>>::empty(),
                pending: Seq::<nat>::empty(),
                rooms: Seq::<Seq<u8>>::empty(),
                namespace: None,
                buffered: None,
                next_ack: 0,
            }),
    {
        let r = Socket {
            id,
            callbacks: Vec::new(),
            pending_acks: Vec::new(),
            rooms_joined: Vec::new(),
            namespace: None,
            buffered: None,
            next_ack_id: 0,
        };
        proof {
            assert(blobs(r.callbacks@) =~= Seq::<Seq<u8>>::empty());
            assert(view_ids(r.pending_acks@) =~= Seq::<nat>::empty());
            assert(blobs(r.rooms_joined@) =~= Seq::<Seq<u8>>::empty());
        }
        r
    }

    /// The transport session identifier.
    pub fn id(&self) -> (r: Vec<u8>)
        ensures
            r@ == self@.id,
    {
        copy_bytes(&self.id)
    }

    /// Registers a handler name for `event`; the embedding maps the name to
    /// the handler itself, last writer winning.
    pub fn on(&mut self, event: Vec<u8>)
        ensures
            final(self)@ == (SpecSocket { callbacks: old(self)@.callbacks.push(event@), ..old(
                self,
            )@ }),
    {
        let ghost pre = self.callbacks@;
        self.callbacks.push(event);
        proof {
            assert(blobs(self.callbacks@) =~= blobs(pre).push(self.callbacks@.last()@));
            assert(self@ =~= (SpecSocket { callbacks: old(self)@.callbacks.push(
                self.callbacks@.last()@,
            ), ..old(self)@ }));
        }
    }
}

/// A copy of an optional byte vector.
pub fn copy_opt_bytes(ns: &Option<Vec<u8>>) -> (r: Option<Vec<u8>>)
    ensures
        (match ns {
            Some(b) => r matches Some(rb) && rb@ == b@,
            None => r is None,
        }),
{
    match ns {
        Some(b) => Some(copy_bytes(b)),
        None => None,
    }
}

/// Whether one of the byte vectors holds the same bytes as `x`.
#[verifier::loop_isolation(false)]
pub fn contains_bytes(v: &Vec<Vec<u8>>, x: &Vec<u8>) -> (r: bool)
    ensures
        r == blobs(v@).contains(x@),
{
    let mut k: usize = 0;
    while k < v.len()
        invariant
            k <= v@.len(),
            forall|i: int| 0 <= i < k ==> blobs(v@)[i] != x@,
        decreases v@.len() - k,
    {
        if crate::attach::bytes_eq(&v[k], x) {
            proof {
                assert(blobs(v@)[k as int] == x@);
            }
            return true;
        }
        k = k + 1;
    }
    proof {
        if blobs(v@).contains(x@) {
            let i = choose|i: int| 0 <= i < blobs(v@).len() && blobs(v@)[i] == x@;
            assert(false);
        }
    }
    false
}

/// The payload sequence an emit carries: the event name, then the
/// parameters.
pub open spec fn emit_payload(event: Seq<u8>, params: Seq<Val>) -> Val {
    Val::Arr(seq![Val::Str(event)] + params)
}

/// The frames one packet with extracted attachments becomes: the framing
/// text, then each attachment as a binary frame, in order.
pub open spec fn packet_frames(p: SpecPacket, bins: Seq<Seq<u8>>) -> Seq<SpecFrame> {
    seq![SpecFrame::Text(spec_encode(p))] + bins.map_values(|b: Seq<u8>| SpecFrame::Binary(b))
}

/// The frames an emit of `event` with `params` produces under namespace
/// `ns` and acknowledgment id `id`: the payload's binary leaves become
/// placeholders and follow as binary frames.
pub open spec fn emit_frames(
    ns: Option<Seq<u8>>,
    event: Seq<u8>,
    params: Seq<Val>,
    id: Option<nat>,
) -> Seq<SpecFrame> {
    let e = ext_val(emit_payload(event, params), 0);
    packet_frames(
        SpecPacket {
            namespace: ns,
            opcode: if e.1.len() == 0 {
                Opcode::Event
            } else {
                Opcode::BinaryEvent
            },
            id,
            attachments_num: e.1.len(),
            data: Some(e.0),
            attachments: None,
        },
        e.1,
    )
}

/// The frames an acknowledgment under `id` with payload `result` produces.
pub open spec fn ack_frames(ns: Option<Seq<u8>>, id: nat, result: Seq<Val>) -> Seq<SpecFrame> {
    let e = ext_list(result, 0);
    packet_frames(
        SpecPacket {
            namespace: ns,
            opcode: if e.1.len() == 0 {
                Opcode::Ack
            } else {
                Opcode::BinaryAck
            },
            id: Some(id),
            attachments_num: e.1.len(),
            data: Some(Val::Arr(e.0)),
            attachments: None,
        },
        e.1,
    )
}

/// The one frame that reports the error `e` to the peer.
pub open spec fn error_frames(ns: Option<Seq<u8>>, e: Error) -> Seq<SpecFrame> {
    seq![SpecFrame::Text(spec_encode(spec_error_packet(ns, e)))]
}

/// Appends the encoded packet as a text frame, then each collected binary
/// frame, in order.
pub fn push_packet_frames(p: &Packet, bins: Vec<Vec<u8>>, out: &mut Vec<Frame>)
    ensures
        view_frames(final(out)@) == view_frames(old(out)@) + packet_frames(p@, blobs(bins@)),
{
    let text = p.encode();
    out.push(Frame::Text(text));
    let ghost head = out@;
    let ghost bins0 = bins@;
    let mut rem = bins;
    while rem.len() > 0
        invariant
            rem@.len() <= bins0.len(),
            out@.len() == head.len() + bins0.len() - rem@.len(),
            out@.subrange(0, head.len() as int) =~= head,
            rem@ =~= bins0.skip(bins0.len() - rem@.len()),
            forall|i: int|
                0 <= i < bins0.len() - rem@.len() ==> out@[head.len() + i] == (Frame::Binary(
                    bins0[i],
                )),
        decreases rem@.len(),
    {
        let ghost done = bins0.len() - rem@.len();
        let b = rem.remove(0);
        proof {
            assert(b == bins0[done as int]);
        }
        out.push(Frame::Binary(b));
        proof {
            assert(rem@ =~= bins0.skip(bins0.len() - rem@.len()));
            assert(out@.subrange(0, head.len() as int) =~= head);
        }
    }
    proof {
        lemma_view_frames(out@);
        lemma_view_frames(old(out)@);
        let target = view_frames(old(out)@) + packet_frames(p@, blobs(bins0));
        assert(view_frames(out@).len() == target.len());
        assert forall|i: int| 0 <= i < out@.len() implies view_frames(out@)[i] == target[i] by {
            let hl = head.len() as int;
            if i < hl {
                assert(out@.subrange(0, hl)[i] == out@[i]);
                assert(out@[i] == head[i]);
                if i < hl - 1 {
                    assert(head[i] == old(out)@[i]);
                } else {
                    assert(head[i] == head.last());
                    assert(packet_frames(p@, blobs(bins0))[0] == SpecFrame::Text(spec_encode(p@)));
                }
            } else {
                let j = i - hl;
                assert(out@[hl + j] == Frame::Binary(bins0[j]));
                assert(blobs(bins0)[j] == bins0[j]@);
                assert(packet_frames(p@, blobs(bins0))[j + 1] == SpecFrame::Binary(
                    blobs(bins0)[j],
                ));
            }
        }
        assert(view_frames(out@) =~= target);
    }
}

/// The event name an event packet addresses: the first payload element,
/// when it is a string.
pub open spec fn spec_event_name(q: SpecPacket) -> Option<Seq<u8>> {
    match q.data {
        Some(v) => if v is Arr && v->Arr_0.len() >= 1 && v->Arr_0[0] is Str {
            Some(v->Arr_0[0]->Str_0)
        } else {
            None
        },
        None => None,
    }
}

/// `s` without its first occurrence of `x`.
pub open spec fn remove_first<A>(s: Seq<A>, x: A) -> Seq<A>
    decreases s,
{
    if s.len() == 0 {
        s
    } else if s[0] == x {
        s.drop_first()
    } else {
        seq![s[0]] + remove_first(s.drop_first(), x)
    }
}

/// Removing a value that is not there changes nothing.
pub proof fn lemma_remove_first_absent<A>(s: Seq<A>, x: A)
    requires
        !s.contains(x),
    ensures
        remove_first(s, x) == s,
    decreases s,
{
    if s.len() > 0 {
        assert(s[0] != x);
        assert(!s.drop_first().contains(x)) by {
            if s.drop_first().contains(x) {
                let i = choose|i: int|
                    0 <= i < s.drop_first().len() && s.drop_first()[i] == x;
                assert(s[i + 1] == x);
            }
        }
        lemma_remove_first_absent(s.drop_first(), x);
        assert(remove_first(s, x) =~= s);
    }
}

/// Removing the value first found at `i` drops exactly that element.
pub proof fn lemma_remove_first_at<A>(s: Seq<A>, x: A, i: int)
    requires
        0 <= i < s.len(),
        s[i] == x,
        forall|j: int| 0 <= j < i ==> s[j] != x,
    ensures
        remove_first(s, x) == s.subrange(0, i) + s.subrange(i + 1, s.len() as int),
    decreases i,
{
    if i == 0 {
        assert(remove_first(s, x) == s.drop_first());
        assert(s.drop_first() =~= s.subrange(0, 0) + s.subrange(1, s.len() as int));
    } else {
        assert(s.drop_first()[i - 1] == x);
        assert forall|j: int| 0 <= j < i - 1 implies s.drop_first()[j] != x by {
            assert(s[j + 1] != x);
        }
        lemma_remove_first_at(s.drop_first(), x, i - 1);
        assert(remove_first(s, x) =~= s.subrange(0, i) + s.subrange(i + 1, s.len() as int));
    }
}

/// Whether one of the ids equals `x`.
#[verifier::loop_isolation(false)]
pub fn contains_id(v: &Vec<usize>, x: usize) -> (r: bool)
    ensures
        r == view_ids(v@).contains(x as nat),
{
    let mut k: usize = 0;
    while k < v.len()
        invariant
            k <= v@.len(),
            forall|i: int| 0 <= i < k ==> view_ids(v@)[i] != x as nat,
        decreases v@.len() - k,
    {
        if v[k] == x {
            proof {
                assert(view_ids(v@)[k as int] == x as nat);
            }
            return true;
        }
        k = k + 1;
    }
    proof {
        if view_ids(v@).contains(x as nat) {
            let i = choose|i: int| 0 <= i < view_ids(v@).len() && view_ids(v@)[i] == x as nat;
            assert(false);
        }
    }
    false
}

/// Removes the first occurrence of `x`.
#[verifier::loop_isolation(false)]
pub fn remove_id(v: &mut Vec<usize>, x: usize)
    ensures
        view_ids(final(v)@) == remove_first(view_ids(old(v)@), x as nat),
{
    let mut k: usize = 0;
    while k < v.len()
        invariant
            k <= v@.len(),
            v@ == old(v)@,
            forall|i: int| 0 <= i < k ==> view_ids(v@)[i] != x as nat,
        decreases v@.len() - k,
    {
        if v[k] == x {
            v.remove(k);
            proof {
                assert(view_ids(old(v)@)[k as int] == x as nat);
                lemma_remove_first_at(view_ids(old(v)@), x as nat, k as int);
                assert(view_ids(v@) =~= view_ids(old(v)@).subrange(0, k as int) + view_ids(
                    old(v)@,
                ).subrange(k as int + 1, old(v)@.len() as int));
            }
            return ;
        }
        k = k + 1;
    }
    proof {
        if view_ids(v@).contains(x as nat) {
            let i = choose|i: int| 0 <= i < view_ids(v@).len() && view_ids(v@)[i] == x as nat;
            assert(false);
        }
        lemma_remove_first_absent(view_ids(v@), x as nat);
    }
}

/// `s` with its reassembly slot emptied.
pub open spec fn spec_clear_buffered(s: SpecSocket) -> SpecSocket {
    SpecSocket { buffered: None, ..s }
}

/// How one decoded packet moves the connection: binary packets that declare
/// attachments are buffered; a connect sets the namespace; a disconnect asks
/// to close; events call a handler or, unanswered but acknowledged, reply an
/// empty acknowledgment; acknowledgments release and call their
/// continuation; a peer error is reported.
pub open spec fn spec_dispatch(s: SpecSocket, q: SpecPacket) -> (SpecSocket, Seq<SpecFrame>, SpecAction) {
    if q.opcode.spec_is_binary() && q.attachments_num > 0 && (match q.attachments {
        Some(at) => at.len() < q.attachments_num,
        None => true,
    }) {
        (SpecSocket { buffered: Some(q), ..s }, Seq::<SpecFrame>::empty(), SpecAction::Ignore)
    } else {
        match q.opcode {
            Opcode::Connect => (
                SpecSocket { namespace: q.namespace, ..s },
                Seq::<SpecFrame>::empty(),
                SpecAction::Ignore,
            ),
            Opcode::Disconnect => (s, Seq::<SpecFrame>::empty(), SpecAction::CloseRequested),
            Opcode::Error => (
                s,
                Seq::<SpecFrame>::empty(),
                SpecAction::PeerError { data: q.data },
            ),
            Opcode::Event => spec_dispatch_event(s, q),
            Opcode::BinaryEvent => spec_dispatch_event(s, q),
            Opcode::Ack => spec_dispatch_ack(s, q),
            Opcode::BinaryAck => spec_dispatch_ack(s, q),
        }
    }
}

/// The event leg of `spec_dispatch`.
pub open spec fn spec_dispatch_event(s: SpecSocket, q: SpecPacket) -> (
    SpecSocket,
    Seq<SpecFrame>,
    SpecAction,
) {
    match spec_event_name(q) {
        Some(e) => if s.callbacks.contains(e) {
            (
                s,
                Seq::<SpecFrame>::empty(),
                SpecAction::Invoke {
                    event: e,
                    params: q.data->Some_0->Arr_0.drop_first(),
                    attachments: q.attachments,
                    ack_id: q.id,
                },
            )
        } else {
            spec_unhandled_reply(s, q)
        },
        None => spec_unhandled_reply(s, q),
    }
}

/// An event nobody handles: acknowledged events get an empty
/// acknowledgment, the rest pass in silence.
pub open spec fn spec_unhandled_reply(s: SpecSocket, q: SpecPacket) -> (
    SpecSocket,
    Seq<SpecFrame>,
    SpecAction,
) {
    match q.id {
        Some(i) => (s, ack_frames(s.namespace, i, Seq::<Val>::empty()), SpecAction::Ignore),
        None => (s, Seq::<SpecFrame>::empty(), SpecAction::Ignore),
    }
}

/// The acknowledgment leg of `spec_dispatch`: a known id is released and its
/// continuation called; an unknown id passes in silence.
pub open spec fn spec_dispatch_ack(s: SpecSocket, q: SpecPacket) -> (
    SpecSocket,
    Seq<SpecFrame>,
    SpecAction,
) {
    match q.id {
        Some(i) => if s.pending.contains(i) {
            (
                SpecSocket { pending: remove_first(s.pending, i), ..s },
                Seq::<SpecFrame>::empty(),
                SpecAction::AckInvoke { id: i, data: q.data, attachments: q.attachments },
            )
        } else {
            (s, Seq::<SpecFrame>::empty(), SpecAction::Ignore)
        },
        None => (s, Seq::<SpecFrame>::empty(), SpecAction::Ignore),
    }
}

/// How one binary frame moves the connection: with nothing awaited it is
/// dropped; otherwise it joins the awaited packet, and the packet that has
/// all its frames has its placeholders filled and is dispatched, a
/// placeholder out of range being reported to the peer instead.
pub open spec fn spec_handle_binary(s: SpecSocket, b: Seq<u8>) -> (
    SpecSocket,
    Seq<SpecFrame>,
    SpecAction,
) {
    match s.buffered {
        None => (s, Seq::<SpecFrame>::empty(), SpecAction::Ignore),
        Some(p) => {
            let at = (match p.attachments {
                Some(a) => a,
                None => Seq::<Seq<u8>>::empty(),
            }).push(b);
            if at.len() == p.attachments_num {
                let s1 = spec_clear_buffered(s);
                match p.data {
                    Some(v) => if inj_ok(v, at) {
                        let q = SpecPacket { data: Some(inj_val(v, at)), attachments: Some(at), ..p };
                        spec_dispatch(s1, q)
                    } else {
                        (
                            s1,
                            error_frames(s.namespace, Error::PlaceholderOutOfRange),
                            SpecAction::Ignore,
                        )
                    },
                    None => spec_dispatch(s1, SpecPacket { attachments: Some(at), ..p }),
                }
            } else {
                (
                    SpecSocket { buffered: Some(SpecPacket { attachments: Some(at), ..p }), ..s },
                    Seq::<SpecFrame>::empty(),
                    SpecAction::Ignore,
                )
            }
        },
    }
}

impl Socket {
    /// The frames that emit `event` with `params` to the peer, with no
    /// acknowledgment asked.
    pub fn emit(&self, event: Vec<u8>, params: Vec<Data>) -> (r: Vec<Frame>)
        requires
            bin_count_list(view_data_seq(params@)) <= 0x7fffffffffffffffu64,
        ensures
            view_frames(r@) == emit_frames(self@.namespace, event@, view_data_seq(params@), None),
    {
        self.emit_with_id(event, params, None)
    }

    /// The frames that emit `event` with `params` under the acknowledgment
    /// id `id` when one is asked.
    fn emit_with_id(&self, event: Vec<u8>, params: Vec<Data>, id: Option<usize>) -> (r: Vec<Frame>)
        requires
            bin_count_list(view_data_seq(params@)) <= 0x7fffffffffffffffu64,
        ensures
            view_frames(r@) == emit_frames(
                self@.namespace,
                event@,
                view_data_seq(params@),
                match id {
                    Some(i) => Some(i as nat),
                    None => None,
                },
            ),
    {
        let ghost ev = event@;
        let ghost pr = params@;
        let ghost ps = view_data_seq(params@);
        let mut all: Vec<Data> = params;
        all.insert(0, Data::JSON(Value::Str(event)));
        proof {
            lemma_view_data_seq(all@);
            lemma_view_data_seq(pr);
            assert(view_data_seq(all@) =~= seq![Val::Str(ev)] + ps) by {
                assert(view_data_seq(all@).len() == (seq![Val::Str(ev)] + ps).len());
                assert forall|i: int| 0 <= i < all@.len() implies view_data_seq(all@)[i] == (
                seq![Val::Str(ev)] + ps)[i] by {
                    if i == 0 {
                        assert(view_data_seq(all@)[0] == all@[0]@);
                        assert(all@[0]@ == Val::Str(ev));
                    } else {
                        assert(all@[i] == pr[i - 1]);
                        assert(view_data_seq(all@)[i] == all@[i]@);
                        assert(view_data_seq(pr)[i - 1] == pr[i - 1]@);
                    }
                }
            }
            assert(bin_count_list(view_data_seq(all@)) == bin_count_list(ps)) by {
                let w = view_data_seq(all@);
                assert(w[0] == Val::Str(ev));
                assert(w.drop_first() =~= ps);
                assert(bin_count_list(w) == crate::attach::bin_count(w[0]) + bin_count_list(
                    w.drop_first(),
                ));
            }
        }
        let (json, bins) = encode_data(all);
        let nbins = bins.len();
        let packet = Packet::new_event(copy_opt_bytes(&self.namespace), id, nbins, json);
        let mut out: Vec<Frame> = Vec::new();
        push_packet_frames(&packet, bins, &mut out);
        proof {
            assert(view_frames(Seq::<Frame>::empty()) =~= Seq::<SpecFrame>::empty());
            let e = ext_val(emit_payload(ev, ps), 0);
            assert(emit_payload(ev, ps) == Val::Arr(seq![Val::Str(ev)] + ps));
            assert(e.0 == Val::Arr(ext_list(seq![Val::Str(ev)] + ps, 0).0));
            assert(e.1 == ext_list(seq![Val::Str(ev)] + ps, 0).1);
            assert(view_frames(out@) =~= emit_frames(
                self@.namespace,
                ev,
                ps,
                match id {
                    Some(i) => Some(i as nat),
                    None => None,
                },
            ));
        }
        out
    }

    /// The frames that emit `event` with `params` and ask for an
    /// acknowledgment: a fresh id is drawn, remembered as outstanding, and
    /// returned beside the frames.
    pub fn emit_ack(&mut self, event: Vec<u8>, params: Vec<Data>) -> (r: (Vec<Frame>, usize))
        requires
            bin_count_list(view_data_seq(params@)) <= 0x7fffffffffffffffu64,
            old(self)@.next_ack < usize::MAX as nat,
        ensures
            r.1 as nat == old(self)@.next_ack,
            final(self)@ == (SpecSocket {
                pending: old(self)@.pending.push(old(self)@.next_ack),
                next_ack: old(self)@.next_ack + 1,
                ..old(self)@
            }),
            view_frames(r.0@) == emit_frames(
                old(self)@.namespace,
                event@,
                view_data_seq(params@),
                Some(old(self)@.next_ack),
            ),
    {
        let id = self.next_ack_id;
        self.next_ack_id = self.next_ack_id + 1;
        let ghost pend0 = self.pending_acks@;
        self.pending_acks.push(id);
        proof {
            assert(view_ids(self.pending_acks@) =~= view_ids(pend0).push(id as nat));
        }
        let frames = self.emit_with_id(event, params, Some(id));
        proof {
            assert(self@ =~= (SpecSocket {
                pending: old(self)@.pending.push(old(self)@.next_ack),
                next_ack: old(self)@.next_ack + 1,
                ..old(self)@
            }));
        }
        (frames, id)
    }

    /// The frames that acknowledge `id` with the handler's `result`.
    pub fn send_ack(&self, id: usize, result: Vec<Data>) -> (r: Vec<Frame>)
        requires
            bin_count_list(view_data_seq(result@)) <= 0x7fffffffffffffffu64,
        ensures
            view_frames(r@) == ack_frames(self@.namespace, id as nat, view_data_seq(result@)),
    {
        let ghost rs = view_data_seq(result@);
        let (json, bins) = encode_data(result);
        let nbins = bins.len();
        let packet = Packet::new_ack(copy_opt_bytes(&self.namespace), id, nbins, json);
        let mut out: Vec<Frame> = Vec::new();
        push_packet_frames(&packet, bins, &mut out);
        proof {
            assert(view_frames(Seq::<Frame>::empty()) =~= Seq::<SpecFrame>::empty());
            assert(view_frames(out@) =~= ack_frames(self@.namespace, id as nat, rs));
        }
        out
    }

    /// Takes in one decoded packet: exactly the step `spec_dispatch` names.
    pub fn handle_packet(&mut self, p: Packet) -> (r: (Vec<Frame>, Action))
        ensures
            final(self)@ == spec_dispatch(old(self)@, p@).0,
            view_frames(r.0@) == spec_dispatch(old(self)@, p@).1,
            r.1@ == spec_dispatch(old(self)@, p@).2,
    {
        proof {
            assert(view_frames(Seq::<Frame>::empty()) =~= Seq::<SpecFrame>::empty());
        }
        let buffer_it = p.opcode.is_binary() && p.attachments_num > 0 && (match &p.attachments {
            Some(at) => at.len() < p.attachments_num,
            None => true,
        });
        if buffer_it {
            self.buffered = Some(p);
            proof {
                assert(self@ =~= (SpecSocket { buffered: self@.buffered, ..old(self)@ }));
            }
            return (Vec::new(), Action::Ignore);
        }
        match p.opcode {
            Opcode::Connect => {
                self.namespace = p.namespace;
                proof {
                    assert(self@ =~= (SpecSocket { namespace: p@.namespace, ..old(self)@ }));
                }
                (Vec::new(), Action::Ignore)
            },
            Opcode::Disconnect => (Vec::new(), Action::CloseRequested),
            Opcode::Error => (Vec::new(), Action::PeerError { data: p.data }),
            Opcode::Event => self.dispatch_event(p),
            Opcode::BinaryEvent => self.dispatch_event(p),
            Opcode::Ack => self.dispatch_ack(p),
            Opcode::BinaryAck => self.dispatch_ack(p),
        }
    }

    /// The event leg of `handle_packet`.
    fn dispatch_event(&mut self, p: Packet) -> (r: (Vec<Frame>, Action))
        ensures
            final(self)@ == spec_dispatch_event(old(self)@, p@).0,
            view_frames(r.0@) == spec_dispatch_event(old(self)@, p@).1,
            r.1@ == spec_dispatch_event(old(self)@, p@).2,
    {
        proof {
            assert(view_frames(Seq::<Frame>::empty()) =~= Seq::<SpecFrame>::empty());
        }
        let ghost q = p@;
        let Packet { namespace: _, opcode: _, id, attachments_num: _, data, attachments } = p;
        let named = match &data {
            Some(Value::Arr(items)) => if items.len() >= 1 {
                match &items[0] {
                    Value::Str(_) => true,
                    _ => false,
                }
            } else {
                false
            },
            _ => false,
        };
        proof {
            match &data {
                Some(v) => {
                    match v {
                        Value::Arr(items) => {
                            lemma_view_seq(items@);
                            if items@.len() >= 1 {
                                match items@[0] {
                                    Value::Str(_) => {},
                                    _ => {},
                                }
                            }
                        },
                        _ => {},
                    }
                },
                None => {},
            }
        }
        if named {
            let (items, ev_name) = match data {
                Some(Value::Arr(mut items)) => {
                    let head = items.remove(0);
                    match head {
                        Value::Str(e) => (items, e),
                        _ => {
                            proof {
                                assert(false);
                            }
                            (Vec::new(), Vec::new())
                        },
                    }
                },
                _ => {
                    proof {
                        assert(false);
                    }
                    (Vec::new(), Vec::new())
                },
            };
            proof {
                lemma_view_seq(items@);
            }
            if contains_bytes(&self.callbacks, &ev_name) {
                proof {
                    lemma_view_seq(items@);
                    assert(view_seq(items@) =~= spec_event_name_params(p@));
                }
                (
                    Vec::new(),
                    Action::Invoke { event: ev_name, params: items, attachments, ack_id: id },
                )
            } else {
                self.unhandled_reply(id)
            }
        } else {
            self.unhandled_reply(id)
        }
    }

    /// The reply for an event nobody handles.
    fn unhandled_reply(&mut self, id: Option<usize>) -> (r: (Vec<Frame>, Action))
        ensures
            *final(self) == *old(self),
            (match id {
                Some(i) => view_frames(r.0@) == ack_frames(
                    old(self)@.namespace,
                    i as nat,
                    Seq::<Val>::empty(),
                ),
                None => view_frames(r.0@) == Seq::<SpecFrame>::empty(),
            }),
            r.1@ == SpecAction::Ignore,
    {
        proof {
            assert(view_frames(Seq::<Frame>::empty()) =~= Seq::<SpecFrame>::empty());
        }
        match id {
            Some(i) => {
                let empty: Vec<Data> = Vec::new();
                proof {
                    assert(view_data_seq(empty@) =~= Seq::<Val>::empty());
                }
                let frames = self.send_ack(i, empty);
                (frames, Action::Ignore)
            },
            None => (Vec::new(), Action::Ignore),
        }
    }

    /// The acknowledgment leg of `handle_packet`.
    fn dispatch_ack(&mut self, p: Packet) -> (r: (Vec<Frame>, Action))
        ensures
            final(self)@ == spec_dispatch_ack(old(self)@, p@).0,
            view_frames(r.0@) == spec_dispatch_ack(old(self)@, p@).1,
            r.1@ == spec_dispatch_ack(old(self)@, p@).2,
    {
        proof {
            assert(view_frames(Seq::<Frame>::empty()) =~= Seq::<SpecFrame>::empty());
        }
        let Packet { namespace: _, opcode: _, id, attachments_num: _, data, attachments } = p;
        match id {
            Some(i) => {
                if contains_id(&self.pending_acks, i) {
                    remove_id(&mut self.pending_acks, i);
                    proof {
                        assert(self@ =~= (SpecSocket {
                            pending: remove_first(old(self)@.pending, i as nat),
                            ..old(self)@
                        }));
                    }
                    (Vec::new(), Action::AckInvoke { id: i, data, attachments })
                } else {
                    (Vec::new(), Action::Ignore)
                }
            },
            None => (Vec::new(), Action::Ignore),
        }
    }

    /// Takes in one inbound text frame: a frame that arrives while binary
    /// frames are awaited abandons the awaited packet and is answered with
    /// an error report before being taken afresh; then the text is read, a
    /// packet is dispatched as `spec_dispatch` says, and a text that is the
    /// reading of no packet is answered with an error report naming the
    /// failure, nothing else changing.
    pub fn handle_text(&mut self, text: &Vec<u8>) -> (r: (Vec<Frame>, Action))
        ensures
            ({
                let pre = spec_awaiting_frames(old(self)@);
                let s1 = spec_clear_buffered(old(self)@);
                match spec_decode(text@) {
                    Ok(q) => {
                        let step = spec_dispatch(s1, q);
                        &&& final(self)@ == step.0
                        &&& view_frames(r.0@) == pre + step.1
                        &&& r.1@ == step.2
                    },
                    Err(e) => {
                        &&& final(self)@ == s1
                        &&& view_frames(r.0@) == pre + error_frames(old(self)@.namespace, e)
                        &&& r.1@ == SpecAction::Ignore
                    },
                }
            }),
            forall|q: SpecPacket|
                crate::packet::wire_wf(q) && text@ == spec_encode(q) ==> {
                    let pre = spec_awaiting_frames(old(self)@);
                    let step = spec_dispatch(spec_clear_buffered(old(self)@), q);
                    &&& final(self)@ == step.0
                    &&& view_frames(r.0@) == pre + step.1
                    &&& r.1@ == step.2
                },
            final(self)@.id == old(self)@.id,
            final(self)@.callbacks == old(self)@.callbacks,
            final(self)@.rooms == old(self)@.rooms,
            final(self)@.next_ack == old(self)@.next_ack,
    {
        proof {
            assert(view_frames(Seq::<Frame>::empty()) =~= Seq::<SpecFrame>::empty());
        }
        let mut pre: Vec<Frame> = Vec::new();
        if self.buffered.is_some() {
            let ep = Packet::new_error(copy_opt_bytes(&self.namespace), Error::TextWhileAwaiting);
            push_packet_frames(&ep, Vec::new(), &mut pre);
            self.buffered = None;
            proof {
                assert(blobs(Seq::<Vec<u8>>::empty()) =~= Seq::<Seq<u8>>::empty());
                assert(Seq::<Seq<u8>>::empty().map_values(|b: Seq<u8>| SpecFrame::Binary(b))
                    =~= Seq::<SpecFrame>::empty());
                assert(view_frames(pre@) =~= spec_awaiting_frames(old(self)@));
            }
        } else {
            proof {
                assert(view_frames(pre@) =~= spec_awaiting_frames(old(self)@));
            }
        }
        match Packet::from_bytes(text) {
            Err(e) => {
                let ep = Packet::new_error(copy_opt_bytes(&self.namespace), e);
                push_packet_frames(&ep, Vec::new(), &mut pre);
                proof {
                    assert(blobs(Seq::<Vec<u8>>::empty()) =~= Seq::<Seq<u8>>::empty());
                    assert(Seq::<Seq<u8>>::empty().map_values(|b: Seq<u8>| SpecFrame::Binary(b))
                        =~= Seq::<SpecFrame>::empty());
                    assert(view_frames(pre@) =~= spec_awaiting_frames(old(self)@) + error_frames(
                        old(self)@.namespace,
                        e,
                    ));
                    assert(self@ =~= spec_clear_buffered(old(self)@));
                }
                (pre, Action::Ignore)
            },
            Ok(p) => {
                let (mut fs, a) = self.handle_packet(p);
                let ghost pre0 = pre@;
                let ghost fs0 = fs@;
                pre.append(&mut fs);
                proof {
                    lemma_view_frames(pre@);
                    lemma_view_frames(pre0);
                    lemma_view_frames(fs0);
                    assert(view_frames(pre@) =~= view_frames(pre0) + view_frames(fs0));
                }
                (pre, a)
            },
        }
    }

    /// Takes in one inbound binary frame: exactly the step
    /// `spec_handle_binary` names.
    pub fn handle_binary(&mut self, bin: Vec<u8>) -> (r: (Vec<Frame>, Action))
        ensures
            final(self)@ == spec_handle_binary(old(self)@, bin@).0,
            view_frames(r.0@) == spec_handle_binary(old(self)@, bin@).1,
            r.1@ == spec_handle_binary(old(self)@, bin@).2,
    {
        proof {
            assert(view_frames(Seq::<Frame>::empty()) =~= Seq::<SpecFrame>::empty());
        }
        let buf = self.buffered.take();
        match buf {
            None => (Vec::new(), Action::Ignore),
            Some(mut p) => {
                let complete = p.add_attachment(bin);
                if !complete {
                    self.buffered = Some(p);
                    proof {
                        assert(self@ =~= spec_handle_binary(old(self)@, bin@).0);
                    }
                    return (Vec::new(), Action::Ignore);
                }
                let Packet { namespace, opcode, id, attachments_num, data, attachments } = p;
                match data {
                    Some(v) => {
                        let atts = match &attachments {
                            Some(at) => at,
                            None => {
                                proof {
                                    assert(false);
                                }
                                &attachments.as_ref().unwrap()
                            },
                        };
                        match inject(&v, atts) {
                            Ok(w) => {
                                let q = Packet {
                                    namespace,
                                    opcode,
                                    id,
                                    attachments_num,
                                    data: Some(w),
                                    attachments,
                                };
                                self.handle_packet(q)
                            },
                            Err(_) => {
                                let ep = Packet::new_error(
                                    copy_opt_bytes(&self.namespace),
                                    Error::PlaceholderOutOfRange,
                                );
                                let mut out: Vec<Frame> = Vec::new();
                                push_packet_frames(&ep, Vec::new(), &mut out);
                                proof {
                                    assert(blobs(Seq::<Vec<u8>>::empty())
                                        =~= Seq::<Seq<u8>>::empty());
                                    assert(Seq::<Seq<u8>>::empty().map_values(
                                        |b: Seq<u8>| SpecFrame::Binary(b),
                                    ) =~= Seq::<SpecFrame>::empty());
                                    assert(view_frames(out@) =~= spec_handle_binary(
                                        old(self)@,
                                        bin@,
                                    ).1);
                                }
                                (out, Action::Ignore)
                            },
                        }
                    },
                    None => {
                        let q = Packet {
                            namespace,
                            opcode,
                            id,
                            attachments_num,
                            data: None,
                            attachments,
                        };
                        self.handle_packet(q)
                    },
                }
            },
        }
    }

    /// Drops every outstanding acknowledgment without calling it, and the
    /// packet awaiting frames; the transport close and the registry removal
    /// are the registry's and the embedding's part.
    pub fn close(&mut self)
        ensures
            final(self)@ == (SpecSocket {
                pending: Seq::<nat>::empty(),
                buffered: None,
                ..old(self)@
            }),
    {
        self.pending_acks = Vec::new();
        self.buffered = None;
        proof {
            assert(view_ids(self.pending_acks@) =~= Seq::<nat>::empty());
            assert(self@ =~= (SpecSocket {
                pending: Seq::<nat>::empty(),
                buffered: None,
                ..old(self)@
            }));
        }
    }
}

/// The error report sent when a text frame interrupts an awaited packet.
pub open spec fn spec_awaiting_frames(s: SpecSocket) -> Seq<SpecFrame> {
    if s.buffered is Some {
        error_frames(s.namespace, Error::TextWhileAwaiting)
    } else {
        Seq::<SpecFrame>::empty()
    }
}

/// The parameters an event packet hands its handler: the payload after the
/// event name.
pub open spec fn spec_event_name_params(q: SpecPacket) -> Seq<Val> {
    q.data->Some_0->Arr_0.drop_first()
}

} // verus!
