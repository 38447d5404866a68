//! The wire packet: its opcode, its fields, and the codec between the
//! textual framing and the structured packet.
//!
//! `encode` writes the one canonical text of a packet; `from_bytes` reads a
//! text back. Decoding an encoded packet gives the packet back, and encoding
//! a decoded text gives the text back, both stated on `from_bytes`.

use vstd::prelude::*;

use crate::json::{
    can_parse, dec_nat, digit_run_end, digits_val, is_digit, jser, lemma_dec_nat,
    lemma_digit_run, lemma_digit_run_exact, lemma_digits_val_dec_nat, lemma_jser_first,
    check_utf8, is_utf8, lemma_starts_at_index, lemma_starts_at_split, from_json, normalize,
    scan_digits, starts_at, write_nat,
};
use crate::value::{is_json, Val, Value};

verus! {

/// The seven packet kinds, each written as one printable digit on the wire.
#[derive(PartialEq, Eq, Structural, Clone, Copy, Debug)]
pub enum Opcode {
    Connect,
    Disconnect,
    Event,
    Ack,
    Error,
    BinaryEvent,
    BinaryAck,
}

impl Opcode {
    /// The byte that names this opcode on the wire: `'0'` through `'6'`.
    pub open spec fn byte(self) -> u8 {
        match self {
            Opcode::Connect => 0x30,
            Opcode::Disconnect => 0x31,
            Opcode::Event => 0x32,
            Opcode::Ack => 0x33,
            Opcode::Error => 0x34,
            Opcode::BinaryEvent => 0x35,
            Opcode::BinaryAck => 0x36,
        }
    }

    /// Writes the wire byte of this opcode.
    pub fn to_byte(&self) -> (r: u8)
        ensures
            r == self.byte(),
    {
        match self {
            Opcode::Connect => 0x30,
            Opcode::Disconnect => 0x31,
            Opcode::Event => 0x32,
            Opcode::Ack => 0x33,
            Opcode::Error => 0x34,
            Opcode::BinaryEvent => 0x35,
            Opcode::BinaryAck => 0x36,
        }
    }

    /// Reads an opcode from its wire byte.
    pub fn from_byte(b: u8) -> (r: Option<Opcode>)
        ensures
            r matches Some(op) ==> op.byte() == b,
            r is None <==> !(0x30 <= b <= 0x36),
    {
        if b == 0x30 {
            Some(Opcode::Connect)
        } else if b == 0x31 {
            Some(Opcode::Disconnect)
        } else if b == 0x32 {
            Some(Opcode::Event)
        } else if b == 0x33 {
            Some(Opcode::Ack)
        } else if b == 0x34 {
            Some(Opcode::Error)
        } else if b == 0x35 {
            Some(Opcode::BinaryEvent)
        } else if b == 0x36 {
            Some(Opcode::BinaryAck)
        } else {
            None
        }
    }

    /// This opcode announces binary attachments.
    pub open spec fn spec_is_binary(self) -> bool {
        self == Opcode::BinaryEvent || self == Opcode::BinaryAck
    }

    /// See `spec_is_binary`.
    pub fn is_binary(&self) -> (r: bool)
        ensures
            r == self.spec_is_binary(),
    {
        *self == Opcode::BinaryEvent || *self == Opcode::BinaryAck
    }
}

/// Errors of the wire codec and of the per-connection protocol state.
#[derive(PartialEq, Eq, Structural, Clone, Copy, Debug)]
pub enum Error {
    /// The leading byte names no opcode.
    InvalidOpcode(u8),
    /// The framing is broken: empty input, or a bad attachment-count prefix.
    InvalidPacket,
    /// An event packet whose payload is not a sequence.
    PacketDataNotArray,
    /// The payload is not a well-formed payload text.
    JSONError,
    /// A text frame did not decode as text.
    FromUtf8Error,
    /// An event packet whose payload sequence is empty.
    NoEvent,
    /// An acknowledgment packet without an acknowledgment id.
    AckIDMissing,
    /// A non-binary opcode that declares attachments.
    NonBinaryHasAttachments,
    /// A text frame arrived while attachments were still awaited.
    TextWhileAwaiting,
    /// A placeholder names an attachment that is not there.
    PlaceholderOutOfRange,
}

/// The model of a packet.
#[verifier::ext_equal]
pub struct SpecPacket {
    pub namespace: Option<Seq<u8>>,
    pub opcode: Opcode,
    pub id: Option<nat>,
    pub attachments_num: nat,
    pub data: Option<Val>,
    pub attachments: Option<Seq<Seq<u8>>>,
}

/// The decoded unit of protocol communication.
#[derive(Debug, PartialEq, Eq)]
pub struct Packet {
    /// Logical channel, `/`-prefixed when present.
    pub namespace: Option<Vec<u8>>,
    pub opcode: Opcode,
    /// Acknowledgment correlation id.
    pub id: Option<usize>,
    /// Declared count of binary frames that follow.
    pub attachments_num: usize,
    /// The structured payload.
    pub data: Option<Value>,
    /// The binary frames received so far.
    pub attachments: Option<Vec<Vec<u8>>>,
}

impl Packet {
    /// The model of this packet.
    pub open spec fn view(self) -> SpecPacket {
        SpecPacket {
            namespace: match self.namespace {
                Some(ns) => Some(ns@),
                None => None,
            },
            opcode: self.opcode,
            id: match self.id {
                Some(i) => Some(i as nat),
                None => None,
            },
            attachments_num: self.attachments_num as nat,
            data: match self.data {
                Some(v) => Some(v@),
                None => None,
            },
            attachments: match self.attachments {
                Some(at) => Some(at@.map_values(|b: Vec<u8>| b@)),
                None => None,
            },
        }
    }
}

/// A packet that satisfies the protocol's own shape rules, with nothing yet
/// reassembled: such packets, and exactly such, round-trip through the wire.
pub open spec fn wire_wf(p: SpecPacket) -> bool {
    &&& (p.attachments_num > 0 <==> p.opcode.spec_is_binary())
    &&& p.attachments_num <= usize::MAX as nat
    &&& (match p.namespace {
        Some(ns) => ns.len() >= 1 && ns[0] == 0x2f && is_utf8(ns) && (forall|k: int|
            0 <= k < ns.len() ==> ns[k] != 0x2c),
        None => true,
    })
    &&& (match p.id {
        Some(i) => i <= usize::MAX as nat,
        None => true,
    })
    &&& (p.id is Some ==> p.opcode == Opcode::Event || p.opcode == Opcode::BinaryEvent || p.opcode
        == Opcode::Ack || p.opcode == Opcode::BinaryAck)
    &&& ((p.opcode == Opcode::Ack || p.opcode == Opcode::BinaryAck) ==> p.id is Some)
    &&& (match p.data {
        Some(v) => is_json(v) && is_utf8(jser(v)),
        None => true,
    })
    &&& ((p.opcode == Opcode::Event || p.opcode == Opcode::BinaryEvent) ==> (match p.data {
        Some(v) => v is Arr && v->Arr_0.len() >= 1,
        None => false,
    }))
    &&& ((p.opcode == Opcode::Ack || p.opcode == Opcode::BinaryAck) ==> (match p.data {
        Some(v) => v is Arr,
        None => true,
    }))
    &&& ((p.opcode == Opcode::Connect || p.opcode == Opcode::Disconnect || p.opcode
        == Opcode::Error) ==> (match p.data {
        Some(v) => v is Str,
        None => true,
    }))
    &&& p.attachments is None
}

/// The attachment-count section of the text: the count and a dash, present
/// exactly when attachments are declared.
pub open spec fn enc_att(p: SpecPacket) -> Seq<u8> {
    if p.attachments_num > 0 {
        dec_nat(p.attachments_num) + seq![0x2du8]
    } else {
        Seq::<u8>::empty()
    }
}

/// The namespace section of the text.
pub open spec fn enc_ns(p: SpecPacket) -> Seq<u8> {
    match p.namespace {
        Some(ns) => ns,
        None => Seq::<u8>::empty(),
    }
}

/// The separating comma: present exactly when a namespace is present and an
/// id or a payload follows it.
pub open spec fn enc_comma(p: SpecPacket) -> Seq<u8> {
    if p.namespace is Some && (p.id is Some || p.data is Some) {
        seq![0x2cu8]
    } else {
        Seq::<u8>::empty()
    }
}

/// The id section of the text.
pub open spec fn enc_id(p: SpecPacket) -> Seq<u8> {
    match p.id {
        Some(i) => dec_nat(i),
        None => Seq::<u8>::empty(),
    }
}

/// The payload section of the text.
pub open spec fn enc_data(p: SpecPacket) -> Seq<u8> {
    match p.data {
        Some(v) => jser(v),
        None => Seq::<u8>::empty(),
    }
}

/// The one canonical text of a packet: opcode byte, attachment count,
/// namespace, separating comma, id, payload.
pub open spec fn spec_encode(p: SpecPacket) -> Seq<u8> {
    seq![p.opcode.byte()] + enc_att(p) + enc_ns(p) + enc_comma(p) + enc_id(p) + enc_data(p)
}

impl Packet {
    /// Writes the canonical text of this packet.
    pub fn encode(&self) -> (r: Vec<u8>)
        ensures
            r@ == spec_encode(self@),
    {
        let mut out: Vec<u8> = Vec::new();
        out.push(self.opcode.to_byte());
        if self.attachments_num > 0 {
            write_nat(self.attachments_num as u64, &mut out);
            out.push(0x2d);
        }
        let mut wrote_ns = false;
        match &self.namespace {
            Some(ns) => {
                let mut k: usize = 0;
                while k < ns.len()
                    invariant
                        k <= ns@.len(),
                        out@ == seq![self.opcode.byte()] + enc_att(self@) + ns@.take(k as int),
                    decreases ns@.len() - k,
                {
                    out.push(ns[k]);
                    proof {
                        assert(ns@.take(k as int + 1) =~= ns@.take(k as int).push(ns@[k as int]));
                    }
                    k = k + 1;
                }
                proof {
                    assert(ns@.take(ns@.len() as int) =~= ns@);
                }
                wrote_ns = true;
            },
            None => {},
        }
        if wrote_ns && (self.id.is_some() || self.data.is_some()) {
            out.push(0x2c);
        }
        match self.id {
            Some(i) => {
                write_nat(i as u64, &mut out);
            },
            None => {},
        }
        match &self.data {
            Some(v) => {
                crate::json::write_value(v, &mut out);
            },
            None => {},
        }
        proof {
            assert(out@ =~= spec_encode(self@));
        }
        out
    }
}

/// The diagnostic text of an error, carried by an error packet's payload.
pub open spec fn err_text(e: Error) -> Seq<u8> {
    match e {
        Error::InvalidOpcode(_) => seq![0x49u8, 0x6e, 0x76, 0x61, 0x6c, 0x69, 0x64, 0x4f, 0x70, 0x63, 0x6f, 0x64, 0x65],
        Error::InvalidPacket => seq![0x49u8, 0x6e, 0x76, 0x61, 0x6c, 0x69, 0x64, 0x50, 0x61, 0x63, 0x6b, 0x65, 0x74],
        Error::PacketDataNotArray => seq![0x50u8, 0x61, 0x63, 0x6b, 0x65, 0x74, 0x44, 0x61, 0x74, 0x61, 0x4e, 0x6f, 0x74, 0x41, 0x72, 0x72, 0x61, 0x79],
        Error::JSONError => seq![0x4au8, 0x53, 0x4f, 0x4e, 0x45, 0x72, 0x72, 0x6f, 0x72],
        Error::FromUtf8Error => seq![0x46u8, 0x72, 0x6f, 0x6d, 0x55, 0x74, 0x66, 0x38, 0x45, 0x72, 0x72, 0x6f, 0x72],
        Error::NoEvent => seq![0x4eu8, 0x6f, 0x45, 0x76, 0x65, 0x6e, 0x74],
        Error::AckIDMissing => seq![0x41u8, 0x63, 0x6b, 0x49, 0x44, 0x4d, 0x69, 0x73, 0x73, 0x69, 0x6e, 0x67],
        Error::NonBinaryHasAttachments => seq![0x4eu8, 0x6f, 0x6e, 0x42, 0x69, 0x6e, 0x61, 0x72, 0x79, 0x48, 0x61, 0x73, 0x41, 0x74, 0x74, 0x61, 0x63, 0x68, 0x6d, 0x65, 0x6e, 0x74, 0x73],
        Error::TextWhileAwaiting => seq![0x54u8, 0x65, 0x78, 0x74, 0x57, 0x68, 0x69, 0x6c, 0x65, 0x41, 0x77, 0x61, 0x69, 0x74, 0x69, 0x6e, 0x67],
        Error::PlaceholderOutOfRange => seq![0x50u8, 0x6c, 0x61, 0x63, 0x65, 0x68, 0x6f, 0x6c, 0x64, 0x65, 0x72, 0x4f, 0x75, 0x74, 0x4f, 0x66, 0x52, 0x61, 0x6e, 0x67, 0x65],
    }
}

impl Error {
    /// Writes the diagnostic text of this error.
    pub fn text(&self) -> (r: Vec<u8>)
        ensures
            r@ == err_text(*self),
    {
        let t: &[u8] = match self {
            Error::InvalidOpcode(_) => &[0x49, 0x6e, 0x76, 0x61, 0x6c, 0x69, 0x64, 0x4f, 0x70, 0x63, 0x6f, 0x64, 0x65],
            Error::InvalidPacket => &[0x49, 0x6e, 0x76, 0x61, 0x6c, 0x69, 0x64, 0x50, 0x61, 0x63, 0x6b, 0x65, 0x74],
            Error::PacketDataNotArray => &[0x50, 0x61, 0x63, 0x6b, 0x65, 0x74, 0x44, 0x61, 0x74, 0x61, 0x4e, 0x6f, 0x74, 0x41, 0x72, 0x72, 0x61, 0x79],
            Error::JSONError => &[0x4a, 0x53, 0x4f, 0x4e, 0x45, 0x72, 0x72, 0x6f, 0x72],
            Error::FromUtf8Error => &[0x46, 0x72, 0x6f, 0x6d, 0x55, 0x74, 0x66, 0x38, 0x45, 0x72, 0x72, 0x6f, 0x72],
            Error::NoEvent => &[0x4e, 0x6f, 0x45, 0x76, 0x65, 0x6e, 0x74],
            Error::AckIDMissing => &[0x41, 0x63, 0x6b, 0x49, 0x44, 0x4d, 0x69, 0x73, 0x73, 0x69, 0x6e, 0x67],
            Error::NonBinaryHasAttachments => &[0x4e, 0x6f, 0x6e, 0x42, 0x69, 0x6e, 0x61, 0x72, 0x79, 0x48, 0x61, 0x73, 0x41, 0x74, 0x74, 0x61, 0x63, 0x68, 0x6d, 0x65, 0x6e, 0x74, 0x73],
            Error::TextWhileAwaiting => &[0x54, 0x65, 0x78, 0x74, 0x57, 0x68, 0x69, 0x6c, 0x65, 0x41, 0x77, 0x61, 0x69, 0x74, 0x69, 0x6e, 0x67],
            Error::PlaceholderOutOfRange => &[0x50, 0x6c, 0x61, 0x63, 0x65, 0x68, 0x6f, 0x6c, 0x64, 0x65, 0x72, 0x4f, 0x75, 0x74, 0x4f, 0x66, 0x52, 0x61, 0x6e, 0x67, 0x65],
        };
        let mut out: Vec<u8> = Vec::new();
        let mut k: usize = 0;
        while k < t.len()
            invariant
                k <= t@.len(),
                out@ == t@.take(k as int),
                t@ == err_text(*self),
            decreases t@.len() - k,
        {
            let b = t[k];
            out.push(b);
            proof {
                assert(t@.take(k as int + 1) =~= t@.take(k as int).push(t@[k as int]));
            }
            k = k + 1;
        }
        proof {
            assert(t@.take(t@.len() as int) =~= t@);
        }
        out
    }
}

/// The model of the error packet that reports `e` on namespace `ns`.
pub open spec fn spec_error_packet(ns: Option<Seq<u8>>, e: Error) -> SpecPacket {
    SpecPacket {
        namespace: ns,
        opcode: Opcode::Error,
        id: None,
        attachments_num: 0,
        data: Some(Val::Str(err_text(e))),
        attachments: None,
    }
}

impl Packet {
    /// An event packet, binary when attachments are declared.
    pub fn new_event(namespace: Option<Vec<u8>>, id: Option<usize>, attachments_num: usize, params: Value) -> (r: Packet)
        ensures
            r@ == (SpecPacket {
                namespace: match namespace {
                    Some(ns) => Some(ns@),
                    None => None,
                },
                opcode: if attachments_num == 0 {
                    Opcode::Event
                } else {
                    Opcode::BinaryEvent
                },
                id: match id {
                    Some(i) => Some(i as nat),
                    None => None,
                },
                attachments_num: attachments_num as nat,
                data: Some(params@),
                attachments: None,
            }),
    {
        Packet {
            namespace,
            opcode: if attachments_num == 0 {
                Opcode::Event
            } else {
                Opcode::BinaryEvent
            },
            id,
            attachments_num,
            data: Some(params),
            attachments: None,
        }
    }

    /// An acknowledgment packet, binary when attachments are declared.
    pub fn new_ack(namespace: Option<Vec<u8>>, id: usize, attachments_num: usize, params: Value) -> (r: Packet)
        ensures
            r@ == (SpecPacket {
                namespace: match namespace {
                    Some(ns) => Some(ns@),
                    None => None,
                },
                opcode: if attachments_num == 0 {
                    Opcode::Ack
                } else {
                    Opcode::BinaryAck
                },
                id: Some(id as nat),
                attachments_num: attachments_num as nat,
                data: Some(params@),
                attachments: None,
            }),
    {
        Packet {
            namespace,
            opcode: if attachments_num == 0 {
                Opcode::Ack
            } else {
                Opcode::BinaryAck
            },
            id: Some(id),
            attachments_num,
            data: Some(params),
            attachments: None,
        }
    }

    /// An error packet whose payload is the diagnostic text of `e`.
    pub fn new_error(namespace: Option<Vec<u8>>, error: Error) -> (r: Packet)
        ensures
            r@ == spec_error_packet(
                match namespace {
                    Some(ns) => Some(ns@),
                    None => None,
                },
                error,
            ),
    {
        Packet {
            namespace,
            opcode: Opcode::Error,
            id: None,
            attachments_num: 0,
            data: Some(Value::Str(error.text())),
            attachments: None,
        }
    }

    /// Adds one received binary frame; the result says whether all declared
    /// frames have now arrived.
    pub fn add_attachment(&mut self, bytes: Vec<u8>) -> (complete: bool)
        ensures
            final(self)@ == (SpecPacket {
                attachments: Some(
                    (match old(self)@.attachments {
                        Some(at) => at,
                        None => Seq::<Seq<u8>>::empty(),
                    }).push(bytes@),
                ),
                ..old(self)@
            }),
            complete <==> (match final(self)@.attachments {
                Some(at) => at.len() == final(self)@.attachments_num,
                None => false,
            }),
    {
        match &mut self.attachments {
            Some(at) => {
                at.push(bytes);
                proof {
                    assert(self@.attachments->Some_0 =~= (match old(self)@.attachments {
                        Some(a) => a,
                        None => Seq::<Seq<u8>>::empty(),
                    }).push(bytes@));
                    assert(self@ =~= SpecPacket {
                        attachments: Some(
                            (match old(self)@.attachments {
                                Some(a) => a,
                                None => Seq::<Seq<u8>>::empty(),
                            }).push(bytes@),
                        ),
                        ..old(self)@
                    });
                }
            },
            att_slot => {
                let mut v: Vec<Vec<u8>> = Vec::new();
                v.push(bytes);
                *att_slot = Some(v);
                proof {
                    assert(self@.attachments->Some_0 =~= Seq::<Seq<u8>>::empty().push(bytes@));
                    assert(self@ =~= SpecPacket {
                        attachments: Some(Seq::<Seq<u8>>::empty().push(bytes@)),
                        ..old(self)@
                    });
                }
            },
        }
        match &self.attachments {
            Some(at) => at.len() == self.attachments_num,
            None => false,
        }
    }

    /// The binary frames received so far.
    pub fn get_attachments(&self) -> (r: Option<Vec<Vec<u8>>>)
        ensures
            (r matches Some(at) && self@.attachments matches Some(sat) && crate::attach::blobs(at@)
                == sat) || (r is None && self@.attachments is None),
    {
        match &self.attachments {
            Some(at) => {
                let mut out: Vec<Vec<u8>> = Vec::new();
                let mut k: usize = 0;
                while k < at.len()
                    invariant
                        k <= at@.len(),
                        out@.len() == k,
                        forall|i: int| 0 <= i < k ==> out@[i]@ == at@[i]@,
                    decreases at@.len() - k,
                {
                    out.push(copy_range(&at[k], 0, at[k].len()));
                    proof {
                        assert(at@[k as int]@.subrange(0, at@[k as int]@.len() as int)
                            =~= at@[k as int]@);
                    }
                    k = k + 1;
                }
                proof {
                    assert(crate::attach::blobs(out@) =~= self@.attachments->Some_0);
                }
                Some(out)
            },
            None => None,
        }
    }

    /// Whether binary frames are declared or already present.
    pub fn has_attachments(&self) -> (r: bool)
        ensures
            r == (self@.attachments is Some || self@.attachments_num != 0),
    {
        self.attachments.is_some() || self.attachments_num != 0
    }
}

/// Position of the first comma at or after `i`.
pub open spec fn comma_scan_end(s: Seq<u8>, i: int) -> int
    decreases s.len() - i,
{
    if i < 0 || i >= s.len() || s[i] == 0x2c {
        i
    } else {
        comma_scan_end(s, i + 1)
    }
}

/// A run of `l` bytes without a comma at `i`, followed by the end of the
/// text or a comma, ends the comma scan exactly at `i + l`.
pub proof fn lemma_comma_scan_exact(s: Seq<u8>, i: int, l: int)
    requires
        0 <= i,
        0 <= l,
        i + l <= s.len(),
        forall|k: int| i <= k < i + l ==> s[k] != 0x2c,
        i + l == s.len() || s[i + l] == 0x2c,
    ensures
        comma_scan_end(s, i) == i + l,
    decreases l,
{
    if l > 0 {
        lemma_comma_scan_exact(s, i + 1, l - 1);
    }
}

/// Finds the first comma at or after `i`.
#[verifier::loop_isolation(false)]
pub fn scan_comma(s: &Vec<u8>, i: usize) -> (c: usize)
    requires
        i <= s@.len(),
    ensures
        c == comma_scan_end(s@, i as int),
        i <= c <= s@.len(),
{
    let mut k: usize = i;
    while k < s.len() && s[k] != 0x2c
        invariant
            i <= k <= s@.len(),
            comma_scan_end(s@, k as int) == comma_scan_end(s@, i as int),
        decreases s@.len() - k,
    {
        k = k + 1;
    }
    k
}

/// A copy of the bytes of `s` from `a` to `b`.
#[verifier::loop_isolation(false)]
pub fn copy_range(s: &Vec<u8>, a: usize, b: usize) -> (r: Vec<u8>)
    requires
        a <= b <= s@.len(),
    ensures
        r@ == s@.subrange(a as int, b as int),
{
    let mut out: Vec<u8> = Vec::new();
    let mut k: usize = a;
    while k < b
        invariant
            a <= k <= b,
            out@ == s@.subrange(a as int, k as int),
        decreases b - k,
    {
        out.push(s[k]);
        proof {
            assert(s@.subrange(a as int, k as int + 1) =~= s@.subrange(a as int, k as int).push(
                s@[k as int],
            ));
        }
        k = k + 1;
    }
    out
}

/// Where each section of a packet's canonical text stands, and what the
/// reader's scans find there.
#[verifier::rlimit(60)]
pub proof fn lemma_encode_shape(q: SpecPacket, s: Seq<u8>)
    requires
        wire_wf(q),
        s == spec_encode(q),
    ensures
        s.len() == 1 + enc_att(q).len() + enc_ns(q).len() + enc_comma(q).len() + enc_id(q).len()
            + enc_data(q).len(),
        s.len() >= 1,
        s[0] == q.opcode.byte(),
        0x30 <= s[0] <= 0x36,
        ({
            let a_end = 1 + enc_att(q).len() as int;
            let n_end = a_end + enc_ns(q).len();
            let c_end = n_end + enc_comma(q).len();
            let i_end = c_end + enc_id(q).len();
            &&& (q.opcode.spec_is_binary() ==> {
                &&& q.attachments_num >= 1
                &&& enc_att(q).len() == dec_nat(q.attachments_num).len() + 1
                &&& digit_run_end(s, 1) == a_end - 1
                &&& a_end - 1 < s.len()
                &&& s[a_end - 1] == 0x2d
                &&& digits_val(s.subrange(1, a_end - 1)) == q.attachments_num
            })
            &&& (!q.opcode.spec_is_binary() ==> enc_att(q).len() == 0)
            &&& (match q.namespace {
                Some(ns) => {
                    &&& a_end < s.len()
                    &&& s[a_end] == 0x2f
                    &&& comma_scan_end(s, a_end) == n_end
                    &&& s.subrange(a_end, n_end) == ns
                    &&& ((q.id is Some || q.data is Some) ==> n_end < s.len() && s[n_end] == 0x2c)
                    &&& ((q.id is None && q.data is None) ==> n_end == s.len())
                },
                None => a_end == s.len() || s[a_end] != 0x2f,
            })
            &&& (match q.id {
                Some(i) => {
                    &&& i_end > c_end
                    &&& digit_run_end(s, c_end) == i_end
                    &&& digits_val(s.subrange(c_end, i_end)) == i
                },
                None => c_end <= s.len() && digit_run_end(s, c_end) == c_end,
            })
            &&& (match q.data {
                Some(v) => i_end < s.len() && s.subrange(i_end, s.len() as int) == jser(v)
                    && is_json(v) && can_parse(v, s, i_end),
                None => i_end == s.len(),
            })
        }),
{
    let a_end = 1 + enc_att(q).len() as int;
    let n_end = a_end + enc_ns(q).len();
    let c_end = n_end + enc_comma(q).len();
    let i_end = c_end + enc_id(q).len();
    let head = seq![q.opcode.byte()];
    assert(s =~= head + enc_att(q) + enc_ns(q) + enc_comma(q) + enc_id(q) + enc_data(q));
    assert(starts_at(s, 0, s)) by {
        assert(s.subrange(0, s.len() as int) =~= s);
    }
    assert(s =~= (head + enc_att(q)) + (enc_ns(q) + (enc_comma(q) + (enc_id(q) + enc_data(q)))));
    lemma_starts_at_split(
        s,
        0,
        head + enc_att(q),
        enc_ns(q) + (enc_comma(q) + (enc_id(q) + enc_data(q))),
    );
    lemma_starts_at_split(s, 0, head, enc_att(q));
    lemma_starts_at_split(s, a_end, enc_ns(q), enc_comma(q) + (enc_id(q) + enc_data(q)));
    lemma_starts_at_split(s, n_end, enc_comma(q), enc_id(q) + enc_data(q));
    lemma_starts_at_split(s, c_end, enc_id(q), enc_data(q));
    assert(s[0] == q.opcode.byte()) by {
        lemma_starts_at_index(s, 0, head, 0);
    }
    if q.opcode.spec_is_binary() {
        assert(q.attachments_num >= 1);
        let d = dec_nat(q.attachments_num);
        lemma_dec_nat(q.attachments_num);
        lemma_digits_val_dec_nat(q.attachments_num);
        assert(enc_att(q) == d + seq![0x2du8]);
        lemma_starts_at_split(s, 1, d, seq![0x2du8]);
        lemma_starts_at_index(s, 1 + d.len() as int, seq![0x2du8], 0);
        assert(s[a_end - 1] == 0x2d);
        assert forall|k: int| 1 <= k < 1 + d.len() implies is_digit(#[trigger] s[k]) by {
            lemma_starts_at_index(s, 1, d, k - 1);
        }
        lemma_digit_run_exact(s, 1, d.len() as int);
        assert(s.subrange(1, a_end - 1) =~= d);
    }
    match q.namespace {
        Some(ns) => {
            assert(enc_ns(q) == ns);
            assert(starts_at(s, a_end, ns));
            lemma_starts_at_index(s, a_end, ns, 0);
            assert(s[a_end] == 0x2f);
            assert forall|k: int| a_end <= k < n_end implies s[k] != 0x2c by {
                lemma_starts_at_index(s, a_end, ns, k - a_end);
            }
            if q.id is Some || q.data is Some {
                assert(enc_comma(q) == seq![0x2cu8]);
                lemma_starts_at_index(s, n_end, seq![0x2cu8], 0);
                lemma_comma_scan_exact(s, a_end, ns.len() as int);
            } else {
                assert(enc_comma(q).len() == 0);
                assert(enc_id(q).len() == 0);
                assert(enc_data(q).len() == 0);
                assert(n_end == s.len());
                lemma_comma_scan_exact(s, a_end, ns.len() as int);
            }
            assert(s.subrange(a_end, n_end) =~= ns);
        },
        None => {
            assert(enc_ns(q).len() == 0 && enc_comma(q).len() == 0);
            if a_end < s.len() {
                match q.id {
                    Some(i) => {
                        lemma_dec_nat(i);
                        lemma_starts_at_index(s, c_end, enc_id(q), 0);
                        assert(is_digit(s[a_end]));
                    },
                    None => {
                        match q.data {
                            Some(v) => {
                                lemma_jser_first(v);
                                lemma_starts_at_index(s, i_end, enc_data(q), 0);
                                assert(s[a_end] == jser(v)[0]);
                                match v {
                                    Val::Arr(_) => {},
                                    Val::Str(_) => {},
                                    _ => {
                                        assert(false);
                                    },
                                }
                            },
                            None => {
                                assert(a_end == s.len());
                            },
                        }
                    },
                }
            }
        },
    }
    match q.id {
        Some(i) => {
            let d = dec_nat(i);
            lemma_dec_nat(i);
            lemma_digits_val_dec_nat(i);
            assert(enc_id(q) == d);
            assert forall|k: int| c_end <= k < i_end implies is_digit(#[trigger] s[k]) by {
                lemma_starts_at_index(s, c_end, d, k - c_end);
            }
            assert(i_end == s.len() || !is_digit(s[i_end])) by {
                match q.data {
                    Some(v) => {
                        lemma_jser_first(v);
                        lemma_starts_at_index(s, i_end, enc_data(q), 0);
                        match v {
                            Val::Arr(_) => {},
                            _ => {
                                assert(false);
                            },
                        }
                    },
                    None => {},
                }
            }
            lemma_digit_run_exact(s, c_end, d.len() as int);
            assert(s.subrange(c_end, i_end) =~= d);
        },
        None => {
            assert(enc_id(q).len() == 0);
            if c_end < s.len() {
                match q.data {
                    Some(v) => {
                        lemma_jser_first(v);
                        lemma_starts_at_index(s, i_end, enc_data(q), 0);
                        assert(s[c_end] == jser(v)[0]);
                        assert(!is_digit(s[c_end])) by {
                            match v {
                                Val::Arr(_) => {},
                                Val::Str(_) => {},
                                _ => {
                                    assert(false);
                                },
                            }
                        }
                    },
                    None => {
                        assert(c_end == s.len());
                    },
                }
            }
        },
    }
    match q.data {
        Some(v) => {
            assert(s.subrange(i_end, s.len() as int) =~= jser(v)) by {
                assert(starts_at(s, i_end, enc_data(q)));
                assert(i_end + jser(v).len() == s.len());
            }
            lemma_jser_first(v);
            assert(can_parse(v, s, i_end)) by {
                assert(starts_at(s, i_end, jser(v)));
            }
        },
        None => {},
    }
}

/// The opcode a leading byte names.
pub open spec fn opcode_of_byte(b: u8) -> Opcode {
    if b == 0x30 {
        Opcode::Connect
    } else if b == 0x31 {
        Opcode::Disconnect
    } else if b == 0x32 {
        Opcode::Event
    } else if b == 0x33 {
        Opcode::Ack
    } else if b == 0x34 {
        Opcode::Error
    } else if b == 0x35 {
        Opcode::BinaryEvent
    } else {
        Opcode::BinaryAck
    }
}

/// What reading one text frame yields, stated as one function of the text:
/// the section-by-section grammar of the framing, each error on exactly the
/// inputs that break its stage, in order of check. `from_bytes` returns
/// exactly this.
pub open spec fn spec_decode(s: Seq<u8>) -> Result<SpecPacket, Error> {
    if s.len() == 0 {
        Err(Error::InvalidPacket)
    } else if !(0x30 <= s[0] <= 0x36) {
        Err(Error::InvalidOpcode(s[0]))
    } else {
        let op = opcode_of_byte(s[0]);
        if op.spec_is_binary() {
            let e = digit_run_end(s, 1);
            if e >= s.len() || s[e] != 0x2d {
                Err(Error::InvalidPacket)
            } else if digits_val(s.subrange(1, e)) > usize::MAX as int {
                Err(Error::InvalidPacket)
            } else {
                sd_ns(s, op, digits_val(s.subrange(1, e)) as nat, e + 1)
            }
        } else {
            sd_ns(s, op, 0, 1)
        }
    }
}

/// The namespace stage of `spec_decode`: a slash opens a namespace that runs
/// to the first comma, or to the end when no comma follows, and must be
/// well-formed text.
pub open spec fn sd_ns(s: Seq<u8>, op: Opcode, att: nat, pos: int) -> Result<SpecPacket, Error> {
    if pos < s.len() && s[pos] == 0x2f {
        let c = comma_scan_end(s, pos);
        if !is_utf8(s.subrange(pos, c)) {
            Err(Error::FromUtf8Error)
        } else {
            sd_id(
                s,
                op,
                att,
                Some(s.subrange(pos, c)),
                if c < s.len() {
                    c + 1
                } else {
                    c
                },
            )
        }
    } else {
        sd_id(s, op, att, None, pos)
    }
}

/// The id stage of `spec_decode`: the run of digits, if any, read base ten.
pub open spec fn sd_id(s: Seq<u8>, op: Opcode, att: nat, ns: Option<Seq<u8>>, pos: int) -> Result<
    SpecPacket,
    Error,
> {
    let e = digit_run_end(s, pos);
    if e > pos && digits_val(s.subrange(pos, e)) > usize::MAX as int {
        Err(Error::InvalidPacket)
    } else if e > pos {
        sd_data(s, op, att, ns, Some(digits_val(s.subrange(pos, e)) as nat), e)
    } else {
        sd_data(s, op, att, ns, None, pos)
    }
}

/// The payload stage of `spec_decode`: the remaining bytes, if any, must be
/// well-formed text, and a payload text — the canonical text of a wire-fit
/// tree, or one with a canonical form (`norm`) that is.
pub open spec fn sd_data(
    s: Seq<u8>,
    op: Opcode,
    att: nat,
    ns: Option<Seq<u8>>,
    id: Option<nat>,
    pos: int,
) -> Result<SpecPacket, Error> {
    if pos >= s.len() {
        sd_checks(op, att, ns, id, None)
    } else {
        let tail = s.subrange(pos, s.len() as int);
        if !is_utf8(tail) {
            Err(Error::FromUtf8Error)
        } else if exists|v: Val| is_json(v) && jser(v) == tail {
            sd_checks(op, att, ns, id, Some(choose|v: Val| is_json(v) && jser(v) == tail))
        } else {
            match crate::json::norm(tail, false) {
                None => Err(Error::JSONError),
                Some(nt) => if exists|v: Val| is_json(v) && jser(v) == nt {
                    sd_checks(op, att, ns, id, Some(choose|v: Val| is_json(v) && jser(v) == nt))
                } else {
                    Err(Error::JSONError)
                },
            }
        }
    }
}

/// The final checks of `spec_decode`, in order: an event's payload must be
/// a sequence, and not empty; an acknowledgment must carry an id.
pub open spec fn sd_checks(
    op: Opcode,
    att: nat,
    ns: Option<Seq<u8>>,
    id: Option<nat>,
    data: Option<Val>,
) -> Result<SpecPacket, Error> {
    if (op == Opcode::Event || op == Opcode::BinaryEvent) && !(data matches Some(v) && v is Arr) {
        Err(Error::PacketDataNotArray)
    } else if (op == Opcode::Event || op == Opcode::BinaryEvent) && data->Some_0->Arr_0.len()
        == 0 {
        Err(Error::NoEvent)
    } else if (op == Opcode::Ack || op == Opcode::BinaryAck) && id is None {
        Err(Error::AckIDMissing)
    } else {
        Ok(
            SpecPacket {
                namespace: ns,
                opcode: op,
                id,
                attachments_num: att,
                data,
                attachments: None,
            },
        )
    }
}

impl Packet {
    /// Reads a packet from one text frame: exactly what `spec_decode` says,
    /// section by section, error by error. In particular every canonical
    /// text of a well-formed packet is read back as that packet, whatever
    /// succeeds on such a text prints back to the very text read, and a text
    /// on which reading fails is the canonical text of no well-formed
    /// packet.
    #[verifier::rlimit(100)]
    #[verifier::spinoff_prover]
    pub fn from_bytes(s: &Vec<u8>) -> (r: Result<Packet, Error>)
        ensures
            spec_decode(s@) == (match r {
                Ok(p) => Ok::<SpecPacket, Error>(p@),
                Err(e) => Err::<SpecPacket, Error>(e),
            }),
            forall|q: SpecPacket|
                wire_wf(q) && s@ == spec_encode(q) ==> (r matches Ok(p) && p@ == q),
            (exists|q: SpecPacket| wire_wf(q) && s@ == spec_encode(q)) ==> (r matches Ok(p)
                && spec_encode(p@) == s@ && wire_wf(p@)),
            r matches Err(_) ==> !(exists|q: SpecPacket| wire_wf(q) && s@ == spec_encode(q)),
            r matches Ok(p) ==> {
                &&& p@.attachments is None
                &&& (p@.opcode == Opcode::Event || p@.opcode == Opcode::BinaryEvent ==> (
                match p@.data {
                    Some(v) => v is Arr && v->Arr_0.len() >= 1,
                    None => false,
                }))
                &&& (p@.opcode == Opcode::Ack || p@.opcode == Opcode::BinaryAck ==> p@.id is Some)
                &&& (!p@.opcode.spec_is_binary() ==> p@.attachments_num == 0)
                &&& (match p@.data {
                    Some(v) => is_json(v),
                    None => true,
                })
            },
            s@.len() == 0 ==> r == Err::<Packet, Error>(Error::InvalidPacket),
            s@.len() > 0 && !(0x30 <= s@[0] <= 0x36) ==> r == Err::<Packet, Error>(
                Error::InvalidOpcode(s@[0]),
            ),
    {
        let n = s.len();
        proof {
            assert forall|q: SpecPacket| wire_wf(q) && s@ == spec_encode(q) implies good_frame(
                q,
                s@,
            ) by {
                lemma_encode_shape(q, s@);
            }
        }
        if n == 0 {
            return Err(Error::InvalidPacket);
        }
        let b0 = s[0];
        let opcode = match Opcode::from_byte(b0) {
            Some(op) => op,
            None => {
                return Err(Error::InvalidOpcode(b0));
            },
        };
        proof {
            assert forall|q: SpecPacket|
                wire_wf(q) && s@ == spec_encode(q) implies opcode == q.opcode by {
                assert(opcode.byte() == q.opcode.byte());
            }
            assert(opcode == opcode_of_byte(s@[0]));
        }
        let mut pos: usize = 1;
        let mut att: usize = 0;
        if opcode.is_binary() {
            match scan_digits(s, 1) {
                None => {
                    proof {
                        assert forall|q: SpecPacket|
                            wire_wf(q) && s@ == spec_encode(q) implies false by {
                            assert(digits_val(s@.subrange(1, digit_run_end(s@, 1)))
                                == q.attachments_num);
                        }
                        assert(usize::MAX as int <= u64::MAX as int);
                        assert(spec_decode(s@) == Err::<SpecPacket, Error>(Error::InvalidPacket))
                            by {
                            lemma_digit_run(s@, 1);
                            let e = digit_run_end(s@, 1);
                            if !(e >= s@.len() || s@[e] != 0x2d) {
                                assert(digits_val(s@.subrange(1, e)) > usize::MAX as int);
                            }
                        }
                    }
                    return Err(Error::InvalidPacket);
                },
                Some((a_val, e)) => {
                    if e >= n || s[e] != 0x2d {
                        proof {
                            assert forall|q: SpecPacket|
                                wire_wf(q) && s@ == spec_encode(q) implies false by {}
                            assert(spec_decode(s@) == Err::<SpecPacket, Error>(
                                Error::InvalidPacket,
                            ));
                        }
                        return Err(Error::InvalidPacket);
                    }
                    if a_val > usize::MAX as u64 {
                        proof {
                            assert forall|q: SpecPacket|
                                wire_wf(q) && s@ == spec_encode(q) implies false by {}
                            assert(spec_decode(s@) == Err::<SpecPacket, Error>(
                                Error::InvalidPacket,
                            ));
                        }
                        return Err(Error::InvalidPacket);
                    }
                    att = a_val as usize;
                    pos = e + 1;
                },
            }
        }
        let ghost pos_a = pos as int;
        proof {
            assert forall|q: SpecPacket|
                wire_wf(q) && s@ == spec_encode(q) implies att == q.attachments_num && pos_a == 1
                + enc_att(q).len() by {}
            assert(spec_decode(s@) == sd_ns(s@, opcode, att as nat, pos_a));
        }
        let mut nsp: Option<Vec<u8>> = None;
        if pos < n && s[pos] == 0x2f {
            let c = scan_comma(s, pos);
            if !check_utf8(s, pos, c) {
                proof {
                    assert forall|q: SpecPacket|
                        wire_wf(q) && s@ == spec_encode(q) implies false by {
                        match q.namespace {
                            Some(nsq) => {
                                assert(s@[pos_a] == 0x2f && pos_a < n);
                            },
                            None => {
                                assert(pos_a == s@.len() || s@[pos_a] != 0x2f);
                            },
                        }
                    }
                    assert(sd_ns(s@, opcode, att as nat, pos_a) == Err::<SpecPacket, Error>(
                        Error::FromUtf8Error,
                    ));
                }
                return Err(Error::FromUtf8Error);
            }
            let ns = copy_range(s, pos, c);
            nsp = Some(ns);
            if c < n {
                pos = c + 1;
            } else {
                pos = c;
            }
        }
        let ghost pos_c = pos as int;
        let ghost g_ns: Option<Seq<u8>> = match &nsp {
            Some(nv) => Some(nv@),
            None => None,
        };
        proof {
            assert(sd_ns(s@, opcode, att as nat, pos_a) == sd_id(
                s@,
                opcode,
                att as nat,
                g_ns,
                pos_c,
            ));
            assert forall|q: SpecPacket|
                wire_wf(q) && s@ == spec_encode(q) implies (match q.namespace {
                Some(nsq) => nsp matches Some(nv) && nv@ == nsq,
                None => nsp is None,
            }) && pos_c == 1 + enc_att(q).len() + enc_ns(q).len() + enc_comma(q).len() by {
                match q.namespace {
                    Some(nsq) => {
                        assert(s@[pos_a] == 0x2f && pos_a < n);
                    },
                    None => {
                        assert(pos_a == s@.len() || s@[pos_a] != 0x2f);
                    },
                }
            }
        }
        let mut id: Option<usize> = None;
        match scan_digits(s, pos) {
            None => {
                proof {
                    assert forall|q: SpecPacket|
                        wire_wf(q) && s@ == spec_encode(q) implies false by {
                        match q.id {
                            Some(i) => {
                                assert(digits_val(
                                    s@.subrange(pos_c, digit_run_end(s@, pos_c)),
                                ) == i);
                            },
                            None => {
                                assert(s@.subrange(pos_c, pos_c) =~= Seq::<u8>::empty());
                            },
                        }
                    }
                }
                proof {
                    assert(usize::MAX as int <= u64::MAX as int);
                    assert(sd_id(s@, opcode, att as nat, g_ns, pos_c) == Err::<SpecPacket, Error>(
                        Error::InvalidPacket,
                    )) by {
                        lemma_digit_run(s@, pos_c);
                        let e = digit_run_end(s@, pos_c);
                        if e == pos_c {
                            assert(s@.subrange(pos_c, pos_c) =~= Seq::<u8>::empty());
                        }
                    }
                }
                return Err(Error::InvalidPacket);
            },
            Some((i_val, e2)) => {
                if e2 > pos {
                    if i_val > usize::MAX as u64 {
                        proof {
                            assert forall|q: SpecPacket|
                                wire_wf(q) && s@ == spec_encode(q) implies false by {
                                match q.id {
                                    Some(i) => {},
                                    None => {},
                                }
                            }
                            assert(usize::MAX as int <= u64::MAX as int);
                            assert(sd_id(s@, opcode, att as nat, g_ns, pos_c) == Err::<
                                SpecPacket,
                                Error,
                            >(Error::InvalidPacket));
                        }
                        return Err(Error::InvalidPacket);
                    }
                    id = Some(i_val as usize);
                    pos = e2;
                }
            },
        }
        let ghost pos_i = pos as int;
        let ghost g_id: Option<nat> = match id {
            Some(iv) => Some(iv as nat),
            None => None,
        };
        proof {
            assert(sd_id(s@, opcode, att as nat, g_ns, pos_c) == sd_data(
                s@,
                opcode,
                att as nat,
                g_ns,
                g_id,
                pos_i,
            ));
            assert forall|q: SpecPacket|
                wire_wf(q) && s@ == spec_encode(q) implies (match q.id {
                Some(i) => id matches Some(iv) && iv == i,
                None => id is None,
            }) && pos_i == 1 + enc_att(q).len() + enc_ns(q).len() + enc_comma(q).len() + enc_id(
                q,
            ).len() by {}
        }
        Self::finish_decode(s, pos, opcode, att, nsp, id)
    }

    /// The payload stage and the final checks of `from_bytes`, taken over
    /// once the framing sections are read.
    #[verifier::rlimit(100)]
    #[verifier::spinoff_prover]
    fn finish_decode(
        s: &Vec<u8>,
        pos: usize,
        opcode: Opcode,
        att: usize,
        nsp: Option<Vec<u8>>,
        id: Option<usize>,
    ) -> (r: Result<Packet, Error>)
        requires
            pos <= s@.len(),
            !opcode.spec_is_binary() ==> att == 0,
            spec_decode(s@) == sd_data(
                s@,
                opcode,
                att as nat,
                (match nsp {
                    Some(nv) => Some(nv@),
                    None => None,
                }),
                (match id {
                    Some(iv) => Some(iv as nat),
                    None => None,
                }),
                pos as int,
            ),
            forall|q: SpecPacket|
                wire_wf(q) && s@ == spec_encode(q) ==> good_frame(q, s@) && opcode == q.opcode
                    && att == q.attachments_num && (match q.namespace {
                    Some(nsq) => nsp matches Some(nv) && nv@ == nsq,
                    None => nsp is None,
                }) && (match q.id {
                    Some(i) => id matches Some(iv) && iv == i,
                    None => id is None,
                }) && pos == 1 + enc_att(q).len() + enc_ns(q).len() + enc_comma(q).len() + enc_id(
                    q,
                ).len(),
        ensures
            spec_decode(s@) == (match r {
                Ok(p) => Ok::<SpecPacket, Error>(p@),
                Err(e) => Err::<SpecPacket, Error>(e),
            }),
            forall|q: SpecPacket|
                wire_wf(q) && s@ == spec_encode(q) ==> (r matches Ok(p) && p@ == q),
            (exists|q: SpecPacket| wire_wf(q) && s@ == spec_encode(q)) ==> (r matches Ok(p)
                && spec_encode(p@) == s@ && wire_wf(p@)),
            r matches Err(_) ==> !(exists|q: SpecPacket| wire_wf(q) && s@ == spec_encode(q)),
            r matches Ok(p) ==> {
                &&& p@.attachments is None
                &&& (p@.opcode == Opcode::Event || p@.opcode == Opcode::BinaryEvent ==> (
                match p@.data {
                    Some(v) => v is Arr && v->Arr_0.len() >= 1,
                    None => false,
                }))
                &&& (p@.opcode == Opcode::Ack || p@.opcode == Opcode::BinaryAck ==> p@.id is Some)
                &&& (!p@.opcode.spec_is_binary() ==> p@.attachments_num == 0)
                &&& (match p@.data {
                    Some(v) => is_json(v),
                    None => true,
                })
            },
    {
        let n = s.len();
        let ghost pos_i = pos as int;
        let ghost g_ns: Option<Seq<u8>> = match &nsp {
            Some(nv) => Some(nv@),
            None => None,
        };
        let ghost g_id: Option<nat> = match &id {
            Some(iv) => Some(*iv as nat),
            None => None,
        };
        let mut data: Option<Value> = None;
        let ghost tail = s@.subrange(pos_i, s@.len() as int);
        if pos < n {
            if !check_utf8(s, pos, n) {
                proof {
                    assert forall|q: SpecPacket|
                        wire_wf(q) && s@ == spec_encode(q) implies false by {}
                    assert(sd_data(s@, opcode, att as nat, g_ns, g_id, pos_i) == Err::<
                        SpecPacket,
                        Error,
                    >(Error::FromUtf8Error));
                }
                return Err(Error::FromUtf8Error);
            }
            match from_json(s, pos) {
                None => {
                    let tl = copy_range(s, pos, n);
                    match normalize(&tl) {
                        None => {
                            proof {
                                assert forall|q: SpecPacket|
                                    wire_wf(q) && s@ == spec_encode(q) implies false by {}
                                assert(sd_data(s@, opcode, att as nat, g_ns, g_id, pos_i)
                                    == Err::<SpecPacket, Error>(Error::JSONError));
                            }
                            return Err(Error::JSONError);
                        },
                        Some(nt) => {
                            match from_json(&nt, 0) {
                                None => {
                                    proof {
                                        assert forall|q: SpecPacket|
                                            wire_wf(q) && s@ == spec_encode(q) implies false by {}
                                        assert(nt@.subrange(0, nt@.len() as int) =~= nt@);
                                        assert(sd_data(s@, opcode, att as nat, g_ns, g_id, pos_i)
                                            == Err::<SpecPacket, Error>(Error::JSONError));
                                    }
                                    return Err(Error::JSONError);
                                },
                                Some(v) => {
                                    proof {
                                        assert(nt@.subrange(0, nt@.len() as int) =~= nt@);
                                        assert(jser(v@) == nt@);
                                        let w = choose|w: Val| is_json(w) && jser(w) == nt@;
                                        assert(is_json(w) && nt@.subrange(
                                            0,
                                            nt@.len() as int,
                                        ) == jser(w));
                                        assert(v@ == w);
                                    }
                                    data = Some(v);
                                },
                            }
                        },
                    }
                },
                Some(v) => {
                    proof {
                        assert(jser(v@) == tail);
                        let w = choose|w: Val| is_json(w) && jser(w) == tail;
                        assert(is_json(w) && s@.subrange(pos as int, s@.len() as int) == jser(w));
                        assert(v@ == w);
                    }
                    data = Some(v);
                },
            }
        }
        let ghost g_data: Option<Val> = match &data {
            Some(dv) => Some(dv@),
            None => None,
        };
        proof {
            assert(sd_data(s@, opcode, att as nat, g_ns, g_id, pos_i) == sd_checks(
                opcode,
                att as nat,
                g_ns,
                g_id,
                g_data,
            ));
            assert forall|q: SpecPacket|
                wire_wf(q) && s@ == spec_encode(q) implies (match q.data {
                Some(w) => data matches Some(dv) && dv@ == w,
                None => data is None,
            }) by {}
        }
        Self::check_and_build(s, opcode, att, nsp, id, data)
    }

    /// The final checks of `from_bytes` and the packet they admit.
    #[verifier::rlimit(100)]
    #[verifier::spinoff_prover]
    fn check_and_build(
        s: &Vec<u8>,
        opcode: Opcode,
        att: usize,
        nsp: Option<Vec<u8>>,
        id: Option<usize>,
        data: Option<Value>,
    ) -> (r: Result<Packet, Error>)
        requires
            !opcode.spec_is_binary() ==> att == 0,
            spec_decode(s@) == sd_checks(
                opcode,
                att as nat,
                (match nsp {
                    Some(nv) => Some(nv@),
                    None => None,
                }),
                (match id {
                    Some(iv) => Some(iv as nat),
                    None => None,
                }),
                (match data {
                    Some(dv) => Some(dv@),
                    None => None,
                }),
            ),
            forall|q: SpecPacket|
                wire_wf(q) && s@ == spec_encode(q) ==> opcode == q.opcode && att
                    == q.attachments_num && (match q.namespace {
                    Some(nsq) => nsp matches Some(nv) && nv@ == nsq,
                    None => nsp is None,
                }) && (match q.id {
                    Some(i) => id matches Some(iv) && iv == i,
                    None => id is None,
                }) && (match q.data {
                    Some(w) => data matches Some(dv) && dv@ == w,
                    None => data is None,
                }),
        ensures
            spec_decode(s@) == (match r {
                Ok(p) => Ok::<SpecPacket, Error>(p@),
                Err(e) => Err::<SpecPacket, Error>(e),
            }),
            forall|q: SpecPacket|
                wire_wf(q) && s@ == spec_encode(q) ==> (r matches Ok(p) && p@ == q),
            (exists|q: SpecPacket| wire_wf(q) && s@ == spec_encode(q)) ==> (r matches Ok(p)
                && spec_encode(p@) == s@ && wire_wf(p@)),
            r matches Err(_) ==> !(exists|q: SpecPacket| wire_wf(q) && s@ == spec_encode(q)),
            r matches Ok(p) ==> {
                &&& p@.attachments is None
                &&& (p@.opcode == Opcode::Event || p@.opcode == Opcode::BinaryEvent ==> (
                match p@.data {
                    Some(v) => v is Arr && v->Arr_0.len() >= 1,
                    None => false,
                }))
                &&& (p@.opcode == Opcode::Ack || p@.opcode == Opcode::BinaryAck ==> p@.id is Some)
                &&& (!p@.opcode.spec_is_binary() ==> p@.attachments_num == 0)
                &&& (match p@.data {
                    Some(v) => is_json(v),
                    None => true,
                })
            },
    {
        let ghost g_ns: Option<Seq<u8>> = match &nsp {
            Some(nv) => Some(nv@),
            None => None,
        };
        let ghost g_id: Option<nat> = match &id {
            Some(iv) => Some(*iv as nat),
            None => None,
        };
        let ghost g_data: Option<Val> = match &data {
            Some(dv) => Some(dv@),
            None => None,
        };
        proof {
            assert forall|q: SpecPacket|
                wire_wf(q) && s@ == spec_encode(q) implies (match q.data {
                Some(w) => is_json(w),
                None => true,
            }) by {}
        }
        if opcode == Opcode::Event || opcode == Opcode::BinaryEvent {
            let ok = match &data {
                Some(Value::Arr(items)) => {
                    if items.len() == 0 {
                        proof {
                            assert forall|q: SpecPacket|
                                wire_wf(q) && s@ == spec_encode(q) implies false by {
                                crate::value::lemma_view_seq(data->Some_0->Arr_0@);
                            }
                        }
                        proof {
                            assert(sd_checks(opcode, att as nat, g_ns, g_id, g_data) == Err::<
                                SpecPacket,
                                Error,
                            >(Error::NoEvent));
                        }
                        return Err(Error::NoEvent);
                    }
                    true
                },
                _ => false,
            };
            if !ok {
                proof {
                    assert forall|q: SpecPacket| wire_wf(q) && s@ == spec_encode(q) implies false
                        by {
                        match data {
                            Some(v) => {
                                match v {
                                    Value::Arr(_) => {},
                                    _ => {},
                                }
                            },
                            None => {},
                        }
                    }
                }
                proof {
                    assert(sd_checks(opcode, att as nat, g_ns, g_id, g_data) == Err::<
                        SpecPacket,
                        Error,
                    >(Error::PacketDataNotArray));
                }
                return Err(Error::PacketDataNotArray);
            }
        }
        if (opcode == Opcode::Ack || opcode == Opcode::BinaryAck) && id.is_none() {
            proof {
                assert forall|q: SpecPacket| wire_wf(q) && s@ == spec_encode(q) implies false by {}
            }
            proof {
                assert(sd_checks(opcode, att as nat, g_ns, g_id, g_data) == Err::<
                    SpecPacket,
                    Error,
                >(Error::AckIDMissing));
            }
            return Err(Error::AckIDMissing);
        }
        if !opcode.is_binary() && att != 0 {
            return Err(Error::NonBinaryHasAttachments);
        }
        let p = Packet {
            namespace: nsp,
            opcode,
            id,
            attachments_num: att,
            data,
            attachments: None,
        };
        proof {
            assert forall|q: SpecPacket| wire_wf(q) && s@ == spec_encode(q) implies p@ =~= q by {
                assert(p@.opcode == q.opcode);
                assert(p@.attachments_num == q.attachments_num);
                assert(p@.namespace == q.namespace);
                assert(p@.id == q.id);
                assert(p@.data == q.data);
            }
            if exists|q: SpecPacket| wire_wf(q) && s@ == spec_encode(q) {
                let q = choose|q: SpecPacket| wire_wf(q) && s@ == spec_encode(q);
                assert(p@ == q);
            }
            assert(sd_checks(opcode, att as nat, g_ns, g_id, g_data) == Ok::<SpecPacket, Error>(
                p@,
            )) by {
                assert(p@ =~= (SpecPacket {
                    namespace: g_ns,
                    opcode,
                    id: g_id,
                    attachments_num: att as nat,
                    data: g_data,
                    attachments: None,
                }));
                match data {
                    Some(v) => {
                        match v {
                            Value::Arr(items) => {
                                crate::value::lemma_view_seq(items@);
                            },
                            _ => {},
                        }
                    },
                    None => {},
                }
            }
            assert(spec_decode(s@) == Ok::<SpecPacket, Error>(p@));
        }
        Ok(p)
    }
}

/// What the reader's scans find in the canonical text of a well-formed
/// packet: `lemma_encode_shape`, restated over the text alone so that it can
/// carry through the reader as one fact.
pub open spec fn good_frame(q: SpecPacket, s: Seq<u8>) -> bool {
    let a_end = 1 + enc_att(q).len() as int;
    let n_end = a_end + enc_ns(q).len();
    let c_end = n_end + enc_comma(q).len();
    let i_end = c_end + enc_id(q).len();
    &&& s.len() == 1 + enc_att(q).len() + enc_ns(q).len() + enc_comma(q).len() + enc_id(q).len()
        + enc_data(q).len()
    &&& s.len() >= 1
    &&& s[0] == q.opcode.byte()
    &&& 0x30 <= s[0] <= 0x36
    &&& (q.opcode.spec_is_binary() ==> {
        &&& q.attachments_num >= 1
        &&& enc_att(q).len() == dec_nat(q.attachments_num).len() + 1
        &&& digit_run_end(s, 1) == a_end - 1
        &&& a_end - 1 < s.len()
        &&& s[a_end - 1] == 0x2d
        &&& digits_val(s.subrange(1, a_end - 1)) == q.attachments_num
    })
    &&& (!q.opcode.spec_is_binary() ==> enc_att(q).len() == 0)
    &&& (match q.namespace {
        Some(ns) => {
            &&& a_end < s.len()
            &&& s[a_end] == 0x2f
            &&& comma_scan_end(s, a_end) == n_end
            &&& s.subrange(a_end, n_end) == ns
            &&& ((q.id is Some || q.data is Some) ==> n_end < s.len() && s[n_end] == 0x2c)
            &&& ((q.id is None && q.data is None) ==> n_end == s.len())
        },
        None => a_end == s.len() || s[a_end] != 0x2f,
    })
    &&& (match q.id {
        Some(i) => {
            &&& i_end > c_end
            &&& digit_run_end(s, c_end) == i_end
            &&& digits_val(s.subrange(c_end, i_end)) == i
        },
        None => c_end <= s.len() && digit_run_end(s, c_end) == c_end,
    })
    &&& (match q.data {
        Some(v) => i_end < s.len() && s.subrange(i_end, s.len() as int) == jser(v) && is_json(v)
            && can_parse(v, s, i_end),
        None => i_end == s.len(),
    })
}

} // verus!
