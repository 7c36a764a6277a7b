use vstd::prelude::*;
use crate::hexs::{hex_of, hex_encode, lemma_hex_of_ascii};
use crate::key::mask_in_range;
use crate::rnd::rand_byte;
use crate::wire::{
    all_ascii_bytes,
    bytes_chars,
    chars_bytes,
    enc_u64,
    push_byte,
    push_bytes,
    push_u64,
    read_u64,
    sub_vec,
    ascii_to_string,
};
use vstd::bytes::spec_u64_from_le_bytes;
use vstd::slice::slice_subrange;
use vstd::utf8::is_ascii_chars;

verus! {

/// The raw 32 bytes shared by message keys and packet-stream ids.
pub type InnerKey = [u8; 32];

/// The serialised body a message carries.
pub type MessageData = Vec<u8>;

/// The per-packet flag asking the receiver for an acknowledgement.
pub type ReturnReceipt = u8;

/// A socket address rendered as wire bytes.
pub type AddressBytes = Vec<u8>;

pub type Packets = Vec<Packet>;

pub type RequestBytes = Vec<u8>;

pub type ResponseBytes = Vec<u8>;

/// Marker for the protocols multiplexed over the datagram layer.
pub trait Protocol {

}

/// Implemented by values that can be cut into packets for the wire.
pub trait Packetize {
    fn packetize(&self) -> Vec<Packet>;
}

/// The number of bytes of message data one packet carries.
pub const PACKET_SLICE_LEN: usize = 32500;

/// How many packets a message of `len` bytes is cut into.
pub open spec fn slice_count(len: int) -> int {
    if len == 0 {
        1
    } else {
        (len - 1) / 32500 + 1
    }
}

/// The bytes of slice `i` of a message: packets cover the message in
/// contiguous 32500-byte pieces, the last possibly shorter.
pub open spec fn slice_at(b: Seq<u8>, i: int) -> Seq<u8> {
    b.subrange(
        i * 32500,
        if (i + 1) * 32500 <= b.len() {
            (i + 1) * 32500
        } else {
            b.len() as int
        },
    )
}

/// The first `k` slices of a message joined in order.
pub open spec fn slices_concat_upto(b: Seq<u8>, k: int) -> Seq<u8>
    decreases k,
{
    if k <= 0 {
        Seq::empty()
    } else {
        slices_concat_upto(b, k - 1) + slice_at(b, k - 1)
    }
}

proof fn lemma_slices_prefix(b: Seq<u8>, k: int)
    requires
        0 <= k,
        k * 32500 <= b.len() + 32500,
    ensures
        slices_concat_upto(b, k) == b.take(
            if k * 32500 <= b.len() {
                k * 32500
            } else {
                b.len() as int
            },
        ),
    decreases k,
{
    if k == 0 {
        assert(slices_concat_upto(b, 0) =~= b.take(0));
    } else {
        assert((k - 1) * 32500 == k * 32500 - 32500) by (nonlinear_arith);
        lemma_slices_prefix(b, k - 1);
        assert(slices_concat_upto(b, k) =~= b.take(
            if k * 32500 <= b.len() {
                k * 32500
            } else {
                b.len() as int
            },
        ));
    }
}

/// Joined in packet order, the slices of a message reproduce the message:
/// the packetiser cuts its input into contiguous pieces that cover it
/// exactly once.
pub proof fn lemma_packetize_covers(b: Seq<u8>)
    ensures
        slices_concat_upto(b, slice_count(b.len() as int)) == b,
{
    let n = slice_count(b.len() as int);
    let len = b.len() as int;
    if len == 0 {
        assert(slices_concat_upto(b, 0) =~= Seq::<u8>::empty());
        assert(slices_concat_upto(b, 1) =~= slice_at(b, 0));
        assert(slice_at(b, 0) =~= b);
    } else {
        assert(n == (len - 1) / 32500 + 1);
        assert((len - 1) / 32500 * 32500 <= len - 1 && (len - 1) / 32500 >= 0) by (nonlinear_arith)
            requires
                len >= 1,
        ;
        assert(n * 32500 == (len - 1) / 32500 * 32500 + 32500) by (nonlinear_arith)
            requires
                n == (len - 1) / 32500 + 1,
        ;
        lemma_slices_prefix(b, n);
        assert(b.take(len) =~= b);
    }
}

/// A message shorter than one slice travels as a single packet, numbered
/// one.
pub proof fn lemma_single_packet(len: int)
    requires
        0 <= len < 32500,
    ensures
        slice_count(len) == 1,
{
}

/// The unique byte string a lowercase hex string renders; meaningful on the
/// strings `hex_of` produces.
pub open spec fn unhex(s: Seq<char>) -> Seq<u8> {
    choose|bs: Seq<u8>| hex_of(bs) == s
}

/// Hex-decoding a hex rendering gives back the rendered bytes.
pub proof fn lemma_unhex_hex(bs: Seq<u8>)
    ensures
        unhex(hex_of(bs)) == bs,
{
    let w = unhex(hex_of(bs));
    assert(hex_of(bs) == hex_of(bs));
    assert(exists|x: Seq<u8>| hex_of(x) == hex_of(bs));
    crate::hexs::lemma_hex_of_inj(w, bs);
}

/// One wire packet: the stream id shared by all packets of a message, this
/// packet's 1-based number, the stream's packet count, the hex rendering of
/// this packet's slice of the message, and the return-receipt flag.
#[derive(Debug)]
pub struct Packet {
    pub id: InnerKey,
    pub n: usize,
    pub total_n: usize,
    pub bytes: String,
    pub ret: ReturnReceipt,
}

/// The mathematical content of a `Packet`.
pub ghost struct PacketV {
    pub id: Seq<u8>,
    pub n: int,
    pub total_n: int,
    pub bytes: Seq<char>,
    pub ret: u8,
}

impl View for Packet {
    type V = PacketV;

    open spec fn view(&self) -> PacketV {
        PacketV {
            id: self.id@,
            n: self.n as int,
            total_n: self.total_n as int,
            bytes: self.bytes@,
            ret: self.ret,
        }
    }
}

impl Clone for Packet {
    fn clone(&self) -> (r: Self)
        ensures
            r@ == self@,
    {
        Packet {
            id: self.id,
            n: self.n,
            total_n: self.total_n,
            bytes: self.bytes.clone(),
            ret: self.ret,
        }
    }
}

/// A packet whose fields fit on the wire.
pub open spec fn wf_packet(p: PacketV) -> bool {
    &&& p.id.len() == 32
    &&& 0 <= p.n <= usize::MAX
    &&& 0 <= p.total_n <= usize::MAX
    &&& is_ascii_chars(p.bytes)
}

/// The wire bytes of a packet: id, number, count, flag, then the payload
/// text.
pub open spec fn enc_packet(p: PacketV) -> Seq<u8> {
    p.id + enc_u64(p.n as u64) + enc_u64(p.total_n as u64) + seq![p.ret] + chars_bytes(p.bytes)
}

/// What wire bytes say as a packet.
pub open spec fn dec_packet(b: Seq<u8>) -> Option<PacketV> {
    if b.len() < 49 {
        None
    } else {
        let n = spec_u64_from_le_bytes(b.subrange(32, 40));
        let t = spec_u64_from_le_bytes(b.subrange(40, 48));
        let payload = b.skip(49);
        if n <= usize::MAX && t <= usize::MAX && all_ascii_bytes(payload) {
            Some(
                PacketV {
                    id: b.take(32),
                    n: n as int,
                    total_n: t as int,
                    bytes: bytes_chars(payload),
                    ret: b[48],
                },
            )
        } else {
            None
        }
    }
}

/// A packet survives the round trip through its wire bytes.
pub proof fn lemma_packet_roundtrip(p: PacketV)
    requires
        wf_packet(p),
    ensures
        dec_packet(enc_packet(p)) == Some(p),
{
    vstd::bytes::lemma_auto_spec_u64_to_from_le_bytes();
    let e = enc_packet(p);
    assert(e.subrange(32, 40) =~= enc_u64(p.n as u64));
    assert(e.subrange(40, 48) =~= enc_u64(p.total_n as u64));
    assert(e.take(32) =~= p.id);
    assert(e.skip(49) =~= chars_bytes(p.bytes));
    crate::wire::lemma_chars_bytes_roundtrip(p.bytes);
    assert(dec_packet(e) matches Some(q) && q == p);
}

impl Packet {
    /// The packet's wire bytes.
    pub fn as_bytes(&self) -> (r: Vec<u8>)
        requires
            is_ascii_chars(self@.bytes),
        ensures
            r@ == enc_packet(self@),
    {
        let mut out: Vec<u8> = Vec::new();
        push_bytes(&mut out, self.id.as_slice());
        push_u64(&mut out, self.n as u64);
        push_u64(&mut out, self.total_n as u64);
        push_byte(&mut out, self.ret);
        let st = self.bytes.as_str();
        proof {
            assert(vstd::string::is_ascii(st));
            vstd::string::is_ascii_spec_bytes(st);
        }
        let payload = st.as_bytes_vec();
        push_bytes(&mut out, payload.as_slice());
        proof {
            assert(payload@ =~= chars_bytes(self@.bytes));
            assert(out@ =~= enc_packet(self@));
        }
        out
    }

    /// Read a packet from wire bytes; `None` on anything malformed.
    pub fn from_bytes(v: &[u8]) -> (r: Option<Packet>)
        ensures
            match r {
                Some(p) => dec_packet(v@) == Some(p@),
                None => dec_packet(v@) is None,
            },
    {
        let n_total = v.len();
        if n_total < 49 {
            return None;
        }
        let id_vec = sub_vec(v, 0, 32);
        let n64 = read_u64(v, 32);
        let t64 = read_u64(v, 40);
        let ret = *vstd::slice::slice_index_get(v, 48);
        if n64 > usize::MAX as u64 || t64 > usize::MAX as u64 {
            return None;
        }
        let payload = sub_vec(v, 49, n_total);
        let ghost gpayload = payload@;
        match ascii_to_string(payload) {
            Some(s) => {
                let mut id: [u8; 32] = [0; 32];
                let mut i: usize = 0;
                while i < 32
                    invariant
                        i <= 32,
                        id_vec@.len() == 32,
                        id@.len() == 32,
                        forall|j: int| 0 <= j < i ==> id@[j] == id_vec@[j],
                    decreases 32 - i,
                {
                    id[i] = id_vec[i];
                    i += 1;
                }
                let p = Packet { id, n: n64 as usize, total_n: t64 as usize, bytes: s, ret };
                proof {
                    assert(id@ =~= v@.take(32));
                    assert(gpayload =~= v@.skip(49));
                    assert(v@.subrange(32, 40) =~= v@.subrange(32int, 32int + 8));
                    assert(v@.subrange(40, 48) =~= v@.subrange(40int, 40int + 8));
                    assert(dec_packet(v@) == Some(p@));
                }
                Some(p)
            },
            None => {
                proof {
                    assert(gpayload =~= v@.skip(49));
                }
                None
            },
        }
    }
}

/// Cut message bytes into wire packets: one packet when the message is
/// shorter than 32500 bytes, else contiguous 32500-byte slices with the last
/// possibly shorter. Every packet carries the shared id, its 1-based number,
/// the packet count, the hex rendering of its slice, and the given
/// return-receipt flag.
pub fn packetize(bytes: MessageData, id: InnerKey, ret: ReturnReceipt) -> (r: Packets)
    requires
        bytes@.len() + 32500 < usize::MAX,
    ensures
        r@.len() == slice_count(bytes@.len() as int),
        forall|i: int|
            0 <= i < r@.len() ==> {
                &&& (#[trigger] r@[i])@.id == id@
                &&& r@[i]@.n == i + 1
                &&& r@[i]@.total_n == r@.len()
                &&& r@[i]@.ret == ret
                &&& r@[i]@.bytes == hex_of(slice_at(bytes@, i))
                &&& wf_packet(r@[i]@)
            },
{
    let len = bytes.len();
    let total: usize = if len == 0 {
        1
    } else {
        (len - 1) / 32500 + 1
    };
    proof {
        assert(total == slice_count(bytes@.len() as int));
    }
    let mut out: Vec<Packet> = Vec::new();
    let mut i: usize = 0;
    while i < total
        invariant
            i <= total,
            total == slice_count(bytes@.len() as int),
            len == bytes@.len(),
            len + 32500 < usize::MAX,
            total * 32500 <= len + 32500,
            out@.len() == i,
            forall|j: int|
                0 <= j < i ==> {
                    &&& (#[trigger] out@[j])@.id == id@
                    &&& out@[j]@.n == j + 1
                    &&& out@[j]@.total_n == total
                    &&& out@[j]@.ret == ret
                    &&& out@[j]@.bytes == hex_of(slice_at(bytes@, j))
                    &&& wf_packet(out@[j]@)
                },
        decreases total - i,
    {
        proof {
            assert(i * 32500 + 32500 <= total * 32500) by (nonlinear_arith)
                requires
                    i < total,
            ;
        }
        let start = i * 32500;
        let end = if start + 32500 <= len {
            start + 32500
        } else {
            len
        };
        let slice = slice_subrange(bytes.as_slice(), start, end);
        let hex_string = hex_encode(slice);
        proof {
            assert(slice@ =~= slice_at(bytes@, i as int));
            lemma_hex_of_ascii(slice@);
        }
        out.push(Packet { id, n: i + 1, total_n: total, bytes: hex_string, ret });
        i += 1;
    }
    proof {
        if len == 0 {
            assert(total * 32500 <= len + 32500);
        } else {
            assert((len - 1) / 32500 * 32500 <= len - 1 && (len - 1) / 32500 >= 0)
                by (nonlinear_arith)
                requires
                    len >= 1,
            ;
            assert(total * 32500 == (len - 1) / 32500 * 32500 + 32500) by (nonlinear_arith)
                requires
                    total == (len - 1) / 32500 + 1,
            ;
        }
    }
    out
}

/// An acknowledgement of one packet: the stream id, the packet number, and
/// the acknowledging node's address bytes.
#[derive(Debug)]
pub struct AckMessage {
    pub packet_id: InnerKey,
    pub packet_number: usize,
    pub src: AddressBytes,
}

/// The mathematical content of an `AckMessage`.
pub ghost struct AckMessageV {
    pub packet_id: Seq<u8>,
    pub packet_number: int,
    pub src: Seq<u8>,
}

impl View for AckMessage {
    type V = AckMessageV;

    open spec fn view(&self) -> AckMessageV {
        AckMessageV {
            packet_id: self.packet_id@,
            packet_number: self.packet_number as int,
            src: self.src@,
        }
    }
}

impl Clone for AckMessage {
    fn clone(&self) -> (r: Self)
        ensures
            r@ == self@,
    {
        AckMessage {
            packet_id: self.packet_id,
            packet_number: self.packet_number,
            src: self.src.clone(),
        }
    }
}

/// The wire bytes of an acknowledgement: id, packet number, then the
/// acknowledging address bytes.
pub open spec fn enc_ack(a: AckMessageV) -> Seq<u8> {
    a.packet_id + enc_u64(a.packet_number as u64) + a.src
}

/// What wire bytes say as an acknowledgement.
pub open spec fn dec_ack(b: Seq<u8>) -> Option<AckMessageV> {
    if b.len() < 40 {
        None
    } else {
        let n = spec_u64_from_le_bytes(b.subrange(32, 40));
        if n <= usize::MAX {
            Some(AckMessageV { packet_id: b.take(32), packet_number: n as int, src: b.skip(40) })
        } else {
            None
        }
    }
}

/// An acknowledgement survives the round trip through its wire bytes.
pub proof fn lemma_ack_roundtrip(a: AckMessageV)
    requires
        a.packet_id.len() == 32,
        0 <= a.packet_number <= usize::MAX,
    ensures
        dec_ack(enc_ack(a)) == Some(a),
{
    vstd::bytes::lemma_auto_spec_u64_to_from_le_bytes();
    let e = enc_ack(a);
    assert(e.subrange(32, 40) =~= enc_u64(a.packet_number as u64));
    assert(e.take(32) =~= a.packet_id);
    assert(e.skip(40) =~= a.src);
    assert(dec_ack(e) matches Some(q) && q == a);
}

impl AckMessage {
    /// The acknowledgement's wire bytes.
    pub fn as_bytes(&self) -> (r: Vec<u8>)
        ensures
            r@ == enc_ack(self@),
    {
        let mut out: Vec<u8> = Vec::new();
        push_bytes(&mut out, self.packet_id.as_slice());
        push_u64(&mut out, self.packet_number as u64);
        push_bytes(&mut out, self.src.as_slice());
        proof {
            assert(out@ =~= enc_ack(self@));
        }
        out
    }

    /// Read an acknowledgement from wire bytes; `None` on anything malformed.
    pub fn from_bytes(v: &[u8]) -> (r: Option<AckMessage>)
        ensures
            match r {
                Some(a) => dec_ack(v@) == Some(a@),
                None => dec_ack(v@) is None,
            },
    {
        let n_total = v.len();
        if n_total < 40 {
            return None;
        }
        let n64 = read_u64(v, 32);
        if n64 > usize::MAX as u64 {
            return None;
        }
        let id_vec = sub_vec(v, 0, 32);
        let src = sub_vec(v, 40, n_total);
        let mut id: [u8; 32] = [0; 32];
        let mut i: usize = 0;
        while i < 32
            invariant
                i <= 32,
                id_vec@.len() == 32,
                id@.len() == 32,
                forall|j: int| 0 <= j < i ==> id@[j] == id_vec@[j],
            decreases 32 - i,
        {
            id[i] = id_vec[i];
            i += 1;
        }
        let a = AckMessage { packet_id: id, packet_number: n64 as usize, src };
        proof {
            assert(id@ =~= v@.take(32));
            assert(a@.src =~= v@.skip(40));
            assert(v@.subrange(32, 40) =~= v@.subrange(32int, 32int + 8));
            assert(dec_ack(v@) == Some(a@));
        }
        Some(a)
    }
}

/// The component a completed message is routed to.
#[derive(Clone, Copy, Debug, PartialEq, Eq, Structural)]
pub enum Header {
    Request,
    Response,
    Gossip,
    Ack,
}

/// The wire tag of a header.
pub open spec fn header_tag(h: Header) -> u8 {
    match h {
        Header::Request => 0,
        Header::Response => 1,
        Header::Gossip => 2,
        Header::Ack => 3,
    }
}

/// The header a wire tag names.
pub open spec fn header_of_tag(t: u8) -> Option<Header> {
    if t == 0 {
        Some(Header::Request)
    } else if t == 1 {
        Some(Header::Response)
    } else if t == 2 {
        Some(Header::Gossip)
    } else if t == 3 {
        Some(Header::Ack)
    } else {
        None
    }
}

/// A routed message: a header naming its component and the body bytes.
#[derive(Debug)]
pub struct Message {
    pub head: Header,
    pub msg: MessageData,
}

/// The mathematical content of a `Message`.
pub ghost struct MessageV {
    pub head: Header,
    pub msg: Seq<u8>,
}

impl View for Message {
    type V = MessageV;

    open spec fn view(&self) -> MessageV {
        MessageV { head: self.head, msg: self.msg@ }
    }
}

impl Clone for Message {
    fn clone(&self) -> (r: Self)
        ensures
            r@ == self@,
    {
        Message { head: self.head, msg: self.msg.clone() }
    }
}

/// The wire bytes of a message: the header tag, then the body.
pub open spec fn enc_message(m: MessageV) -> Seq<u8> {
    seq![header_tag(m.head)] + m.msg
}

/// What wire bytes say as a message.
pub open spec fn dec_message(b: Seq<u8>) -> Option<MessageV> {
    if b.len() < 1 {
        None
    } else {
        match header_of_tag(b[0]) {
            Some(h) => Some(MessageV { head: h, msg: b.skip(1) }),
            None => None,
        }
    }
}

/// A message survives the round trip through its wire bytes.
pub proof fn lemma_message_roundtrip(m: MessageV)
    ensures
        dec_message(enc_message(m)) == Some(m),
{
    let e = enc_message(m);
    assert(e.skip(1) =~= m.msg);
    assert(dec_message(e) matches Some(q) && q == m);
}

impl Message {
    /// The message's wire bytes.
    pub fn as_bytes(&self) -> (r: Vec<u8>)
        ensures
            r@ == enc_message(self@),
    {
        let tag: u8 = match self.head {
            Header::Request => 0,
            Header::Response => 1,
            Header::Gossip => 2,
            Header::Ack => 3,
        };
        let mut out: Vec<u8> = Vec::new();
        push_byte(&mut out, tag);
        push_bytes(&mut out, self.msg.as_slice());
        proof {
            assert(out@ =~= enc_message(self@));
        }
        out
    }

    /// Read a message from wire bytes; `None` on anything malformed.
    pub fn from_bytes(v: &[u8]) -> (r: Option<Message>)
        ensures
            match r {
                Some(m) => dec_message(v@) == Some(m@),
                None => dec_message(v@) is None,
            },
    {
        if v.len() < 1 {
            return None;
        }
        let tag = *vstd::slice::slice_index_get(v, 0);
        let head = if tag == 0 {
            Header::Request
        } else if tag == 1 {
            Header::Response
        } else if tag == 2 {
            Header::Gossip
        } else if tag == 3 {
            Header::Ack
        } else {
            return None;
        };
        let msg = sub_vec(v, 1, v.len());
        let m = Message { head, msg };
        proof {
            assert(m@.msg =~= v@.skip(1));
            assert(dec_message(v@) == Some(m@));
        }
        Some(m)
    }
}

/// A 256-bit message identifier.
#[derive(Clone, Copy, Debug)]
pub struct MessageKey(InnerKey);

impl View for MessageKey {
    type V = Seq<u8>;

    closed spec fn view(&self) -> Seq<u8> {
        self.0@
    }
}

impl MessageKey {
    /// Wrap 32 raw bytes as a message key.
    pub fn new(v: InnerKey) -> (r: Self)
        ensures
            r@ == v@,
    {
        MessageKey(v)
    }

    /// A message key of 32 random bytes.
    pub fn rand() -> (r: Self) {
        let mut out: [u8; 32] = [0; 32];
        let mut i: usize = 0;
        while i < 32
            decreases 32 - i,
        {
            out[i] = rand_byte();
            i += 1;
        }
        MessageKey(out)
    }

    /// A random message key whose first `idx` bits are zero and whose bit
    /// `idx` is one.
    pub fn rand_in_range(idx: usize) -> (r: Self)
        requires
            idx < 256,
        ensures
            forall|j: int| 0 <= j < idx ==> !crate::key::key_bit(r@, j),
            crate::key::key_bit(r@, idx as int),
    {
        let r = MessageKey::rand();
        MessageKey(mask_in_range(r.0, idx))
    }

    /// The raw 32 bytes.
    pub fn inner(&self) -> (r: InnerKey)
        ensures
            r@ == self@,
    {
        self.0
    }

    /// Wrap raw bytes back into a message key.
    pub fn from_inner(v: InnerKey) -> (r: MessageKey)
        ensures
            r@ == v@,
    {
        MessageKey(v)
    }
}

impl PartialEq for MessageKey {
    /// Two message keys are equal when their bytes agree.
    fn eq(&self, other: &MessageKey) -> (r: bool) {
        let mut i: usize = 0;
        while i < 32
            invariant
                i <= 32,
                forall|j: int| 0 <= j < i ==> self@[j] == other@[j],
            decreases 32 - i,
        {
            if self.0[i] != other.0[i] {
                return false;
            }
            i += 1;
        }
        proof {
            assert(self@ =~= other@);
        }
        true
    }
}

impl Eq for MessageKey {

}

impl vstd::std_specs::cmp::PartialEqSpecImpl for MessageKey {
    open spec fn obeys_eq_spec() -> bool {
        true
    }

    open spec fn eq_spec(&self, other: &MessageKey) -> bool {
        self@ == other@
    }
}

/// A message of the lookup protocol: a request, a response, or the order to
/// shut down.
#[derive(Debug)]
pub enum KadMessage {
    Request(RequestBytes),
    Response(ResponseBytes),
    Kill,
}

/// The mathematical content of a `KadMessage`.
pub ghost enum KadMessageV {
    Request(Seq<u8>),
    Response(Seq<u8>),
    Kill,
}

impl View for KadMessage {
    type V = KadMessageV;

    open spec fn view(&self) -> KadMessageV {
        match self {
            KadMessage::Request(b) => KadMessageV::Request(b@),
            KadMessage::Response(b) => KadMessageV::Response(b@),
            KadMessage::Kill => KadMessageV::Kill,
        }
    }
}

impl Clone for KadMessage {
    fn clone(&self) -> (r: Self)
        ensures
            r@ == self@,
    {
        match self {
            KadMessage::Request(b) => KadMessage::Request(b.clone()),
            KadMessage::Response(b) => KadMessage::Response(b.clone()),
            KadMessage::Kill => KadMessage::Kill,
        }
    }
}

/// The wire bytes of a lookup-protocol message: a variant tag, then the
/// carried bytes.
pub open spec fn enc_kad(m: KadMessageV) -> Seq<u8> {
    match m {
        KadMessageV::Request(b) => seq![0u8] + b,
        KadMessageV::Response(b) => seq![1u8] + b,
        KadMessageV::Kill => seq![2u8],
    }
}

/// What wire bytes say as a lookup-protocol message.
pub open spec fn dec_kad(b: Seq<u8>) -> Option<KadMessageV> {
    if b.len() < 1 {
        None
    } else if b[0] == 0 {
        Some(KadMessageV::Request(b.skip(1)))
    } else if b[0] == 1 {
        Some(KadMessageV::Response(b.skip(1)))
    } else if b[0] == 2 && b.len() == 1 {
        Some(KadMessageV::Kill)
    } else {
        None
    }
}

/// A lookup-protocol message survives the round trip through its wire bytes.
pub proof fn lemma_kad_roundtrip(m: KadMessageV)
    ensures
        dec_kad(enc_kad(m)) == Some(m),
{
    let e = enc_kad(m);
    match m {
        KadMessageV::Request(b) => {
            assert(e.skip(1) =~= b);
        },
        KadMessageV::Response(b) => {
            assert(e.skip(1) =~= b);
        },
        KadMessageV::Kill => {},
    }
}

impl KadMessage {
    /// The message's wire bytes.
    pub fn as_bytes(&self) -> (r: Vec<u8>)
        ensures
            r@ == enc_kad(self@),
    {
        let mut out: Vec<u8> = Vec::new();
        match self {
            KadMessage::Request(b) => {
                push_byte(&mut out, 0);
                push_bytes(&mut out, b.as_slice());
            },
            KadMessage::Response(b) => {
                push_byte(&mut out, 1);
                push_bytes(&mut out, b.as_slice());
            },
            KadMessage::Kill => {
                push_byte(&mut out, 2);
            },
        }
        proof {
            assert(out@ =~= enc_kad(self@));
        }
        out
    }

    /// Read a lookup-protocol message from wire bytes; `None` on anything
    /// malformed.
    pub fn from_bytes(v: &[u8]) -> (r: Option<KadMessage>)
        ensures
            match r {
                Some(m) => dec_kad(v@) == Some(m@),
                None => dec_kad(v@) is None,
            },
    {
        if v.len() < 1 {
            return None;
        }
        let tag = *vstd::slice::slice_index_get(v, 0);
        if tag == 0 {
            let b = sub_vec(v, 1, v.len());
            proof {
                assert(b@ =~= v@.skip(1));
            }
            Some(KadMessage::Request(b))
        } else if tag == 1 {
            let b = sub_vec(v, 1, v.len());
            proof {
                assert(b@ =~= v@.skip(1));
            }
            Some(KadMessage::Response(b))
        } else if tag == 2 && v.len() == 1 {
            Some(KadMessage::Kill)
        } else {
            None
        }
    }
}

} // verus!
