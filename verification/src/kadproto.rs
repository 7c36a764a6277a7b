use vstd::prelude::*;
use crate::wire::{enc_u64, enc_lp, push_byte, push_bytes, push_u64, push_lp, read_u64, sub_vec};
use vstd::bytes::spec_u64_from_le_bytes;

verus! {

/// The blob sequence a vector of byte vectors holds.
pub open spec fn blobs_view(l: Seq<Vec<u8>>) -> Seq<Seq<u8>> {
    Seq::new(l.len(), |i: int| l[i]@)
}

/// The wire bytes of a list of blobs: each blob length-prefixed, in order.
pub open spec fn enc_blob_list(l: Seq<Seq<u8>>) -> Seq<u8>
    decreases l.len(),
{
    if l.len() == 0 {
        Seq::empty()
    } else {
        enc_lp(l[0]) + enc_blob_list(l.drop_first())
    }
}

/// Appending a blob appends its length-prefixed bytes.
pub proof fn lemma_enc_blob_list_push(l: Seq<Seq<u8>>, x: Seq<u8>)
    ensures
        enc_blob_list(l.push(x)) == enc_blob_list(l) + enc_lp(x),
    decreases l.len(),
{
    if l.len() == 0 {
        assert(l.push(x)[0] == x);
        assert(l.push(x).drop_first() =~= Seq::<Seq<u8>>::empty());
        assert(enc_blob_list(Seq::<Seq<u8>>::empty()) =~= Seq::<u8>::empty());
        assert(enc_blob_list(l.push(x)) =~= enc_lp(x) + Seq::<u8>::empty());
        assert(enc_lp(x) + Seq::<u8>::empty() =~= enc_lp(x));
        assert(enc_blob_list(l) + enc_lp(x) =~= enc_lp(x));
    } else {
        assert(l.push(x).drop_first() =~= l.drop_first().push(x));
        lemma_enc_blob_list_push(l.drop_first(), x);
        assert(enc_blob_list(l.push(x)) =~= enc_blob_list(l) + enc_lp(x));
    }
}

/// What wire bytes say as a list of exactly `count` blobs covering the bytes
/// exactly.
pub open spec fn dec_blob_list(b: Seq<u8>, count: int) -> Option<Seq<Seq<u8>>>
    decreases count,
{
    if count <= 0 {
        if b.len() == 0 && count == 0 {
            Some(Seq::empty())
        } else {
            None
        }
    } else if b.len() < 8 {
        None
    } else {
        let l = spec_u64_from_le_bytes(b.take(8)) as int;
        if 8 + l > b.len() {
            None
        } else {
            match dec_blob_list(b.skip(8 + l), count - 1) {
                Some(rest) => Some(seq![b.subrange(8, 8 + l)] + rest),
                None => None,
            }
        }
    }
}

/// Every blob list whose members fit their length prefix survives the round
/// trip through its wire bytes.
pub proof fn lemma_blob_list_roundtrip(l: Seq<Seq<u8>>)
    requires
        forall|i: int| 0 <= i < l.len() ==> (#[trigger] l[i]).len() <= u64::MAX,
    ensures
        dec_blob_list(enc_blob_list(l), l.len() as int) == Some(l),
    decreases l.len(),
{
    vstd::bytes::lemma_auto_spec_u64_to_from_le_bytes();
    if l.len() == 0 {
        assert(enc_blob_list(l).len() == 0);
    } else {
        let e = enc_blob_list(l);
        let l0 = l[0].len() as int;
        assert(e =~= enc_lp(l[0]) + enc_blob_list(l.drop_first()));
        assert(e.take(8) =~= enc_u64(l[0].len() as u64));
        assert(spec_u64_from_le_bytes(e.take(8)) == l[0].len() as u64);
        assert(e.subrange(8, 8 + l0) =~= l[0]);
        assert(e.skip(8 + l0) =~= enc_blob_list(l.drop_first()));
        lemma_blob_list_roundtrip(l.drop_first());
        assert(seq![l[0]] + l.drop_first() =~= l);
    }
}

/// The remote procedure calls of the lookup protocol. Peers, values, and
/// keys travel as wire bytes inside the variants.
#[derive(Debug)]
pub enum RPC {
    Ping,
    NewPeer(Vec<u8>),
    Store([u8; 32], Vec<u8>),
    FindNode(Vec<u8>),
    FindValue(Vec<u8>),
    Nodes(Vec<Vec<u8>>),
    Value(Vec<u8>),
    Saved([u8; 32]),
    Pong(Vec<u8>),
}

/// The mathematical content of an `RPC`.
pub ghost enum RPCV {
    Ping,
    NewPeer(Seq<u8>),
    Store(Seq<u8>, Seq<u8>),
    FindNode(Seq<u8>),
    FindValue(Seq<u8>),
    Nodes(Seq<Seq<u8>>),
    Value(Seq<u8>),
    Saved(Seq<u8>),
    Pong(Seq<u8>),
}

impl View for RPC {
    type V = RPCV;

    open spec fn view(&self) -> RPCV {
        match self {
            RPC::Ping => RPCV::Ping,
            RPC::NewPeer(b) => RPCV::NewPeer(b@),
            RPC::Store(k, v) => RPCV::Store(k@, v@),
            RPC::FindNode(b) => RPCV::FindNode(b@),
            RPC::FindValue(b) => RPCV::FindValue(b@),
            RPC::Nodes(l) => RPCV::Nodes(blobs_view(l@)),
            RPC::Value(b) => RPCV::Value(b@),
            RPC::Saved(k) => RPCV::Saved(k@),
            RPC::Pong(b) => RPCV::Pong(b@),
        }
    }
}

impl Clone for RPC {
    fn clone(&self) -> (r: Self)
        ensures
            r@ == self@,
    {
        match self {
            RPC::Ping => RPC::Ping,
            RPC::NewPeer(b) => RPC::NewPeer(b.clone()),
            RPC::Store(k, v) => RPC::Store(*k, v.clone()),
            RPC::FindNode(b) => RPC::FindNode(b.clone()),
            RPC::FindValue(b) => RPC::FindValue(b.clone()),
            RPC::Nodes(l) => {
                let mut out: Vec<Vec<u8>> = Vec::new();
                let mut i: usize = 0;
                while i < l.len()
                    invariant
                        i <= l@.len(),
                        out@.len() == i,
                        forall|j: int| 0 <= j < i ==> out@[j]@ == l@[j]@,
                    decreases l@.len() - i,
                {
                    out.push(l[i].clone());
                    i += 1;
                }
                proof {
                    assert(blobs_view(out@) =~= blobs_view(l@));
                }
                RPC::Nodes(out)
            },
            RPC::Value(b) => RPC::Value(b.clone()),
            RPC::Saved(k) => RPC::Saved(*k),
            RPC::Pong(b) => RPC::Pong(b.clone()),
        }
    }
}

/// An RPC whose fields fit their wire lengths.
pub open spec fn wf_rpc(r: RPCV) -> bool {
    match r {
        RPCV::Store(k, _) => k.len() == 32,
        RPCV::Saved(k) => k.len() == 32,
        RPCV::Nodes(l) => l.len() <= u64::MAX && forall|i: int|
            0 <= i < l.len() ==> (#[trigger] l[i]).len() <= u64::MAX,
        _ => true,
    }
}

/// The wire bytes of an RPC: a variant tag, then the carried data.
pub open spec fn enc_rpc(r: RPCV) -> Seq<u8> {
    match r {
        RPCV::Ping => seq![0u8],
        RPCV::NewPeer(b) => seq![1u8] + b,
        RPCV::Store(k, v) => seq![2u8] + k + v,
        RPCV::FindNode(b) => seq![3u8] + b,
        RPCV::FindValue(b) => seq![4u8] + b,
        RPCV::Nodes(l) => seq![5u8] + enc_u64(l.len() as u64) + enc_blob_list(l),
        RPCV::Value(b) => seq![6u8] + b,
        RPCV::Saved(k) => seq![7u8] + k,
        RPCV::Pong(b) => seq![8u8] + b,
    }
}

/// What wire bytes say as an RPC.
pub open spec fn dec_rpc(b: Seq<u8>) -> Option<RPCV> {
    if b.len() < 1 {
        None
    } else if b[0] == 0 {
        if b.len() == 1 {
            Some(RPCV::Ping)
        } else {
            None
        }
    } else if b[0] == 1 {
        Some(RPCV::NewPeer(b.skip(1)))
    } else if b[0] == 2 {
        if b.len() >= 33 {
            Some(RPCV::Store(b.subrange(1, 33), b.skip(33)))
        } else {
            None
        }
    } else if b[0] == 3 {
        Some(RPCV::FindNode(b.skip(1)))
    } else if b[0] == 4 {
        Some(RPCV::FindValue(b.skip(1)))
    } else if b[0] == 5 {
        if b.len() < 9 {
            None
        } else {
            let count = spec_u64_from_le_bytes(b.subrange(1, 9));
            if count <= usize::MAX {
                match dec_blob_list(b.skip(9), count as int) {
                    Some(l) => Some(RPCV::Nodes(l)),
                    None => None,
                }
            } else {
                None
            }
        }
    } else if b[0] == 6 {
        Some(RPCV::Value(b.skip(1)))
    } else if b[0] == 7 {
        if b.len() == 33 {
            Some(RPCV::Saved(b.skip(1)))
        } else {
            None
        }
    } else if b[0] == 8 {
        Some(RPCV::Pong(b.skip(1)))
    } else {
        None
    }
}

/// An RPC survives the round trip through its wire bytes.
pub proof fn lemma_rpc_roundtrip(r: RPCV)
    requires
        wf_rpc(r),
        (match r {
            RPCV::Nodes(l) => l.len() <= usize::MAX,
            _ => true,
        }),
    ensures
        dec_rpc(enc_rpc(r)) == Some(r),
{
    vstd::bytes::lemma_auto_spec_u64_to_from_le_bytes();
    let e = enc_rpc(r);
    match r {
        RPCV::Ping => {},
        RPCV::NewPeer(b) => {
            assert(e.skip(1) =~= b);
        },
        RPCV::Store(k, v) => {
            assert(e.subrange(1, 33) =~= k);
            assert(e.skip(33) =~= v);
        },
        RPCV::FindNode(b) => {
            assert(e.skip(1) =~= b);
        },
        RPCV::FindValue(b) => {
            assert(e.skip(1) =~= b);
        },
        RPCV::Nodes(l) => {
            assert(e.subrange(1, 9) =~= enc_u64(l.len() as u64));
            assert(e.skip(9) =~= enc_blob_list(l));
            lemma_blob_list_roundtrip(l);
        },
        RPCV::Value(b) => {
            assert(e.skip(1) =~= b);
        },
        RPCV::Saved(k) => {
            assert(e.skip(1) =~= k);
        },
        RPCV::Pong(b) => {
            assert(e.skip(1) =~= b);
        },
    }
}

impl RPC {
    /// The RPC's wire bytes.
    pub fn as_bytes(&self) -> (r: Vec<u8>)
        requires
            wf_rpc(self@),
        ensures
            r@ == enc_rpc(self@),
    {
        let mut out: Vec<u8> = Vec::new();
        match self {
            RPC::Ping => {
                push_byte(&mut out, 0);
            },
            RPC::NewPeer(b) => {
                push_byte(&mut out, 1);
                push_bytes(&mut out, b.as_slice());
            },
            RPC::Store(k, v) => {
                push_byte(&mut out, 2);
                push_bytes(&mut out, k.as_slice());
                push_bytes(&mut out, v.as_slice());
            },
            RPC::FindNode(b) => {
                push_byte(&mut out, 3);
                push_bytes(&mut out, b.as_slice());
            },
            RPC::FindValue(b) => {
                push_byte(&mut out, 4);
                push_bytes(&mut out, b.as_slice());
            },
            RPC::Nodes(l) => {
                push_byte(&mut out, 5);
                push_u64(&mut out, l.len() as u64);
                let mut i: usize = 0;
                while i < l.len()
                    invariant
                        i <= l@.len(),
                        out@ == seq![5u8] + enc_u64(l@.len() as u64) + enc_blob_list(
                            blobs_view(l@).take(i as int),
                        ),
                    decreases l@.len() - i,
                {
                    push_lp(&mut out, l[i].as_slice());
                    proof {
                        lemma_enc_blob_list_push(blobs_view(l@).take(i as int), l@[i as int]@);
                        assert(blobs_view(l@).take(i as int).push(l@[i as int]@) =~= blobs_view(
                            l@,
                        ).take(i + 1));
                        assert(out@ =~= seq![5u8] + enc_u64(l@.len() as u64) + enc_blob_list(
                            blobs_view(l@).take(i + 1),
                        ));
                    }
                    i += 1;
                }
                proof {
                    assert(blobs_view(l@).take(l@.len() as int) =~= blobs_view(l@));
                }
            },
            RPC::Value(b) => {
                push_byte(&mut out, 6);
                push_bytes(&mut out, b.as_slice());
            },
            RPC::Saved(k) => {
                push_byte(&mut out, 7);
                push_bytes(&mut out, k.as_slice());
            },
            RPC::Pong(b) => {
                push_byte(&mut out, 8);
                push_bytes(&mut out, b.as_slice());
            },
        }
        proof {
            assert(out@ =~= enc_rpc(self@));
        }
        out
    }

    /// Read an RPC from wire bytes; `None` on anything malformed.
    pub fn from_bytes(v: &[u8]) -> (r: Option<RPC>)
        ensures
            match r {
                Some(x) => dec_rpc(v@) == Some(x@),
                None => dec_rpc(v@) is None,
            },
    {
        let n_total = v.len();
        if n_total < 1 {
            return None;
        }
        let tag = *vstd::slice::slice_index_get(v, 0);
        if tag == 0 {
            if n_total == 1 {
                Some(RPC::Ping)
            } else {
                None
            }
        } else if tag == 1 {
            let b = sub_vec(v, 1, n_total);
            proof {
                assert(b@ =~= v@.skip(1));
            }
            Some(RPC::NewPeer(b))
        } else if tag == 2 {
            if n_total < 33 {
                return None;
            }
            let k = read_key32(v, 1);
            let b = sub_vec(v, 33, n_total);
            proof {
                assert(b@ =~= v@.skip(33));
            }
            Some(RPC::Store(k, b))
        } else if tag == 3 {
            let b = sub_vec(v, 1, n_total);
            proof {
                assert(b@ =~= v@.skip(1));
            }
            Some(RPC::FindNode(b))
        } else if tag == 4 {
            let b = sub_vec(v, 1, n_total);
            proof {
                assert(b@ =~= v@.skip(1));
            }
            Some(RPC::FindValue(b))
        } else if tag == 5 {
            if n_total < 9 {
                return None;
            }
            let count64 = read_u64(v, 1);
            proof {
                assert(v@.subrange(1, 9) =~= v@.subrange(1int, 1int + 8));
            }
            if count64 > usize::MAX as u64 {
                return None;
            }
            let count = count64 as usize;
            match read_blob_list(v, 9, count) {
                Some(l) => Some(RPC::Nodes(l)),
                None => None,
            }
        } else if tag == 6 {
            let b = sub_vec(v, 1, n_total);
            proof {
                assert(b@ =~= v@.skip(1));
            }
            Some(RPC::Value(b))
        } else if tag == 7 {
            if n_total != 33 {
                return None;
            }
            let k = read_key32(v, 1);
            proof {
                assert(k@ =~= v@.skip(1));
            }
            Some(RPC::Saved(k))
        } else if tag == 8 {
            let b = sub_vec(v, 1, n_total);
            proof {
                assert(b@ =~= v@.skip(1));
            }
            Some(RPC::Pong(b))
        } else {
            None
        }
    }
}

/// Copy the 32 bytes at `pos` into a key array.
pub(crate) fn read_key32(v: &[u8], pos: usize) -> (r: [u8; 32])
    requires
        pos + 32 <= v@.len(),
    ensures
        r@ == v@.subrange(pos as int, pos as int + 32),
{
    let _n: usize = v.len();
    let mut out: [u8; 32] = [0; 32];
    let mut i: usize = 0;
    while i < 32
        invariant
            i <= 32,
            pos + 32 <= v@.len(),
            v@.len() <= usize::MAX,
            out@.len() == 32,
            forall|j: int| 0 <= j < i ==> out@[j] == v@[pos + j],
        decreases 32 - i,
    {
        out[i] = *vstd::slice::slice_index_get(v, pos + i);
        i += 1;
    }
    proof {
        assert(out@ =~= v@.subrange(pos as int, pos as int + 32));
    }
    out
}

/// Read `count` length-prefixed blobs starting at `pos`, which must cover
/// the rest of the bytes exactly.
fn read_blob_list(v: &[u8], pos: usize, count: usize) -> (r: Option<Vec<Vec<u8>>>)
    requires
        pos <= v@.len(),
    ensures
        match r {
            Some(l) => dec_blob_list(v@.skip(pos as int), count as int) == Some(blobs_view(l@)),
            None => dec_blob_list(v@.skip(pos as int), count as int) is None,
        },
{
    let n_total = v.len();
    let mut out: Vec<Vec<u8>> = Vec::new();
    let mut p: usize = pos;
    let mut k: usize = 0;
    while k < count
        invariant
            pos <= p <= v@.len(),
            k <= count,
            out@.len() == k,
            dec_blob_list(v@.skip(pos as int), count as int) == (match dec_blob_list(
                v@.skip(p as int),
                count - k,
            ) {
                Some(rest) => Some(blobs_view(out@) + rest),
                None => None::<Seq<Seq<u8>>>,
            }),
            n_total == v@.len(),
        decreases count - k,
    {
        if n_total - p < 8 {
            return None;
        }
        let l64 = read_u64(v, p);
        proof {
            assert(v@.skip(p as int).take(8) =~= v@.subrange(p as int, p as int + 8));
        }
        if l64 > (n_total - p - 8) as u64 {
            proof {
                assert(8 + l64 as int > v@.skip(p as int).len());
            }
            return None;
        }
        let l = l64 as usize;
        let item = sub_vec(v, p + 8, p + 8 + l);
        let ghost old_out = out@;
        let ghost old_p = p as int;
        out.push(item);
        proof {
            assert(v@.skip(old_p).subrange(8, 8 + l as int) =~= v@.subrange(
                old_p + 8,
                old_p + 8 + l as int,
            ));
            assert(v@.skip(old_p).skip(8 + l as int) =~= v@.skip(old_p + 8 + l as int));
            assert(blobs_view(out@) =~= blobs_view(old_out).push(item@));
        }
        p = p + 8 + l;
        k = k + 1;
        proof {
            assert forall|rest: Seq<Seq<u8>>|
                blobs_view(old_out) + (seq![item@] + rest) =~= blobs_view(out@) + rest by {}
        }
    }
    if p != n_total {
        return None;
    }
    proof {
        assert(v@.skip(p as int).len() == 0);
        assert(dec_blob_list(v@.skip(p as int), 0) == Some(Seq::<Seq<u8>>::empty()));
        assert(blobs_view(out@) + Seq::<Seq<u8>>::empty() =~= blobs_view(out@));
    }
    Some(out)
}

/// A request envelope: the message id, the sender's wire bytes, and the
/// carried RPC's wire bytes.
#[derive(Debug)]
pub struct Req {
    pub id: [u8; 32],
    pub sender: Vec<u8>,
    pub payload: Vec<u8>,
}

/// The mathematical content of a `Req`.
pub ghost struct ReqV {
    pub id: Seq<u8>,
    pub sender: Seq<u8>,
    pub payload: Seq<u8>,
}

impl View for Req {
    type V = ReqV;

    open spec fn view(&self) -> ReqV {
        ReqV { id: self.id@, sender: self.sender@, payload: self.payload@ }
    }
}

impl Clone for Req {
    fn clone(&self) -> (r: Self)
        ensures
            r@ == self@,
    {
        Req { id: self.id, sender: self.sender.clone(), payload: self.payload.clone() }
    }
}

/// The wire bytes of a request envelope.
pub open spec fn enc_req(r: ReqV) -> Seq<u8> {
    r.id + enc_lp(r.sender) + r.payload
}

/// What wire bytes say as a request envelope.
pub open spec fn dec_req(b: Seq<u8>) -> Option<ReqV> {
    if b.len() < 40 {
        None
    } else {
        let l = spec_u64_from_le_bytes(b.subrange(32, 40)) as int;
        if 40 + l > b.len() {
            None
        } else {
            Some(ReqV { id: b.take(32), sender: b.subrange(40, 40 + l), payload: b.skip(40 + l) })
        }
    }
}

/// A request envelope survives the round trip through its wire bytes.
pub proof fn lemma_req_roundtrip(r: ReqV)
    requires
        r.id.len() == 32,
        r.sender.len() <= u64::MAX,
    ensures
        dec_req(enc_req(r)) == Some(r),
{
    vstd::bytes::lemma_auto_spec_u64_to_from_le_bytes();
    let e = enc_req(r);
    let l = r.sender.len() as int;
    assert(e.subrange(32, 40) =~= enc_u64(r.sender.len() as u64));
    assert(e.take(32) =~= r.id);
    assert(e.subrange(40, 40 + l) =~= r.sender);
    assert(e.skip(40 + l) =~= r.payload);
    assert(dec_req(e) matches Some(q) && q == r);
}

impl Req {
    /// The request envelope's wire bytes.
    pub fn as_bytes(&self) -> (r: Vec<u8>)
        ensures
            r@ == enc_req(self@),
    {
        let mut out: Vec<u8> = Vec::new();
        push_bytes(&mut out, self.id.as_slice());
        push_lp(&mut out, self.sender.as_slice());
        push_bytes(&mut out, self.payload.as_slice());
        proof {
            assert(out@ =~= enc_req(self@));
        }
        out
    }

    /// Read a request envelope from wire bytes; `None` on anything malformed.
    pub fn from_bytes(v: &[u8]) -> (r: Option<Req>)
        ensures
            match r {
                Some(x) => dec_req(v@) == Some(x@),
                None => dec_req(v@) is None,
            },
    {
        let n_total = v.len();
        if n_total < 40 {
            return None;
        }
        let l64 = read_u64(v, 32);
        proof {
            assert(v@.subrange(32, 40) =~= v@.subrange(32int, 32int + 8));
        }
        if l64 > (n_total - 40) as u64 {
            return None;
        }
        let l = l64 as usize;
        let id = read_key32(v, 0);
        let sender = sub_vec(v, 40, 40 + l);
        let payload = sub_vec(v, 40 + l, n_total);
        let x = Req { id, sender, payload };
        proof {
            assert(id@ =~= v@.take(32));
            assert(payload@ =~= v@.skip(40 + l as int));
            assert(dec_req(v@) == Some(x@));
        }
        Some(x)
    }
}

/// A response envelope: the echoed request's wire bytes, the receiver's wire
/// bytes, and the carried RPC's wire bytes.
#[derive(Debug)]
pub struct Resp {
    pub request: Vec<u8>,
    pub receiver: Vec<u8>,
    pub payload: Vec<u8>,
}

/// The mathematical content of a `Resp`.
pub ghost struct RespV {
    pub request: Seq<u8>,
    pub receiver: Seq<u8>,
    pub payload: Seq<u8>,
}

impl View for Resp {
    type V = RespV;

    open spec fn view(&self) -> RespV {
        RespV { request: self.request@, receiver: self.receiver@, payload: self.payload@ }
    }
}

impl Clone for Resp {
    fn clone(&self) -> (r: Self)
        ensures
            r@ == self@,
    {
        Resp {
            request: self.request.clone(),
            receiver: self.receiver.clone(),
            payload: self.payload.clone(),
        }
    }
}

/// The wire bytes of a response envelope.
pub open spec fn enc_resp(r: RespV) -> Seq<u8> {
    enc_lp(r.request) + enc_lp(r.receiver) + r.payload
}

/// What wire bytes say as a response envelope.
pub open spec fn dec_resp(b: Seq<u8>) -> Option<RespV> {
    if b.len() < 8 {
        None
    } else {
        let l1 = spec_u64_from_le_bytes(b.take(8)) as int;
        if 8 + l1 + 8 > b.len() {
            None
        } else {
            let l2 = spec_u64_from_le_bytes(b.subrange(8 + l1, 8 + l1 + 8)) as int;
            if 8 + l1 + 8 + l2 > b.len() {
                None
            } else {
                Some(
                    RespV {
                        request: b.subrange(8, 8 + l1),
                        receiver: b.subrange(8 + l1 + 8, 8 + l1 + 8 + l2),
                        payload: b.skip(8 + l1 + 8 + l2),
                    },
                )
            }
        }
    }
}

/// A response envelope survives the round trip through its wire bytes.
pub proof fn lemma_resp_roundtrip(r: RespV)
    requires
        r.request.len() <= u64::MAX,
        r.receiver.len() <= u64::MAX,
    ensures
        dec_resp(enc_resp(r)) == Some(r),
{
    vstd::bytes::lemma_auto_spec_u64_to_from_le_bytes();
    let e = enc_resp(r);
    let l1 = r.request.len() as int;
    let l2 = r.receiver.len() as int;
    assert(e.take(8) =~= enc_u64(r.request.len() as u64));
    assert(e.subrange(8, 8 + l1) =~= r.request);
    assert(e.subrange(8 + l1, 8 + l1 + 8) =~= enc_u64(r.receiver.len() as u64));
    assert(e.subrange(8 + l1 + 8, 8 + l1 + 8 + l2) =~= r.receiver);
    assert(e.skip(8 + l1 + 8 + l2) =~= r.payload);
    assert(dec_resp(e) matches Some(q) && q == r);
}

impl Resp {
    /// The response envelope's wire bytes.
    pub fn as_bytes(&self) -> (r: Vec<u8>)
        ensures
            r@ == enc_resp(self@),
    {
        let mut out: Vec<u8> = Vec::new();
        push_lp(&mut out, self.request.as_slice());
        push_lp(&mut out, self.receiver.as_slice());
        push_bytes(&mut out, self.payload.as_slice());
        proof {
            assert(out@ =~= enc_resp(self@));
        }
        out
    }

    /// Read a response envelope from wire bytes; `None` on anything
    /// malformed.
    pub fn from_bytes(v: &[u8]) -> (r: Option<Resp>)
        ensures
            match r {
                Some(x) => dec_resp(v@) == Some(x@),
                None => dec_resp(v@) is None,
            },
    {
        let n_total = v.len();
        if n_total < 8 {
            return None;
        }
        let l1_64 = read_u64(v, 0);
        proof {
            assert(v@.take(8) =~= v@.subrange(0int, 0int + 8));
        }
        if l1_64 > (n_total - 8) as u64 {
            return None;
        }
        let l1 = l1_64 as usize;
        if n_total - 8 - l1 < 8 {
            return None;
        }
        let l2_64 = read_u64(v, 8 + l1);
        proof {
            assert(v@.subrange(8 + l1 as int, 8 + l1 as int + 8) =~= v@.subrange(
                (8 + l1) as int,
                (8 + l1) as int + 8,
            ));
        }
        if l2_64 > (n_total - 8 - l1 - 8) as u64 {
            return None;
        }
        let l2 = l2_64 as usize;
        let request = sub_vec(v, 8, 8 + l1);
        let receiver = sub_vec(v, 8 + l1 + 8, 8 + l1 + 8 + l2);
        let payload = sub_vec(v, 8 + l1 + 8 + l2, n_total);
        let x = Resp { request, receiver, payload };
        proof {
            assert(payload@ =~= v@.skip(8 + l1 as int + 8 + l2 as int));
            assert(dec_resp(v@) == Some(x@));
        }
        Some(x)
    }
}

impl Req {
    /// The request's parts decoded: its key, its sender, and its RPC.
    /// `None` when the sender or the payload does not decode.
    pub fn to_components(&self) -> (r: Option<(crate::protocol::MessageKey, crate::peer::PeerInfo, RPC)>)
        ensures
            match r {
                Some(c) => {
                    &&& c.0@ == self@.id
                    &&& Some(c.1@) == crate::peer::dec_peer_info(self@.sender)
                    &&& Some(c.2@) == dec_rpc(self@.payload)
                },
                None => crate::peer::dec_peer_info(self@.sender) is None || dec_rpc(
                    self@.payload,
                ) is None,
            },
    {
        let sender = crate::peer::PeerInfo::from_bytes(self.sender.as_slice());
        let rpc = RPC::from_bytes(self.payload.as_slice());
        match (sender, rpc) {
            (Some(sender), Some(rpc)) => Some(
                (crate::protocol::MessageKey::from_inner(self.id), sender, rpc),
            ),
            _ => None,
        }
    }
}

impl Resp {
    /// The response's parts decoded: the echoed request, the receiver, and
    /// the RPC. `None` when any part does not decode.
    pub fn to_components(&self) -> (r: Option<(Req, crate::peer::PeerInfo, RPC)>)
        ensures
            match r {
                Some(c) => {
                    &&& Some(c.0@) == dec_req(self@.request)
                    &&& Some(c.1@) == crate::peer::dec_peer_info(self@.receiver)
                    &&& Some(c.2@) == dec_rpc(self@.payload)
                },
                None => dec_req(self@.request) is None || crate::peer::dec_peer_info(
                    self@.receiver,
                ) is None || dec_rpc(self@.payload) is None,
            },
    {
        let req = Req::from_bytes(self.request.as_slice());
        let receiver = crate::peer::PeerInfo::from_bytes(self.receiver.as_slice());
        let rpc = RPC::from_bytes(self.payload.as_slice());
        match (req, receiver, rpc) {
            (Some(req), Some(receiver), Some(rpc)) => Some((req, receiver, rpc)),
            _ => None,
        }
    }
}

/// A forwarding record for a request answered by several peers.
#[derive(Debug)]
pub struct Fwd {
    pub request: Vec<u8>,
    pub n_fwd: usize,
    pub n_resp: usize,
    pub timeout: u128,
    pub resps: Vec<Resp>,
    pub discovered: Vec<crate::peer::PeerInfo>,
}

/// Marker for the values a node may send as a request.
pub trait Request {

}

/// Marker for the values a node may send as a response.
pub trait Response {

}

impl Request for Req {

}

impl Request for RPC {

}

impl Request for crate::protocol::KadMessage {

}

impl Response for Resp {

}

impl Response for RPC {

}

impl Response for crate::protocol::KadMessage {

}

} // verus!
