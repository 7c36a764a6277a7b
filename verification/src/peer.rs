use vstd::prelude::*;
use crate::addr::NetAddr;
use crate::key::{Key, lex_le, spec_xor};

verus! {

/// What the sha256 crate returns for a given byte string: a function of the
/// bytes alone, the same in every process.
pub uninterp spec fn sha256_hex_of(bytes: Seq<u8>) -> Seq<char>;

/// True of the characters the sha256 crate's hex digests are made of.
pub open spec fn is_hex_char(c: char) -> bool {
    ('0' <= c && c <= '9') || ('a' <= c && c <= 'f')
}

/// Relies on sha256::digest: the lowercase hex digest of the SHA-256 hash of
/// the input, 64 hex characters, a function of the input bytes alone.
#[verifier::external_body]
fn sha256_digest(b: &[u8]) -> (r: String)
    ensures
        r@ == sha256_hex_of(b@),
        r@.len() == 64,
        forall|i: int| 0 <= i < 64 ==> is_hex_char(#[trigger] r@[i]),
{
    sha256::digest(b)
}

/// A peer identity: the hex SHA-256 digest of the peer's key.
#[derive(Debug, Hash)]
pub struct PeerId(String);

impl View for PeerId {
    type V = Seq<char>;

    closed spec fn view(&self) -> Seq<char> {
        self.0@
    }
}

impl PeerId {
    /// The digest string itself.
    pub fn get_id(&self) -> (r: String)
        ensures
            r@ == self@,
    {
        self.0.clone()
    }

    /// The identity of a freshly drawn random key.
    pub fn rand() -> (r: Self)
        ensures
            r@.len() == 64,
    {
        let key = Key::rand();
        PeerId::from_key(&key)
    }

    /// The identity of a random key in the XOR-distance band at depth `idx`.
    pub fn rand_in_range(idx: usize) -> (r: Self)
        requires
            idx < 256,
        ensures
            r@.len() == 64,
    {
        let key = Key::rand_in_range(idx);
        PeerId::from_key(&key)
    }

    /// The identity derived from a key: the hex digest of its bytes.
    pub fn from_key(key: &Key) -> (r: Self)
        ensures
            r@ == sha256_hex_of(key@),
            r@.len() == 64,
            forall|i: int| 0 <= i < 64 ==> is_hex_char(#[trigger] r@[i]),
    {
        let bytes = key.get_key();
        let key_hash = sha256_digest(bytes.as_slice());
        PeerId(key_hash)
    }

    /// The identity's characters as bytes; meaningful for the ASCII digests
    /// that identities are made of.
    pub fn as_bytes(&self) -> (r: Vec<u8>)
        requires
            vstd::utf8::is_ascii_chars(self@),
        ensures
            r@ == Seq::new(self@.len(), |i: int| self@[i] as u8),
    {
        let st = self.0.as_str();
        proof {
            assert(vstd::string::is_ascii(st));
            vstd::string::is_ascii_spec_bytes(st);
        }
        let r = st.as_bytes_vec();
        proof {
            assert(r@ =~= Seq::new(self@.len(), |i: int| self@[i] as u8));
        }
        r
    }

    /// Wrap a digest string as an identity.
    pub fn from_str(value: String) -> (r: Self)
        ensures
            r@ == value@,
    {
        PeerId(value)
    }
}

impl Clone for PeerId {
    fn clone(&self) -> (r: Self)
        ensures
            r == *self,
    {
        PeerId(self.0.clone())
    }
}

impl PartialEq for PeerId {
    /// Two identities are equal when their digest strings agree.
    fn eq(&self, other: &PeerId) -> (r: bool) {
        self.0.eq(&other.0)
    }
}

impl Eq for PeerId {

}

impl vstd::std_specs::cmp::PartialEqSpecImpl for PeerId {
    open spec fn obeys_eq_spec() -> bool {
        true
    }

    open spec fn eq_spec(&self, other: &PeerId) -> bool {
        self@ == other@
    }
}

/// The mathematical content of a `PeerInfo`.
pub ghost struct PeerInfoV {
    pub id: Seq<char>,
    pub key: Seq<u8>,
    pub address: NetAddr,
}

/// A peer as the routing layer sees it: identity, key, and address.
#[derive(Debug)]
pub struct PeerInfo {
    pub id: PeerId,
    pub key: Key,
    pub address: NetAddr,
}

impl View for PeerInfo {
    type V = PeerInfoV;

    open spec fn view(&self) -> PeerInfoV {
        PeerInfoV { id: self.id@, key: self.key@, address: self.address }
    }
}

impl PeerInfo {
    pub fn new(id: PeerId, key: Key, address: NetAddr) -> (r: Self)
        ensures
            r@.id == id@,
            r@.key == key@,
            r@.address == address,
    {
        PeerInfo { id, key, address }
    }

    pub fn get_key(&self) -> (r: Key)
        ensures
            r@ == self@.key,
    {
        self.key
    }

    pub fn get_id(&self) -> (r: PeerId)
        ensures
            r@ == self@.id,
    {
        self.id.clone()
    }

    pub fn get_address(&self) -> (r: NetAddr)
        ensures
            r == self@.address,
    {
        self.address
    }

    /// The XOR distance from this peer's key to `other`.
    pub fn xor(&self, other: Key) -> (r: Key)
        ensures
            r@ == spec_xor(self@.key, other@),
    {
        self.key.xor(other)
    }

    /// The number of leading zero bits of this peer's key.
    pub fn leading_zeros(&self) -> (r: usize)
        ensures
            r <= 256,
            forall|j: int| 0 <= j < r ==> !crate::key::key_bit(self@.key, j),
            r < 256 ==> crate::key::key_bit(self@.key, r as int),
    {
        self.key.leading_zeros()
    }
}

/// A peer whose fields fit on the wire.
pub open spec fn wf_peer_info(p: PeerInfoV) -> bool {
    &&& vstd::utf8::is_ascii_chars(p.id)
    &&& p.id.len() + 46 <= u64::MAX
    &&& p.key.len() == 32
}

/// A well-formed peer's wire bytes: its identity's length plus the fixed
/// framing.
pub proof fn lemma_enc_peer_info_len(p: PeerInfoV)
    requires
        wf_peer_info(p),
    ensures
        enc_peer_info(p).len() == 46 + p.id.len(),
{
    vstd::bytes::lemma_auto_spec_u64_to_from_le_bytes();
    vstd::bytes::lemma_auto_spec_u32_to_from_le_bytes();
    vstd::bytes::lemma_auto_spec_u16_to_from_le_bytes();
}

/// The wire bytes of a peer: its identity length-prefixed, its 32 key bytes,
/// then its six address bytes.
pub open spec fn enc_peer_info(p: PeerInfoV) -> Seq<u8> {
    crate::wire::enc_lp(crate::wire::chars_bytes(p.id)) + p.key + crate::wire::enc_addr(p.address)
}

/// What wire bytes say as a peer.
pub open spec fn dec_peer_info(b: Seq<u8>) -> Option<PeerInfoV> {
    if b.len() < 8 {
        None
    } else {
        let l = vstd::bytes::spec_u64_from_le_bytes(b.take(8)) as int;
        if b.len() != 8 + l + 38 {
            None
        } else if !crate::wire::all_ascii_bytes(b.subrange(8, 8 + l)) {
            None
        } else {
            Some(
                PeerInfoV {
                    id: crate::wire::bytes_chars(b.subrange(8, 8 + l)),
                    key: b.subrange(8 + l, 8 + l + 32),
                    address: crate::wire::dec_addr(b.subrange(8 + l + 32, 8 + l + 38)).unwrap(),
                },
            )
        }
    }
}

/// A peer survives the round trip through its wire bytes.
pub proof fn lemma_peer_info_roundtrip(p: PeerInfoV)
    requires
        wf_peer_info(p),
    ensures
        dec_peer_info(enc_peer_info(p)) == Some(p),
{
    vstd::bytes::lemma_auto_spec_u64_to_from_le_bytes();
    vstd::bytes::lemma_auto_spec_u32_to_from_le_bytes();
    vstd::bytes::lemma_auto_spec_u16_to_from_le_bytes();
    let e = enc_peer_info(p);
    let l = p.id.len() as int;
    assert(e.take(8) =~= crate::wire::enc_u64(p.id.len() as u64));
    assert(e.subrange(8, 8 + l) =~= crate::wire::chars_bytes(p.id));
    assert(e.subrange(8 + l, 8 + l + 32) =~= p.key);
    assert(e.subrange(8 + l + 32, 8 + l + 38) =~= crate::wire::enc_addr(p.address));
    crate::wire::lemma_chars_bytes_roundtrip(p.id);
    crate::wire::lemma_addr_roundtrip(p.address);
    assert(dec_peer_info(e) matches Some(q) && q == p);
}

impl PeerInfo {
    /// The peer's wire bytes.
    pub fn as_bytes(&self) -> (r: Vec<u8>)
        requires
            vstd::utf8::is_ascii_chars(self@.id),
        ensures
            r@ == enc_peer_info(self@),
    {
        let mut out: Vec<u8> = Vec::new();
        let id_bytes = self.id.as_bytes();
        crate::wire::push_lp(&mut out, id_bytes.as_slice());
        let key_bytes = self.key.get_key();
        crate::wire::push_bytes(&mut out, key_bytes.as_slice());
        crate::wire::push_addr(&mut out, &self.address);
        proof {
            assert(id_bytes@ =~= crate::wire::chars_bytes(self@.id));
            assert(out@ =~= enc_peer_info(self@));
        }
        out
    }

    /// Read a peer from wire bytes; `None` on anything malformed.
    pub fn from_bytes(v: &[u8]) -> (r: Option<PeerInfo>)
        ensures
            match r {
                Some(p) => dec_peer_info(v@) == Some(p@) && wf_peer_info(p@),
                None => dec_peer_info(v@) is None,
            },
    {
        let n_total = v.len();
        if n_total < 8 {
            return None;
        }
        let l64 = crate::wire::read_u64(v, 0);
        proof {
            assert(v@.take(8) =~= v@.subrange(0int, 0int + 8));
        }
        if l64 > (n_total - 8) as u64 {
            proof {
                assert(v@.len() != 8 + l64 + 38);
            }
            return None;
        }
        let l = l64 as usize;
        if n_total - 8 - l != 38 {
            return None;
        }
        let id_bytes = crate::wire::sub_vec(v, 8, 8 + l);
        let ghost gid = id_bytes@;
        match crate::wire::ascii_to_string(id_bytes) {
            Some(id_str) => {
                let key_slice = vstd::slice::slice_subrange(v, 8 + l, 8 + l + 32);
                let key = Key::from_slice(key_slice);
                let address = crate::wire::read_addr(v, 8 + l + 32);
                let p = PeerInfo { id: PeerId::from_str(id_str), key, address };
                proof {
                    assert(v@.subrange(8 + l as int + 32, 8 + l as int + 38) =~= v@.subrange(
                        (8 + l + 32) as int,
                        (8 + l + 32) as int + 6,
                    ));
                    assert(dec_peer_info(v@) == Some(p@));
                }
                Some(p)
            },
            None => {
                proof {
                    assert(gid =~= v@.subrange(8, 8 + l as int));
                }
                None
            },
        }
    }
}

impl Clone for PeerInfo {
    fn clone(&self) -> (r: Self)
        ensures
            r == *self,
    {
        PeerInfo { id: self.id.clone(), key: self.key, address: self.address }
    }
}

impl PartialEq for PeerInfo {
    /// Two peers are equal when their keys agree.
    fn eq(&self, other: &PeerInfo) -> (r: bool) {
        let a = self.key.get_key();
        let b = other.key.get_key();
        let mut i: usize = 0;
        while i < 32
            invariant
                i <= 32,
                a@ == self@.key,
                b@ == other@.key,
                forall|j: int| 0 <= j < i ==> a@[j] == b@[j],
            decreases 32 - i,
        {
            if a[i] != b[i] {
                return false;
            }
            i += 1;
        }
        proof {
            assert(self@.key =~= other@.key);
        }
        true
    }
}

impl Eq for PeerInfo {

}

impl vstd::std_specs::cmp::PartialEqSpecImpl for PeerInfo {
    open spec fn obeys_eq_spec() -> bool {
        true
    }

    open spec fn eq_spec(&self, other: &PeerInfo) -> bool {
        self@.key == other@.key
    }
}

/// A peer paired with its XOR distance to some target, ordered by reverse
/// distance where a total order over peers is needed.
pub struct PeerInfoDistancePair(pub PeerInfo, pub Key);

impl PeerInfoDistancePair {
    /// True when this pair sorts no later than `other`: the reverse
    /// lexicographic order of the distance keys.
    pub fn le(&self, other: &PeerInfoDistancePair) -> (r: bool)
        ensures
            r == lex_le(other.1@, self.1@),
    {
        other.1.le(&self.1)
    }
}

impl Clone for PeerInfoDistancePair {
    fn clone(&self) -> (r: Self)
        ensures
            r.0@ == self.0@,
            r.1@ == self.1@,
    {
        PeerInfoDistancePair(self.0.clone(), self.1)
    }
}

impl PartialEq for PeerInfoDistancePair {
    /// Two pairs are equal when their peers are equal.
    fn eq(&self, other: &PeerInfoDistancePair) -> (r: bool) {
        self.0.eq(&other.0)
    }
}

impl Eq for PeerInfoDistancePair {

}

impl vstd::std_specs::cmp::PartialEqSpecImpl for PeerInfoDistancePair {
    open spec fn obeys_eq_spec() -> bool {
        true
    }

    open spec fn eq_spec(&self, other: &PeerInfoDistancePair) -> bool {
        self.0@.key == other.0@.key
    }
}

} // verus!
