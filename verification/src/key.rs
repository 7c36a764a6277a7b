use vstd::prelude::*;
use crate::rnd::rand_byte;

verus! {

/// A 256-bit identifier key, kept as 32 bytes, most significant byte first.
#[derive(Clone, Copy, Debug)]
pub struct Key([u8; 32]);

impl View for Key {
    type V = Seq<u8>;

    closed spec fn view(&self) -> Seq<u8> {
        self.0@
    }
}

/// Bit `j` (0 = most significant) of the byte `b`.
pub open spec fn byte_bit(b: u8, j: int) -> bool {
    (b >> ((7 - j) as u8)) & 1u8 == 1u8
}

/// Bit `i` (0 = most significant) of a 32-byte key.
pub open spec fn key_bit(s: Seq<u8>, i: int) -> bool {
    byte_bit(s[i / 8], i % 8)
}

pub open spec fn bit_char(b: bool) -> char {
    if b {
        '1'
    } else {
        '0'
    }
}

/// The 256-character binary rendering of a key, one character per bit.
pub open spec fn spec_binary(s: Seq<u8>) -> Seq<char> {
    Seq::new(256, |i: int| bit_char(key_bit(s, i)))
}

/// The binary prefix of length `size + 1` used to address a bucket.
pub open spec fn spec_prefix(s: Seq<u8>, size: int) -> Seq<char> {
    spec_binary(s).take(size + 1)
}

/// Pointwise XOR of two 32-byte keys.
pub open spec fn spec_xor(a: Seq<u8>, b: Seq<u8>) -> Seq<u8> {
    Seq::new(32, |i: int| a[i] ^ b[i])
}

/// Lexicographic order on byte strings, scanned from index `i`.
pub open spec fn lex_le_from(a: Seq<u8>, b: Seq<u8>, i: int) -> bool
    decreases a.len() - i,
{
    if i < 0 || i >= a.len() || i >= b.len() {
        a.len() <= b.len() || i >= a.len()
    } else if a[i] < b[i] {
        true
    } else if a[i] > b[i] {
        false
    } else {
        lex_le_from(a, b, i + 1)
    }
}

/// Lexicographic order on byte strings; the XOR-distance order on keys.
pub open spec fn lex_le(a: Seq<u8>, b: Seq<u8>) -> bool {
    lex_le_from(a, b, 0)
}

pub proof fn lemma_lex_total_from(a: Seq<u8>, b: Seq<u8>, i: int)
    requires
        a.len() == b.len(),
    ensures
        lex_le_from(a, b, i) || lex_le_from(b, a, i),
    decreases a.len() - i,
{
    if 0 <= i && i < a.len() && a[i] == b[i] {
        lemma_lex_total_from(a, b, i + 1);
    }
}

/// Lexicographic order is total on strings of equal length.
pub proof fn lemma_lex_total(a: Seq<u8>, b: Seq<u8>)
    requires
        a.len() == b.len(),
    ensures
        lex_le(a, b) || lex_le(b, a),
{
    lemma_lex_total_from(a, b, 0);
}

pub proof fn lemma_lex_trans_from(a: Seq<u8>, b: Seq<u8>, c: Seq<u8>, i: int)
    requires
        a.len() == b.len(),
        b.len() == c.len(),
        lex_le_from(a, b, i),
        lex_le_from(b, c, i),
    ensures
        lex_le_from(a, c, i),
    decreases a.len() - i,
{
    if 0 <= i && i < a.len() {
        if a[i] == b[i] && b[i] == c[i] {
            lemma_lex_trans_from(a, b, c, i + 1);
        }
    }
}

/// Lexicographic order is transitive.
pub proof fn lemma_lex_trans(a: Seq<u8>, b: Seq<u8>, c: Seq<u8>)
    requires
        a.len() == b.len(),
        b.len() == c.len(),
        lex_le(a, b),
        lex_le(b, c),
    ensures
        lex_le(a, c),
{
    lemma_lex_trans_from(a, b, c, 0);
}

/// The index of the first one bit at or after `i`, or 256 when none.
pub open spec fn lz_from(s: Seq<u8>, i: int) -> int
    decreases 256 - i,
{
    if i < 0 || i >= 256 {
        256
    } else if key_bit(s, i) {
        i
    } else {
        lz_from(s, i + 1)
    }
}

/// The number of leading zero bits of a key.
pub open spec fn spec_lz(s: Seq<u8>) -> int {
    lz_from(s, 0)
}

impl Key {
    /// Wrap 32 raw bytes as a key.
    pub fn new(v: [u8; 32]) -> (r: Self)
        ensures
            r@ == v@,
    {
        Key(v)
    }

    /// Build a key from a 32-byte slice.
    pub fn from_slice(v: &[u8]) -> (r: Key)
        requires
            v@.len() == 32,
        ensures
            r@ == v@,
    {
        let mut out: [u8; 32] = [0; 32];
        let mut i: usize = 0;
        while i < 32
            invariant
                i <= 32,
                v@.len() == 32,
                out@.len() == 32,
                forall|j: int| 0 <= j < i ==> out@[j] == v@[j],
            decreases 32 - i,
        {
            out[i] = v[i];
            i += 1;
        }
        proof {
            assert(out@ =~= v@);
        }
        Key(out)
    }

    /// The raw 32 bytes of the key.
    pub fn get_key(&self) -> (r: [u8; 32])
        ensures
            r@ == self@,
    {
        self.0
    }

    /// A key of 32 random bytes.
    pub fn rand() -> (r: Self) {
        let mut out: [u8; 32] = [0; 32];
        let mut i: usize = 0;
        while i < 32
            decreases 32 - i,
        {
            out[i] = rand_byte();
            i += 1;
        }
        Key(out)
    }

    /// A random key whose first `idx` bits are zero and whose bit `idx` is one:
    /// a key lying in the XOR-distance band at depth `idx`.
    pub fn rand_in_range(idx: usize) -> (r: Self)
        requires
            idx < 256,
        ensures
            forall|j: int| 0 <= j < idx ==> !key_bit(r@, j),
            key_bit(r@, idx as int),
    {
        let r = Key::rand();
        Key(mask_in_range(r.0, idx))
    }

    /// The 256-character binary rendering of the key.
    pub fn get_binary(&self) -> (r: String)
        ensures
            r@ == spec_binary(self@),
    {
        let mut s = String::new();
        let mut i: usize = 0;
        proof {
            reveal_strlit("0");
            reveal_strlit("1");
        }
        while i < 256
            invariant
                i <= 256,
                s@ == spec_binary(self@).take(i as int),
                "0"@ =~= seq!['0'],
                "1"@ =~= seq!['1'],
            decreases 256 - i,
        {
            let byte = self.0[i / 8];
            let sh: u8 = (7 - (i % 8)) as u8;
            if (byte >> sh) & 1u8 == 1u8 {
                s.append("1");
            } else {
                s.append("0");
            }
            proof {
                assert(s@ =~= spec_binary(self@).take(i + 1));
            }
            i += 1;
        }
        proof {
            assert(s@ =~= spec_binary(self@));
        }
        s
    }

    /// The binary prefix of length `size + 1`, the bucket key at depth `size`.
    pub fn get_prefix(&self, size: usize) -> (r: String)
        requires
            size < 256,
        ensures
            r@ == spec_prefix(self@, size as int),
    {
        let mut s = String::new();
        let mut i: usize = 0;
        proof {
            reveal_strlit("0");
            reveal_strlit("1");
        }
        while i < size + 1
            invariant
                i <= size + 1,
                size < 256,
                s@ == spec_binary(self@).take(i as int),
                "0"@ =~= seq!['0'],
                "1"@ =~= seq!['1'],
            decreases size + 1 - i,
        {
            let byte = self.0[i / 8];
            let sh: u8 = (7 - (i % 8)) as u8;
            if (byte >> sh) & 1u8 == 1u8 {
                s.append("1");
            } else {
                s.append("0");
            }
            proof {
                assert(s@ =~= spec_binary(self@).take(i + 1));
            }
            i += 1;
        }
        s
    }

    /// The XOR distance between this key and `other`.
    pub fn xor(&self, other: Key) -> (r: Key)
        ensures
            r@ == spec_xor(self@, other@),
    {
        let mut out: [u8; 32] = [0; 32];
        let mut i: usize = 0;
        while i < 32
            invariant
                i <= 32,
                out@.len() == 32,
                forall|j: int| 0 <= j < i ==> out@[j] == (self@[j] ^ other@[j]),
            decreases 32 - i,
        {
            out[i] = self.0[i] ^ other.0[i];
            i += 1;
        }
        proof {
            assert(out@ =~= spec_xor(self@, other@));
        }
        Key(out)
    }

    /// The number of leading zero bits of the key.
    pub fn leading_zeros(&self) -> (r: usize)
        ensures
            r <= 256,
            r == spec_lz(self@),
            forall|j: int| 0 <= j < r ==> !key_bit(self@, j),
            r < 256 ==> key_bit(self@, r as int),
    {
        let mut i: usize = 0;
        while i < 256
            invariant
                i <= 256,
                forall|j: int| 0 <= j < i ==> !key_bit(self@, j),
                spec_lz(self@) == lz_from(self@, i as int),
            decreases 256 - i,
        {
            let byte = self.0[i / 8];
            let sh: u8 = (7 - (i % 8)) as u8;
            if (byte >> sh) & 1u8 == 1u8 {
                return i;
            }
            i += 1;
        }
        256
    }

    /// The number of leading one bits of the key.
    pub fn leading_ones(&self) -> (r: usize)
        ensures
            r <= 256,
            forall|j: int| 0 <= j < r ==> key_bit(self@, j),
            r < 256 ==> !key_bit(self@, r as int),
    {
        let mut i: usize = 0;
        while i < 256
            invariant
                i <= 256,
                forall|j: int| 0 <= j < i ==> key_bit(self@, j),
            decreases 256 - i,
        {
            let byte = self.0[i / 8];
            let sh: u8 = (7 - (i % 8)) as u8;
            if (byte >> sh) & 1u8 != 1u8 {
                return i;
            }
            i += 1;
        }
        256
    }

    /// Compare two keys in the lexicographic (XOR-distance) order.
    pub fn le(&self, other: &Key) -> (r: bool)
        ensures
            r == lex_le(self@, other@),
    {
        let mut i: usize = 0;
        while i < 32
            invariant
                i <= 32,
                lex_le(self@, other@) == lex_le_from(self@, other@, i as int),
            decreases 32 - i,
        {
            if self.0[i] < other.0[i] {
                return true;
            }
            if self.0[i] > other.0[i] {
                return false;
            }
            i += 1;
        }
        true
    }
}

impl PartialEq for Key {
    /// Two keys are equal when their 32 bytes agree.
    fn eq(&self, other: &Key) -> (r: bool) {
        let mut i: usize = 0;
        while i < 32
            invariant
                i <= 32,
                forall|j: int| 0 <= j < i ==> self@[j] == other@[j],
            decreases 32 - i,
        {
            if self.0[i] != other.0[i] {
                proof {
                    assert(self@[i as int] != other@[i as int]);
                }
                return false;
            }
            i += 1;
        }
        proof {
            assert(self@ =~= other@);
        }
        true
    }
}

impl Eq for Key {

}

impl vstd::std_specs::cmp::PartialEqSpecImpl for Key {
    open spec fn obeys_eq_spec() -> bool {
        true
    }

    open spec fn eq_spec(&self, other: &Key) -> bool {
        self@ == other@
    }
}

/// Zero the bytes before bit `idx` and force bit `idx` to one.
pub(crate) fn mask_in_range(k: [u8; 32], idx: usize) -> (r: [u8; 32])
    requires
        idx < 256,
    ensures
        forall|j: int| 0 <= j < idx ==> !key_bit(r@, j),
        key_bit(r@, idx as int),
{
    let mut out = k;
    let bytes = idx / 8;
    let bit = idx % 8;
    let mut i: usize = 0;
    while i < bytes
        invariant
            i <= bytes,
            bytes < 32,
            out@.len() == 32,
            forall|j: int| 0 <= j < i ==> out@[j] == 0u8,
        decreases bytes - i,
    {
        out[i] = 0;
        i += 1;
    }
    let prev: u8 = out[bytes];
    let masked: u8 = (prev & (0xFFu8 >> (bit as u8))) | (1u8 << ((8 - bit - 1) as u8));
    out[bytes] = masked;
    proof {
        let b = bit as u8;
        assert forall|j: int| 0 <= j < idx implies !key_bit(out@, j) by {
            if j / 8 < bytes {
                assert(out@[j / 8] == 0u8);
                let sh = (7 - (j % 8)) as u8;
                assert((0u8 >> sh) & 1u8 == 0u8) by (bit_vector);
            } else {
                assert(j / 8 == bytes && j % 8 < bit);
                lemma_mask_clears(prev, (j % 8) as u8, b);
            }
        }
        lemma_mask_sets(prev, b);
        assert(idx as int / 8 == bytes && idx as int % 8 == bit);
    }
    out
}

/// Masking with 0xFF >> b clears every bit above position b.
proof fn lemma_mask_clears(x: u8, jm: u8, b: u8)
    requires
        jm < b,
        b < 8,
    ensures
        (((x & (0xFFu8 >> b)) | (1u8 << ((8 - b - 1) as u8))) >> ((7 - jm) as u8)) & 1u8 == 0u8,
{
    assert((((x & (0xFFu8 >> b)) | (1u8 << ((8 - b - 1) as u8))) >> ((7 - jm) as u8)) & 1u8
        == 0u8) by (bit_vector)
        requires
            jm < b,
            b < 8,
    ;
}

/// Setting bit b with 1 << (8 - b - 1) makes that bit one.
proof fn lemma_mask_sets(x: u8, b: u8)
    requires
        b < 8,
    ensures
        (((x & (0xFFu8 >> b)) | (1u8 << ((8 - b - 1) as u8))) >> ((7 - b) as u8)) & 1u8 == 1u8,
{
    assert((((x & (0xFFu8 >> b)) | (1u8 << ((8 - b - 1) as u8))) >> ((7 - b) as u8)) & 1u8
        == 1u8) by (bit_vector)
        requires
            b < 8,
    ;
}

} // verus!
