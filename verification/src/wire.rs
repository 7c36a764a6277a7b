use vstd::prelude::*;
use vstd::bytes::{
    spec_u16_to_le_bytes,
    spec_u16_from_le_bytes,
    spec_u32_to_le_bytes,
    spec_u32_from_le_bytes,
    spec_u64_to_le_bytes,
    spec_u64_from_le_bytes,
    u16_from_le_bytes,
    u16_to_le_bytes,
    u32_from_le_bytes,
    u32_to_le_bytes,
    u64_from_le_bytes,
    u64_to_le_bytes,
};
use vstd::slice::{slice_subrange, slice_to_vec};

verus! {

/// The characters of an ASCII string, one byte each.
pub open spec fn chars_bytes(s: Seq<char>) -> Seq<u8> {
    Seq::new(s.len(), |i: int| s[i] as u8)
}

/// The bytes of an ASCII string, one character each.
pub open spec fn bytes_chars(b: Seq<u8>) -> Seq<char> {
    Seq::new(b.len(), |i: int| b[i] as char)
}

pub open spec fn all_ascii_bytes(b: Seq<u8>) -> bool {
    forall|i: int| 0 <= i < b.len() ==> #[trigger] b[i] < 128
}

/// ASCII characters survive the round trip through bytes.
pub proof fn lemma_chars_bytes_roundtrip(s: Seq<char>)
    requires
        vstd::utf8::is_ascii_chars(s),
    ensures
        bytes_chars(chars_bytes(s)) == s,
        all_ascii_bytes(chars_bytes(s)),
        vstd::utf8::is_ascii_chars(bytes_chars(chars_bytes(s))),
{
    assert(bytes_chars(chars_bytes(s)) =~= s);
}

/// ASCII bytes survive the round trip through characters.
pub proof fn lemma_bytes_chars_roundtrip(b: Seq<u8>)
    requires
        all_ascii_bytes(b),
    ensures
        chars_bytes(bytes_chars(b)) == b,
        vstd::utf8::is_ascii_chars(bytes_chars(b)),
{
    assert(chars_bytes(bytes_chars(b)) =~= b);
}

/// A 64-bit length or number on the wire: eight little-endian bytes.
pub open spec fn enc_u64(x: u64) -> Seq<u8> {
    spec_u64_to_le_bytes(x)
}

/// A length-prefixed byte string: its length, then its bytes.
pub open spec fn enc_lp(b: Seq<u8>) -> Seq<u8> {
    enc_u64(b.len() as u64) + b
}

/// Append a slice to a byte vector.
pub fn push_bytes(dst: &mut Vec<u8>, src: &[u8])
    ensures
        final(dst)@ == old(dst)@ + src@,
{
    let mut i: usize = 0;
    while i < src.len()
        invariant
            i <= src@.len(),
            dst@ == old(dst)@ + src@.take(i as int),
        decreases src@.len() - i,
    {
        dst.push(src[i]);
        proof {
            assert(old(dst)@ + src@.take(i as int) + seq![src@[i as int]] =~= old(dst)@
                + src@.take(i + 1));
        }
        i += 1;
    }
    proof {
        assert(src@.take(src@.len() as int) =~= src@);
    }
}

/// Append one byte.
pub fn push_byte(dst: &mut Vec<u8>, x: u8)
    ensures
        final(dst)@ == old(dst)@ + seq![x],
{
    dst.push(x);
    proof {
        assert(dst@ =~= old(dst)@ + seq![x]);
    }
}

/// Append a number as eight little-endian bytes.
pub fn push_u64(dst: &mut Vec<u8>, x: u64)
    ensures
        final(dst)@ == old(dst)@ + enc_u64(x),
{
    let bytes = u64_to_le_bytes(x);
    push_bytes(dst, bytes.as_slice());
}

/// Append a length-prefixed byte string.
pub fn push_lp(dst: &mut Vec<u8>, src: &[u8])
    ensures
        final(dst)@ == old(dst)@ + enc_lp(src@),
{
    push_u64(dst, src.len() as u64);
    push_bytes(dst, src);
    proof {
        assert(dst@ =~= old(dst)@ + enc_lp(src@));
    }
}

/// Read the eight-byte number at `pos`.
pub fn read_u64(b: &[u8], pos: usize) -> (r: u64)
    requires
        pos + 8 <= b@.len(),
    ensures
        r == spec_u64_from_le_bytes(b@.subrange(pos as int, pos as int + 8)),
{
    let _n: usize = b.len();
    let s = slice_subrange(b, pos, pos + 8);
    u64_from_le_bytes(s)
}

/// Read the four-byte number at `pos`.
pub fn read_u32(b: &[u8], pos: usize) -> (r: u32)
    requires
        pos + 4 <= b@.len(),
    ensures
        r == spec_u32_from_le_bytes(b@.subrange(pos as int, pos as int + 4)),
{
    let _n: usize = b.len();
    let s = slice_subrange(b, pos, pos + 4);
    u32_from_le_bytes(s)
}

/// Read the two-byte number at `pos`.
pub fn read_u16(b: &[u8], pos: usize) -> (r: u16)
    requires
        pos + 2 <= b@.len(),
    ensures
        r == spec_u16_from_le_bytes(b@.subrange(pos as int, pos as int + 2)),
{
    let _n: usize = b.len();
    let s = slice_subrange(b, pos, pos + 2);
    u16_from_le_bytes(s)
}

/// Copy the bytes between `i` and `j` into a fresh vector.
pub fn sub_vec(b: &[u8], i: usize, j: usize) -> (r: Vec<u8>)
    requires
        i <= j && j <= b@.len(),
    ensures
        r@ == b@.subrange(i as int, j as int),
{
    let s = slice_subrange(b, i, j);
    slice_to_vec(s)
}

/// Relies on String::from_utf8: it fails only on bytes that are not valid
/// UTF-8, so never on ASCII bytes, which decode to the string whose
/// characters are exactly those bytes.
#[verifier::external_body]
fn string_from_utf8(v: Vec<u8>) -> (r: Option<String>)
    ensures
        match r {
            Some(s) => all_ascii_bytes(v@) ==> s@ == bytes_chars(v@),
            None => !all_ascii_bytes(v@),
        },
{
    match String::from_utf8(v) {
        Ok(s) => Some(s),
        Err(_) => None,
    }
}

/// Turn ASCII bytes into the string of those characters; `None` when some
/// byte is not ASCII.
pub fn ascii_to_string(v: Vec<u8>) -> (r: Option<String>)
    ensures
        all_ascii_bytes(v@) <==> r is Some,
        r matches Some(s) ==> s@ == bytes_chars(v@) && vstd::utf8::is_ascii_chars(s@),
{
    let mut i: usize = 0;
    while i < v.len()
        invariant
            i <= v@.len(),
            forall|j: int| 0 <= j < i ==> #[trigger] v@[j] < 128,
        decreases v@.len() - i,
    {
        if v[i] >= 128 {
            return None;
        }
        i += 1;
    }
    proof {
        assert(all_ascii_bytes(v@));
    }
    let ghost gv = v@;
    let r = string_from_utf8(v);
    match r {
        Some(s) => {
            proof {
                lemma_bytes_chars_roundtrip(gv);
            }
            Some(s)
        },
        None => None,
    }
}

/// The six bytes of an address: the IPv4 value, then the port.
pub open spec fn enc_addr(a: crate::addr::NetAddr) -> Seq<u8> {
    spec_u32_to_le_bytes(a.ip) + spec_u16_to_le_bytes(a.port)
}

/// What six wire bytes say as an address.
pub open spec fn dec_addr(b: Seq<u8>) -> Option<crate::addr::NetAddr> {
    if b.len() == 6 {
        Some(
            crate::addr::NetAddr {
                ip: spec_u32_from_le_bytes(b.take(4)),
                port: spec_u16_from_le_bytes(b.skip(4)),
            },
        )
    } else {
        None
    }
}

/// An address survives the round trip through its six wire bytes.
pub proof fn lemma_addr_roundtrip(a: crate::addr::NetAddr)
    ensures
        dec_addr(enc_addr(a)) == Some(a),
{
    vstd::bytes::lemma_auto_spec_u32_to_from_le_bytes();
    vstd::bytes::lemma_auto_spec_u16_to_from_le_bytes();
    assert(enc_addr(a).take(4) =~= spec_u32_to_le_bytes(a.ip));
    assert(enc_addr(a).skip(4) =~= spec_u16_to_le_bytes(a.port));
}

/// Append an address's six wire bytes.
pub fn push_addr(dst: &mut Vec<u8>, a: &crate::addr::NetAddr)
    ensures
        final(dst)@ == old(dst)@ + enc_addr(*a),
{
    let ip_bytes = u32_to_le_bytes(a.ip);
    push_bytes(dst, ip_bytes.as_slice());
    let port_bytes = u16_to_le_bytes(a.port);
    push_bytes(dst, port_bytes.as_slice());
    proof {
        assert(dst@ =~= old(dst)@ + enc_addr(*a));
    }
}

/// Read the six-byte address at `pos`.
pub fn read_addr(b: &[u8], pos: usize) -> (r: crate::addr::NetAddr)
    requires
        pos + 6 <= b@.len(),
    ensures
        Some(r) == dec_addr(b@.subrange(pos as int, pos as int + 6)),
{
    let _n: usize = b.len();
    let ip = read_u32(b, pos);
    let port = read_u16(b, pos + 4);
    proof {
        let w = b@.subrange(pos as int, pos as int + 6);
        assert(w.take(4) =~= b@.subrange(pos as int, pos as int + 4));
        assert(w.skip(4) =~= b@.subrange(pos as int + 4, pos as int + 6));
    }
    crate::addr::NetAddr { ip, port }
}

} // verus!
