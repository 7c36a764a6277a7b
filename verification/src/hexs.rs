use vstd::prelude::*;

verus! {

/// The lowercase hex digit for a value below 16.
pub open spec fn hex_char_of(n: u8) -> char {
    if n == 0 {
        '0'
    } else if n == 1 {
        '1'
    } else if n == 2 {
        '2'
    } else if n == 3 {
        '3'
    } else if n == 4 {
        '4'
    } else if n == 5 {
        '5'
    } else if n == 6 {
        '6'
    } else if n == 7 {
        '7'
    } else if n == 8 {
        '8'
    } else if n == 9 {
        '9'
    } else if n == 10 {
        'a'
    } else if n == 11 {
        'b'
    } else if n == 12 {
        'c'
    } else if n == 13 {
        'd'
    } else if n == 14 {
        'e'
    } else {
        'f'
    }
}

/// The two lowercase hex digits of one byte, high digit first.
pub open spec fn hex_of_byte(b: u8) -> Seq<char> {
    seq![hex_char_of(b >> 4u8), hex_char_of(b & 0xFu8)]
}

/// The lowercase hex rendering of a byte string, two digits per byte.
pub open spec fn hex_of(bs: Seq<u8>) -> Seq<char>
    decreases bs.len(),
{
    if bs.len() == 0 {
        Seq::empty()
    } else {
        hex_of_byte(bs[0]) + hex_of(bs.drop_first())
    }
}

/// Hex strings are twice as long as the bytes they render.
pub proof fn lemma_hex_of_len(bs: Seq<u8>)
    ensures
        hex_of(bs).len() == 2 * bs.len(),
    decreases bs.len(),
{
    if bs.len() > 0 {
        lemma_hex_of_len(bs.drop_first());
    }
}

/// Hex rendering distributes over concatenation.
pub proof fn lemma_hex_of_add(a: Seq<u8>, b: Seq<u8>)
    ensures
        hex_of(a + b) == hex_of(a) + hex_of(b),
    decreases a.len(),
{
    if a.len() == 0 {
        assert(a + b =~= b);
        assert(hex_of(a) + hex_of(b) =~= hex_of(b));
    } else {
        lemma_hex_of_add(a.drop_first(), b);
        assert((a + b).drop_first() =~= a.drop_first() + b);
        assert(hex_of(a) + hex_of(b) =~= hex_of_byte(a[0]) + (hex_of(a.drop_first()) + hex_of(b)));
    }
}

proof fn lemma_hex_byte_inj(x: u8, y: u8)
    requires
        hex_of_byte(x) == hex_of_byte(y),
    ensures
        x == y,
{
    assert(hex_char_of(x >> 4u8) == hex_char_of(y >> 4u8));
    assert(hex_char_of(x & 0xFu8) == hex_char_of(y & 0xFu8));
    assert(x >> 4u8 < 16 && y >> 4u8 < 16 && x & 0xFu8 < 16 && y & 0xFu8 < 16) by (bit_vector);
    assert(x >> 4u8 == y >> 4u8 && x & 0xFu8 == y & 0xFu8);
    assert(x >> 4u8 == y >> 4u8 && x & 0xFu8 == y & 0xFu8 ==> x == y) by (bit_vector);
}

/// Two byte strings with the same hex rendering are the same.
pub proof fn lemma_hex_of_inj(a: Seq<u8>, b: Seq<u8>)
    requires
        hex_of(a) == hex_of(b),
    ensures
        a == b,
    decreases a.len(),
{
    lemma_hex_of_len(a);
    lemma_hex_of_len(b);
    if a.len() == 0 {
        assert(a =~= b);
    } else {
        assert(hex_of(a)[0] == hex_of_byte(a[0])[0] && hex_of(a)[1] == hex_of_byte(a[0])[1]);
        assert(hex_of(b)[0] == hex_of_byte(b[0])[0] && hex_of(b)[1] == hex_of_byte(b[0])[1]);
        assert(hex_of_byte(a[0]) =~= hex_of_byte(b[0]));
        lemma_hex_byte_inj(a[0], b[0]);
        assert forall|i: int| 0 <= i < hex_of(a.drop_first()).len() implies hex_of(
            a.drop_first(),
        )[i] == hex_of(b.drop_first())[i] by {
            assert(hex_of(a) == hex_of_byte(a[0]) + hex_of(a.drop_first()));
            assert(hex_of(b) == hex_of_byte(b[0]) + hex_of(b.drop_first()));
            assert(hex_of(a)[i + 2] == hex_of(a.drop_first())[i]);
            assert(hex_of(b)[i + 2] == hex_of(b.drop_first())[i]);
        }
        assert(hex_of(a.drop_first()) =~= hex_of(b.drop_first()));
        lemma_hex_of_inj(a.drop_first(), b.drop_first());
        assert forall|i: int| 0 <= i < a.len() implies a[i] == b[i] by {
            if i > 0 {
                assert(a[i] == a.drop_first()[i - 1]);
                assert(b[i] == b.drop_first()[i - 1]);
            }
        }
        assert(a =~= b);
    }
}

/// Hex renderings are ASCII text.
pub proof fn lemma_hex_of_ascii(bs: Seq<u8>)
    ensures
        vstd::utf8::is_ascii_chars(hex_of(bs)),
    decreases bs.len(),
{
    if bs.len() > 0 {
        lemma_hex_of_ascii(bs.drop_first());
        assert forall|i: int| 0 <= i < hex_of(bs).len() implies '\0' <= #[trigger] hex_of(
            bs,
        )[i] <= '\u{7f}' by {
            assert(hex_of(bs) == hex_of_byte(bs[0]) + hex_of(bs.drop_first()));
            if i >= 2 {
                assert(hex_of(bs)[i] == hex_of(bs.drop_first())[i - 2]);
            }
        }
    }
}

/// Relies on hex::encode: the lowercase hex rendering of the input bytes,
/// two digits per byte.
#[verifier::external_body]
pub fn hex_encode(b: &[u8]) -> (r: String)
    ensures
        r@ == hex_of(b@),
{
    hex::encode(b)
}

/// Relies on hex::decode: it fails only on input that is not valid hex, so
/// never on a lowercase hex rendering, and what it returns on a lowercase hex
/// rendering re-renders to the input.
#[verifier::external_body]
pub fn hex_decode(s: &str) -> (r: Option<Vec<u8>>)
    ensures
        match r {
            Some(d) => (exists|bs: Seq<u8>| s@ == hex_of(bs)) ==> s@ == hex_of(d@),
            None => !(exists|bs: Seq<u8>| s@ == hex_of(bs)),
        },
{
    match hex::decode(s) {
        Ok(v) => Some(v),
        Err(_) => None,
    }
}

} // verus!
