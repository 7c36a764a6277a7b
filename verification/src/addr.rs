use vstd::prelude::*;

verus! {

/// An IPv4 endpoint: address and UDP port, kept as plain integers.
#[derive(Clone, Copy, Debug, PartialEq, Eq, Structural, Hash)]
pub struct NetAddr {
    pub ip: u32,
    pub port: u16,
}

impl NetAddr {
    pub fn new(ip: u32, port: u16) -> (r: NetAddr)
        ensures
            r.ip == ip,
            r.port == port,
    {
        NetAddr { ip, port }
    }

    /// The endpoint's six wire bytes.
    pub fn to_bytes(&self) -> (r: Vec<u8>)
        ensures
            r@ == crate::wire::enc_addr(*self),
    {
        let mut out: Vec<u8> = Vec::new();
        crate::wire::push_addr(&mut out, self);
        proof {
            assert(out@ =~= crate::wire::enc_addr(*self));
        }
        out
    }

    /// Read an endpoint from wire bytes; `None` on anything malformed.
    pub fn from_bytes(v: &[u8]) -> (r: Option<NetAddr>)
        ensures
            r == crate::wire::dec_addr(v@),
    {
        if v.len() != 6 {
            return None;
        }
        let a = crate::wire::read_addr(v, 0);
        proof {
            assert(v@.subrange(0, 6) =~= v@);
        }
        Some(a)
    }
}

} // verus!
