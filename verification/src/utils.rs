use vstd::prelude::*;

verus! {

/// A wall-clock instant in nanoseconds since the Unix epoch.
pub type Timestamp = u128;

/// Relies on std::time::SystemTime::now and duration_since: the nanoseconds
/// of the current wall-clock time since the Unix epoch, or zero should the
/// clock stand before the epoch. Nothing is promised of the result.
#[verifier::external_body]
pub fn timestamp_now() -> (r: Timestamp) {
    match std::time::SystemTime::now().duration_since(std::time::UNIX_EPOCH) {
        Ok(d) => d.as_nanos(),
        Err(_) => 0,
    }
}

/// Measuring XOR distance between identifiers.
pub trait Distance {
    type Output;

    fn xor(&self, other: Self::Output) -> Self::Output;

    fn leading_zeros(&self) -> usize;

    fn leading_ones(&self) -> usize {
        0
    }
}

impl Distance for crate::key::Key {
    type Output = crate::key::Key;

    fn xor(&self, other: crate::key::Key) -> crate::key::Key {
        crate::key::Key::xor(self, other)
    }

    fn leading_zeros(&self) -> usize {
        crate::key::Key::leading_zeros(self)
    }

    fn leading_ones(&self) -> usize {
        crate::key::Key::leading_ones(self)
    }
}

impl Distance for crate::peer::PeerInfo {
    type Output = crate::key::Key;

    fn xor(&self, other: crate::key::Key) -> crate::key::Key {
        crate::peer::PeerInfo::xor(self, other)
    }

    fn leading_zeros(&self) -> usize {
        crate::peer::PeerInfo::leading_zeros(self)
    }
}

} // verus!
