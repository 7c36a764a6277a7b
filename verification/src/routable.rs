use vstd::prelude::*;
use crate::addr::NetAddr;
use crate::utils::Distance;

verus! {

/// Implemented by values the routing table can place: they expose an
/// identity, a key, and a network address.
pub trait Routable: Distance {
    type Id;

    type Key;

    fn get_id(&self) -> Self::Id;

    fn get_key(&self) -> Self::Key;

    fn get_address(&self) -> NetAddr;
}

impl Routable for crate::peer::PeerInfo {
    type Id = crate::peer::PeerId;

    type Key = crate::key::Key;

    fn get_id(&self) -> crate::peer::PeerId {
        crate::peer::PeerInfo::get_id(self)
    }

    fn get_key(&self) -> crate::key::Key {
        crate::peer::PeerInfo::get_key(self)
    }

    fn get_address(&self) -> NetAddr {
        crate::peer::PeerInfo::get_address(self)
    }
}

} // verus!
