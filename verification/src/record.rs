use vstd::prelude::*;

verus! {

/// Implemented by stored records: each exposes the key it is filed under.
pub trait Record {
    type Key;

    fn get_key(&self) -> Self::Key;
}

/// Returned by a store that cannot take a record or a provider in.
pub struct StoreError;

/// Implemented by record stores: a keyed collection of records, with the
/// peers that provide each key registered alongside. The interface carries
/// no obligations beyond its shapes; what a store promises is the
/// implementor's affair.
pub trait Store {
    type Record;

    type Provision;

    type Key;

    fn get(&self, key: &Self::Key) -> Option<Self::Record>;

    fn put(&mut self, record: Self::Record) -> Result<(), StoreError>;

    fn remove(&mut self, key: &Self::Key);

    fn records(&self) -> Vec<Self::Record>;

    fn add_provider(&mut self, provider: Self::Provision) -> Result<(), StoreError>;

    fn providers(&self, key: &Self::Key) -> Vec<Self::Provision>;

    fn provided(&self) -> Vec<Self::Provision>;

    fn remove_provider(&mut self, key: &Self::Key, peer: &crate::peer::PeerId);
}

} // verus!
