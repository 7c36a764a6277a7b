use vstd::prelude::*;
use crate::peer::{PeerId, PeerInfo};

verus! {

#[verifier::external_type_specification]
#[verifier::external_body]
pub struct ExDefaultHashBuilder(ritelinked::DefaultHashBuilder);

#[verifier::external_type_specification]
#[verifier::external_body]
#[verifier::reject_recursive_types(K)]
#[verifier::reject_recursive_types(V)]
#[verifier::reject_recursive_types(S)]
pub struct ExLinkedHashMap<K, V, S>(ritelinked::LinkedHashMap<K, V, S>);

/// What a bucket's map holds: its peers in insertion order, oldest first,
/// each stored under its own identity as the key.
pub uninterp spec fn peer_map_entries(
    m: ritelinked::LinkedHashMap<PeerId, PeerInfo>,
) -> Seq<PeerInfo>;

/// True when some entry carries this identity.
pub open spec fn entries_have_id(s: Seq<PeerInfo>, id: Seq<char>) -> bool {
    exists|i: int| 0 <= i < s.len() && (#[trigger] s[i])@.id == id
}

/// Relies on ritelinked::LinkedHashMap::with_capacity: a new map with no
/// entries.
#[verifier::external_body]
pub(crate) fn pm_new(capacity: usize) -> (r: ritelinked::LinkedHashMap<PeerId, PeerInfo>)
    ensures
        peer_map_entries(r) == Seq::<PeerInfo>::empty(),
{
    ritelinked::LinkedHashMap::with_capacity(capacity)
}

/// Relies on ritelinked::LinkedHashMap::contains_key, with this crate's
/// verified `PeerId` equality: whether an entry carries this identity.
#[verifier::external_body]
pub(crate) fn pm_contains(m: &ritelinked::LinkedHashMap<PeerId, PeerInfo>, id: &PeerId) -> (r:
    bool)
    ensures
        r == entries_have_id(peer_map_entries(*m), id@),
{
    m.contains_key(id)
}

/// Relies on ritelinked::LinkedHashMap::len: the number of entries.
#[verifier::external_body]
pub(crate) fn pm_len(m: &ritelinked::LinkedHashMap<PeerId, PeerInfo>) -> (r: usize)
    ensures
        r == peer_map_entries(*m).len(),
{
    m.len()
}

/// Relies on ritelinked::LinkedHashMap::insert: a key not yet present is
/// appended at the back of the iteration order. The peer is stored under its
/// own identity.
#[verifier::external_body]
pub(crate) fn pm_insert_new(m: &mut ritelinked::LinkedHashMap<PeerId, PeerInfo>, p: PeerInfo)
    requires
        !entries_have_id(peer_map_entries(*old(m)), p@.id),
    ensures
        peer_map_entries(*final(m)) == peer_map_entries(*old(m)).push(p),
{
    let k = p.id.clone();
    m.insert(k, p);
}

/// Relies on ritelinked::LinkedHashMap::pop_front: removes and returns the
/// oldest-inserted entry, leaving the order of the rest.
#[verifier::external_body]
pub(crate) fn pm_pop_front(m: &mut ritelinked::LinkedHashMap<PeerId, PeerInfo>) -> (r: Option<
    PeerInfo,
>)
    ensures
        match r {
            Some(p) => peer_map_entries(*old(m)).len() > 0 && p == peer_map_entries(*old(m))[0]
                && peer_map_entries(*final(m)) == peer_map_entries(*old(m)).drop_first(),
            None => peer_map_entries(*old(m)).len() == 0 && peer_map_entries(*final(m))
                == peer_map_entries(*old(m)),
        },
{
    m.pop_front().map(|kv| kv.1)
}

/// Relies on ritelinked::LinkedHashMap::remove: removes the entry stored
/// under this identity, if any, keeping the order of the rest.
#[verifier::external_body]
pub(crate) fn pm_remove(m: &mut ritelinked::LinkedHashMap<PeerId, PeerInfo>, id: &PeerId) -> (r:
    Option<PeerInfo>)
    ensures
        match r {
            Some(p) => exists|i: int|
                {
                    &&& 0 <= i < peer_map_entries(*old(m)).len()
                    &&& (#[trigger] peer_map_entries(*old(m))[i])@.id == id@
                    &&& p == peer_map_entries(*old(m))[i]
                    &&& peer_map_entries(*final(m)) == peer_map_entries(*old(m)).remove(i)
                },
            None => !entries_have_id(peer_map_entries(*old(m)), id@) && peer_map_entries(*final(m))
                == peer_map_entries(*old(m)),
        },
{
    m.remove(id)
}

/// Relies on ritelinked::LinkedHashMap::values: the entries in iteration
/// order, oldest first.
#[verifier::external_body]
pub(crate) fn pm_values(m: &ritelinked::LinkedHashMap<PeerId, PeerInfo>) -> (r: Vec<PeerInfo>)
    ensures
        r@ == peer_map_entries(*m),
{
    m.values().cloned().collect()
}

} // verus!
