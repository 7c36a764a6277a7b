use vstd::prelude::*;
use crate::key::{Key, spec_prefix, spec_xor, lex_le};
use crate::peer::PeerInfo;
use crate::peermap::{
    entries_have_id,
    pm_contains,
    pm_insert_new,
    pm_len,
    pm_new,
    pm_pop_front,
    pm_remove,
    pm_values,
    peer_map_entries,
};
use crate::utils::timestamp_now;

verus! {

/// The most peers one bucket may hold.
pub const MAX_BUCKET_LEN: usize = 30;

/// An advisory bound on the bucket count.
pub const MAX_BUCKETS: usize = 10;

/// How long a bucket may go without an update before it counts as stale,
/// in nanoseconds.
pub const REFRESH_INTEVAL: u128 = 900_000_000_000;

/// One bucket of the routing table: peers at a common distance band, in
/// insertion order, with the time of the last update.
#[derive(Debug)]
pub struct KBucket {
    nodes: ritelinked::LinkedHashMap<crate::peer::PeerId, PeerInfo>,
    last_updated: u128,
}

impl KBucket {
    /// The bucket's peers, oldest insertion first.
    pub closed spec fn entries(&self) -> Seq<PeerInfo> {
        peer_map_entries(self.nodes)
    }

    /// When the bucket was last updated.
    pub closed spec fn spec_last_updated(&self) -> u128 {
        self.last_updated
    }

    /// No two peers of the bucket share an identity.
    pub open spec fn wf(&self) -> bool {
        forall|i: int, j: int|
            0 <= i < j < self.entries().len() ==> (#[trigger] self.entries()[i])@.id != (
            #[trigger] self.entries()[j])@.id
    }

    /// An empty bucket, updated now.
    pub fn new() -> (r: KBucket)
        ensures
            r.entries() == Seq::<PeerInfo>::empty(),
            r.wf(),
    {
        KBucket { nodes: pm_new(MAX_BUCKET_LEN), last_updated: timestamp_now() }
    }

    /// Record the peer at time `now`: refresh the update time
    /// unconditionally, and append the peer unless its identity is already
    /// present. A present peer is neither moved nor replaced.
    pub fn upsert(&mut self, peer: &PeerInfo, now: u128)
        ensures
            final (self).spec_last_updated() == now,
            entries_have_id(old(self).entries(), peer@.id) ==> final (self).entries() == old(
                self,
            ).entries(),
            !entries_have_id(old(self).entries(), peer@.id) ==> final (self).entries() == old(
                self,
            ).entries().push(*peer),
            old(self).wf() ==> final (self).wf(),
    {
        self.last_updated = now;
        if !pm_contains(&self.nodes, &peer.id) {
            pm_insert_new(&mut self.nodes, peer.clone());
            proof {
                if old(self).wf() {
                    assert forall|i: int, j: int|
                        0 <= i < j < self.entries().len() implies (#[trigger] self.entries()[i])@.id
                        != (#[trigger] self.entries()[j])@.id by {
                        if j == old(self).entries().len() {
                            assert(self.entries()[j] == *peer);
                            assert(self.entries()[i] == old(self).entries()[i]);
                            assert(old(self).entries()[i]@.id != peer@.id);
                        } else {
                            assert(self.entries()[i] == old(self).entries()[i]);
                            assert(self.entries()[j] == old(self).entries()[j]);
                        }
                    }
                }
            }
        }
    }

    /// Whether a peer with this node's identity is in the bucket.
    pub fn contains(&self, node: &PeerInfo) -> (r: bool)
        ensures
            r == entries_have_id(self.entries(), node@.id),
    {
        pm_contains(&self.nodes, &node.id)
    }

    /// A fresh, empty bucket; splitting is not performed.
    pub fn split(&mut self, index: usize, prefix: String) -> (r: KBucket)
        ensures
            r.entries() == Seq::<PeerInfo>::empty(),
            final (self).entries() == old(self).entries(),
    {
        let _ = index;
        let _ = prefix;
        let new_bucket = KBucket::new();
        new_bucket
    }

    /// The bucket's peers in insertion order.
    pub fn get_nodes(&self) -> (r: Vec<PeerInfo>)
        ensures
            r@ == self.entries(),
    {
        pm_values(&self.nodes)
    }

    /// Remove and return the oldest-inserted peer, if any.
    pub fn remove_lru(&mut self) -> (r: Option<PeerInfo>)
        ensures
            match r {
                Some(p) => old(self).entries().len() > 0 && p == old(self).entries()[0] && final (
                self).entries() == old(self).entries().drop_first(),
                None => old(self).entries().len() == 0 && final (self).entries() == old(
                self,
                ).entries(),
            },
            old(self).wf() ==> final (self).wf(),
    {
        if self.size() == 0 {
            None
        } else {
            let r = pm_pop_front(&mut self.nodes);
            proof {
                if old(self).wf() {
                    assert forall|i: int, j: int|
                        0 <= i < j < self.entries().len() implies (#[trigger] self.entries()[i])@.id
                        != (#[trigger] self.entries()[j])@.id by {
                        assert(self.entries()[i] == old(self).entries()[i + 1]);
                        assert(self.entries()[j] == old(self).entries()[j + 1]);
                    }
                }
            }
            r
        }
    }

    /// Remove the peer with this node's identity, if present.
    pub fn remove_peer(&mut self, peer: &PeerInfo) -> (r: Option<PeerInfo>)
        requires
            old(self).wf(),
        ensures
            match r {
                Some(p) => exists|i: int|
                    {
                        &&& 0 <= i < old(self).entries().len()
                        &&& (#[trigger] old(self).entries()[i])@.id == peer@.id
                        &&& p == old(self).entries()[i]
                        &&& final (self).entries() == old(self).entries().remove(i)
                    },
                None => !entries_have_id(old(self).entries(), peer@.id) && final (self).entries()
                    == old(self).entries(),
            },
            final (self).wf(),
    {
        let r = pm_remove(&mut self.nodes, &peer.id);
        proof {
            if r is Some {
                let i = choose|i: int|
                    {
                        &&& 0 <= i < old(self).entries().len()
                        &&& (#[trigger] old(self).entries()[i])@.id == peer@.id
                        &&& r->Some_0 == old(self).entries()[i]
                        &&& self.entries() == old(self).entries().remove(i)
                    };
                assert forall|a: int, b: int|
                    0 <= a < b < self.entries().len() implies (#[trigger] self.entries()[a])@.id
                    != (#[trigger] self.entries()[b])@.id by {
                    assert(self.entries()[a] == if a < i {
                        old(self).entries()[a]
                    } else {
                        old(self).entries()[a + 1]
                    });
                    assert(self.entries()[b] == if b < i {
                        old(self).entries()[b]
                    } else {
                        old(self).entries()[b + 1]
                    });
                }
            }
        }
        r
    }

    /// Whether the bucket is at capacity.
    pub fn is_full(&self) -> (r: bool)
        ensures
            r == (self.entries().len() >= MAX_BUCKET_LEN),
    {
        pm_len(&self.nodes) >= MAX_BUCKET_LEN
    }

    /// Whether the bucket has gone unrefreshed longer than the refresh
    /// interval, judged against the given wall-clock time.
    pub fn is_stale(&self, now: u128) -> (r: bool)
        ensures
            r == (now > self.spec_last_updated() + REFRESH_INTEVAL),
    {
        if now > self.last_updated {
            now - self.last_updated > REFRESH_INTEVAL
        } else {
            false
        }
    }

    /// The number of peers in the bucket.
    pub fn size(&self) -> (r: usize)
        ensures
            r == self.entries().len(),
    {
        pm_len(&self.nodes)
    }
}

/// The routing table: buckets of peers keyed by the binary prefix of their
/// XOR distance from the local peer, plus the local peer itself.
#[derive(Debug)]
pub struct RoutingTable {
    pub tree: Vec<(String, KBucket)>,
    pub local_info: PeerInfo,
}

impl RoutingTable {
    /// How many buckets the table holds.
    pub open spec fn n_buckets(&self) -> int {
        self.tree@.len() as int
    }

    /// The bucket prefixes, in bucket order.
    pub open spec fn keys(&self) -> Seq<Seq<char>> {
        Seq::new(self.tree@.len(), |i: int| self.tree@[i].0@)
    }

    /// The peers of bucket `i`, oldest insertion first.
    pub open spec fn bucket_entries(&self, i: int) -> Seq<PeerInfo> {
        self.tree@[i].1.entries()
    }

    /// The XOR distance from the local peer's key to `k`.
    pub open spec fn spec_dist(&self, k: Seq<u8>) -> Seq<u8> {
        spec_xor(self.local_info@.key, k)
    }

    /// Whether some bucket is keyed by this prefix.
    pub open spec fn has_key(&self, k: Seq<char>) -> bool {
        exists|i: int| 0 <= i < self.n_buckets() && self.keys()[i] == k
    }

    /// Whether some bucket holds a peer with this identity.
    pub open spec fn has_id(&self, id: Seq<char>) -> bool {
        exists|i: int|
            0 <= i < self.n_buckets() && entries_have_id(#[trigger] self.bucket_entries(i), id)
    }

    /// Whether exactly one bucket holds a peer with this identity.
    pub open spec fn id_in_one_bucket(&self, id: Seq<char>) -> bool {
        exists|i: int|
            {
                &&& 0 <= i < self.n_buckets()
                &&& entries_have_id(#[trigger] self.bucket_entries(i), id)
                &&& forall|j: int|
                    0 <= j < self.n_buckets() && entries_have_id(
                        #[trigger] self.bucket_entries(j),
                        id,
                    ) ==> j == i
            }
    }

    /// The table's standing shape: at least one bucket, distinct prefixes,
    /// well-formed buckets within capacity, no identity in two buckets, and
    /// every peer keyed by a prefix of its own distance.
    pub open spec fn wf(&self) -> bool {
        &&& self.unique_placement()
        &&& self.n_buckets() >= 1
        &&& forall|i: int, j: int| 0 <= i < j < self.n_buckets() ==> self.keys()[i] != self.keys()[j]
        &&& forall|i: int| 0 <= i < self.n_buckets() ==> (#[trigger] self.tree@[i]).1.wf()
        &&& forall|i: int|
            0 <= i < self.n_buckets() ==> (#[trigger] self.bucket_entries(i)).len()
                <= MAX_BUCKET_LEN
        &&& forall|i: int|
            0 <= i < self.n_buckets() ==> 1 <= (#[trigger] self.keys()[i]).len() <= 256
        &&& forall|i: int, e: int|
            #![trigger self.bucket_entries(i)[e]]
            0 <= i < self.n_buckets() && 0 <= e < self.bucket_entries(i).len() ==> self.keys()[i]
                == spec_prefix(
                self.spec_dist(self.bucket_entries(i)[e]@.key),
                self.keys()[i].len() - 1,
            )
    }

    /// No identity stands in two buckets.
    pub open spec fn unique_placement(&self) -> bool {
        forall|i: int, j: int, a: int, b: int|
            #![trigger self.bucket_entries(i)[a], self.bucket_entries(j)[b]]
            0 <= i < self.n_buckets() && 0 <= j < self.n_buckets() && i != j && 0 <= a
                < self.bucket_entries(i).len() && 0 <= b < self.bucket_entries(j).len()
                ==> self.bucket_entries(i)[a]@.id != self.bucket_entries(j)[b]@.id
    }

    /// A table holding only the local peer, in one bucket keyed by the
    /// prefix of the zero distance.
    pub fn new(local_info: PeerInfo) -> (r: RoutingTable)
        ensures
            r.wf(),
            r.n_buckets() == 1,
            r.keys()[0] == spec_prefix(spec_xor(local_info@.key, local_info@.key), 0),
            r.bucket_entries(0) == seq![local_info],
            r.local_info == local_info,
            r.has_id(local_info@.id),
            r.all_peers_spec() == seq![local_info],
    {
        let mut kbucket = KBucket::new();
        kbucket.upsert(&local_info, timestamp_now());
        let prefix = local_info.get_key().xor(local_info.get_key()).get_prefix(0);
        let mut tree: Vec<(String, KBucket)> = Vec::new();
        tree.push((prefix, kbucket));
        let r = RoutingTable { tree, local_info };
        proof {
            assert(r.bucket_entries(0) =~= seq![local_info]);
            assert(r.bucket_entries(0)[0] == local_info);
            assert(entries_have_id(r.bucket_entries(0), local_info@.id));
            assert(r.peers_upto(0) =~= Seq::<PeerInfo>::empty());
            assert(r.all_peers_spec() == r.peers_upto(0) + r.bucket_entries(0));
            assert(r.all_peers_spec() =~= seq![local_info]);
        }
        r
    }

    /// The index of the bucket keyed by this prefix, if any.
    fn find_bucket(&self, prefix: &String) -> (r: Option<usize>)
        ensures
            match r {
                Some(i) => i < self.n_buckets() && self.keys()[i as int] == prefix@,
                None => !self.has_key(prefix@),
            },
    {
        let mut i: usize = 0;
        while i < self.tree.len()
            invariant
                i <= self.tree@.len(),
                forall|j: int| 0 <= j < i ==> self.keys()[j] != prefix@,
            decreases self.tree@.len() - i,
        {
            let pair = &self.tree[i];
            if pair.0.eq(prefix) {
                return Some(i);
            }
            i += 1;
        }
        None
    }

    /// Place the peer. A peer whose identity the table already holds only
    /// has its bucket's update time refreshed, wherever it sits; it is never
    /// moved or duplicated. A fresh peer walks the prefixes of its distance
    /// from depth `traverse`, stopping at the first missing or unfilled
    /// bucket; a missing bucket is created, a full one sends the walk one
    /// level deeper, and the walk gives up past depth 255.
    pub fn update_peer(&mut self, peer_info: &PeerInfo, traverse: usize) -> (r: bool)
        requires
            old(self).wf(),
        ensures
            final (self).wf(),
            final (self).local_info == old(self).local_info,
            !r ==> *final (self) == *old(self),
            !r ==> forall|t: int|
                traverse <= t < 256 ==> old(self).has_key(
                    spec_prefix(old(self).spec_dist(peer_info@.key), t),
                ),
            r ==> final (self).has_id(peer_info@.id),
            forall|id: Seq<char>|
                id != peer_info@.id ==> (final (self).has_id(id) <==> old(self).has_id(id)),
            r ==> final (self).id_in_one_bucket(peer_info@.id),
            old(self).has_id(peer_info@.id) ==> (r && final (self).n_buckets() == old(
                self,
            ).n_buckets() && final (self).keys() == old(self).keys() && (forall|i: int|
                0 <= i < old(self).n_buckets() ==> final (self).bucket_entries(i) == old(
                    self,
                ).bucket_entries(i))),
            (traverse == 0 && old(self).n_buckets() < 256) ==> r,
            final (self).n_buckets() <= old(self).n_buckets() + 1,
            final (self).all_peers_spec().len() == old(self).all_peers_spec().len() + (if !old(
                self,
            ).has_id(peer_info@.id) && r {
                1int
            } else {
                0int
            }),
        decreases 256 - traverse,
    {
        let holder = self.find_holder(peer_info);
        match holder {
            Some(i) => {
                let ghost old_table = *self;
                let entry = &mut self.tree[i];
                entry.1.upsert(peer_info, timestamp_now());
                proof {
                    assert(entries_have_id(old_table.bucket_entries(i as int), peer_info@.id));
                    assert(self.bucket_entries(i as int) == old_table.bucket_entries(i as int));
                    lemma_after_bucket_change(old_table, *self, i as int, *peer_info);
                    lemma_peers_upto_len_delta(old_table, *self, i as int, old_table.n_buckets());
                    assert(self.keys() =~= old_table.keys());
                    assert forall|j: int|
                        0 <= j < old_table.n_buckets() implies self.bucket_entries(j)
                        == old_table.bucket_entries(j) by {
                        if j != i {
                            assert(self.tree@[j] == old_table.tree@[j]);
                        }
                    }
                    assert(final (self).has_id(peer_info@.id));
                    assert(old_table.has_id(peer_info@.id));
                    lemma_unique_gives_one_bucket(self, i as int, peer_info@.id);
                }
                true
            },
            None => self.place_fresh(peer_info, traverse),
        }
    }

    /// The walk that places a peer the table does not hold yet.
    fn place_fresh(&mut self, peer_info: &PeerInfo, traverse: usize) -> (r: bool)
        requires
            old(self).wf(),
            !old(self).has_id(peer_info@.id),
        ensures
            final (self).wf(),
            final (self).local_info == old(self).local_info,
            !r ==> *final (self) == *old(self),
            !r ==> forall|t: int|
                traverse <= t < 256 ==> old(self).has_key(
                    spec_prefix(old(self).spec_dist(peer_info@.key), t),
                ),
            r ==> final (self).has_id(peer_info@.id),
            forall|id: Seq<char>|
                id != peer_info@.id ==> (final (self).has_id(id) <==> old(self).has_id(id)),
            r ==> final (self).id_in_one_bucket(peer_info@.id),
            (traverse == 0 && old(self).n_buckets() < 256) ==> r,
            final (self).n_buckets() <= old(self).n_buckets() + 1,
            final (self).all_peers_spec().len() == old(self).all_peers_spec().len() + (if r {
                1int
            } else {
                0int
            }),
        decreases 256 - traverse,
    {
        if traverse >= 256 {
            return false;
        }
        let distance = self.local_info.get_key().xor(peer_info.get_key());
        let prefix = distance.get_prefix(traverse);
        let found = self.find_bucket(&prefix);
        match found {
            Some(i) => {
                let full = self.tree[i].1.is_full();
                if !full {
                    let ghost old_table = *self;
                    let entry = &mut self.tree[i];
                    entry.1.upsert(peer_info, timestamp_now());
                    proof {
                        assert(!entries_have_id(
                            old_table.bucket_entries(i as int),
                            peer_info@.id,
                        ));
                        lemma_after_bucket_change(old_table, *self, i as int, *peer_info);
                        lemma_peers_upto_len_delta(
                            old_table,
                            *self,
                            i as int,
                            old_table.n_buckets(),
                        );
                    }
                    true
                } else {
                    let r2 = self.place_fresh(peer_info, traverse + 1);
                    proof {
                        if !r2 && traverse == 0 && old(self).n_buckets() < 256 {
                            let d = old(self).spec_dist(peer_info@.key);
                            assert forall|ti: int| 0 <= ti < 256 implies old(self).has_key(
                                #[trigger] spec_prefix(d, ti),
                            ) by {
                                if ti == 0 {
                                    assert(old(self).keys()[i as int] == spec_prefix(d, 0));
                                }
                            }
                            lemma_full_path_needs_256(old(self), d);
                            assert(false);
                        }
                    }
                    r2
                }
            },
            None => {
                let ghost old_table = *self;
                let mut new_bucket = KBucket::new();
                new_bucket.upsert(peer_info, timestamp_now());
                self.tree.push((prefix, new_bucket));
                proof {
                    lemma_after_bucket_append(old_table, *self, *peer_info, prefix@, traverse as int);
                    lemma_peers_upto_same_prefix(old_table, *self, old_table.n_buckets());
                    assert(self.all_peers_spec() == self.peers_upto(self.n_buckets() - 1)
                        + self.bucket_entries(self.n_buckets() - 1));
                }
                true
            },
        }
    }

    /// The index of the bucket already holding this peer's identity, if any.
    fn find_holder(&self, peer: &PeerInfo) -> (r: Option<usize>)
        ensures
            match r {
                Some(i) => i < self.n_buckets() && entries_have_id(
                    self.bucket_entries(i as int),
                    peer@.id,
                ),
                None => !self.has_id(peer@.id),
            },
    {
        let mut i: usize = 0;
        while i < self.tree.len()
            invariant
                i <= self.tree@.len(),
                forall|j: int|
                    0 <= j < i ==> !entries_have_id(#[trigger] self.bucket_entries(j), peer@.id),
            decreases self.tree@.len() - i,
        {
            let pair = &self.tree[i];
            if pair.1.contains(peer) {
                proof {
                    assert(entries_have_id(self.bucket_entries(i as int), peer@.id));
                }
                return Some(i);
            }
            i += 1;
        }
        None
    }

    /// Whether no bucket holds the peer's identity.
    pub fn is_new(&self, peer: &PeerInfo) -> (r: bool)
        ensures
            r == !self.has_id(peer@.id),
    {
        let mut i: usize = 0;
        while i < self.tree.len()
            invariant
                i <= self.tree@.len(),
                forall|j: int|
                    0 <= j < i ==> !entries_have_id(#[trigger] self.bucket_entries(j), peer@.id),
            decreases self.tree@.len() - i,
        {
            let pair = &self.tree[i];
            if pair.1.contains(peer) {
                proof {
                    assert(entries_have_id(self.bucket_entries(i as int), peer@.id));
                }
                return false;
            }
            i += 1;
        }
        true
    }

    /// The number of buckets.
    pub fn size(&self) -> (r: usize)
        ensures
            r == self.n_buckets(),
    {
        self.tree.len()
    }
}

/// After replacing bucket `i`'s peers by the same peers with `p` appended
/// (or leaving them alone when `p`'s identity was already there), the
/// table's shape and placement facts carry over.
proof fn lemma_after_bucket_change(t0: RoutingTable, t1: RoutingTable, i: int, p: PeerInfo)
    requires
        t0.wf(),
        0 <= i < t0.n_buckets(),
        t1.bucket_entries(i) == t0.bucket_entries(i).push(p) ==> t0.bucket_entries(i).len()
            < MAX_BUCKET_LEN,
        t1.bucket_entries(i) == t0.bucket_entries(i).push(p) ==> !t0.has_id(p@.id),
        t1.n_buckets() == t0.n_buckets(),
        t1.local_info == t0.local_info,
        t1.keys() =~= t0.keys(),
        forall|j: int| 0 <= j < t0.n_buckets() && j != i ==> t1.tree@[j] == t0.tree@[j],
        t1.tree@[i].1.wf(),
        (t1.bucket_entries(i) == t0.bucket_entries(i) || t1.bucket_entries(i) == t0.bucket_entries(
            i,
        ).push(p)),
        t1.bucket_entries(i) == t0.bucket_entries(i).push(p) ==> t0.keys()[i] == spec_prefix(
            t0.spec_dist(p@.key),
            t0.keys()[i].len() - 1,
        ),
    ensures
        t1.wf(),
        t1.has_id(p@.id) || t1.bucket_entries(i) == t0.bucket_entries(i),
        t1.bucket_entries(i) == t0.bucket_entries(i).push(p) ==> t1.has_id(p@.id),
        forall|id: Seq<char>| id != p@.id ==> (t1.has_id(id) <==> t0.has_id(id)),
        (!t0.has_id(p@.id) && t0.unique_placement()) ==> t1.unique_placement(),
        (t1.bucket_entries(i) == t0.bucket_entries(i) && t0.unique_placement())
            ==> t1.unique_placement(),
        (!t0.has_id(p@.id) && t1.bucket_entries(i) == t0.bucket_entries(i).push(p))
            ==> t1.id_in_one_bucket(p@.id),
{
    let pushed = t1.bucket_entries(i) == t0.bucket_entries(i).push(p);
    assert forall|j: int| 0 <= j < t1.n_buckets() implies (#[trigger] t1.bucket_entries(j)).len()
        <= MAX_BUCKET_LEN by {
        if j != i {
            assert(t1.tree@[j] == t0.tree@[j]);
            assert(t1.bucket_entries(j) == t0.bucket_entries(j));
            assert(t0.bucket_entries(j).len() <= MAX_BUCKET_LEN);
        } else {
            if pushed {
                assert(t0.bucket_entries(i).len() < MAX_BUCKET_LEN);
                assert(t1.bucket_entries(i).len() == t0.bucket_entries(i).len() + 1);
            } else {
                assert(t1.bucket_entries(i).len() == t0.bucket_entries(i).len());
            }
        }
    }
    if pushed {
        assert(t1.bucket_entries(i)[t0.bucket_entries(i).len() as int] == p);
        assert(entries_have_id(t1.bucket_entries(i), p@.id));
    }
    assert forall|j: int, e: int|
        #![trigger t1.bucket_entries(j)[e]]
        0 <= j < t1.n_buckets() && 0 <= e < t1.bucket_entries(j).len() implies t1.keys()[j]
        == spec_prefix(t1.spec_dist(t1.bucket_entries(j)[e]@.key), t1.keys()[j].len() - 1) by {
        if j != i {
            assert(t1.tree@[j] == t0.tree@[j]);
            assert(t1.bucket_entries(j)[e] == t0.bucket_entries(j)[e]);
        } else {
            if e < t0.bucket_entries(i).len() {
                assert(t1.bucket_entries(i)[e] == t0.bucket_entries(i)[e]);
            } else {
                assert(pushed && t1.bucket_entries(i)[e] == p);
            }
        }
    }
    assert forall|id: Seq<char>| id != p@.id implies (t1.has_id(id) <==> t0.has_id(id)) by {
        if t1.has_id(id) {
            let j = choose|j: int|
                0 <= j < t1.n_buckets() && entries_have_id(#[trigger] t1.bucket_entries(j), id);
            if j != i {
                assert(t1.tree@[j] == t0.tree@[j]);
                assert(entries_have_id(t0.bucket_entries(j), id));
            } else {
                let e = choose|e: int|
                    0 <= e < t1.bucket_entries(i).len() && (#[trigger] t1.bucket_entries(
                        i,
                    )[e])@.id == id;
                if pushed && e == t0.bucket_entries(i).len() {
                    assert(t1.bucket_entries(i)[e] == p);
                } else {
                    assert(t1.bucket_entries(i)[e] == t0.bucket_entries(i)[e]);
                    assert(entries_have_id(t0.bucket_entries(i), id));
                }
            }
        }
        if t0.has_id(id) {
            let j = choose|j: int|
                0 <= j < t0.n_buckets() && entries_have_id(#[trigger] t0.bucket_entries(j), id);
            if j != i {
                assert(t1.tree@[j] == t0.tree@[j]);
                assert(entries_have_id(t1.bucket_entries(j), id));
            } else {
                let e = choose|e: int|
                    0 <= e < t0.bucket_entries(i).len() && (#[trigger] t0.bucket_entries(
                        i,
                    )[e])@.id == id;
                assert(t1.bucket_entries(i)[e] == t0.bucket_entries(i)[e]);
                assert(entries_have_id(t1.bucket_entries(i), id));
            }
        }
    }
    if t1.bucket_entries(i) == t0.bucket_entries(i) && t0.unique_placement() {
        assert forall|a: int, b: int, x: int, y: int|
            #![trigger t1.bucket_entries(a)[x], t1.bucket_entries(b)[y]]
            0 <= a < t1.n_buckets() && 0 <= b < t1.n_buckets() && a != b && 0 <= x
                < t1.bucket_entries(a).len() && 0 <= y < t1.bucket_entries(
                b,
            ).len() implies t1.bucket_entries(a)[x]@.id != t1.bucket_entries(b)[y]@.id by {
            if a != i {
                assert(t1.tree@[a] == t0.tree@[a]);
            }
            if b != i {
                assert(t1.tree@[b] == t0.tree@[b]);
            }
            assert(t1.bucket_entries(a)[x] == t0.bucket_entries(a)[x]);
            assert(t1.bucket_entries(b)[y] == t0.bucket_entries(b)[y]);
        }
    }
    if !t0.has_id(p@.id) && t0.unique_placement() {
        assert forall|a: int, b: int, x: int, y: int|
            #![trigger t1.bucket_entries(a)[x], t1.bucket_entries(b)[y]]
            0 <= a < t1.n_buckets() && 0 <= b < t1.n_buckets() && a != b && 0 <= x
                < t1.bucket_entries(a).len() && 0 <= y < t1.bucket_entries(
                b,
            ).len() implies t1.bucket_entries(a)[x]@.id != t1.bucket_entries(b)[y]@.id by {
            if a != i && b != i {
                assert(t1.tree@[a] == t0.tree@[a]);
                assert(t1.tree@[b] == t0.tree@[b]);
                assert(t1.bucket_entries(a)[x] == t0.bucket_entries(a)[x]);
                assert(t1.bucket_entries(b)[y] == t0.bucket_entries(b)[y]);
            } else if a == i {
                assert(t1.tree@[b] == t0.tree@[b]);
                assert(t1.bucket_entries(b)[y] == t0.bucket_entries(b)[y]);
                if pushed && x == t0.bucket_entries(i).len() {
                    assert(t1.bucket_entries(a)[x] == p);
                    assert(!entries_have_id(t0.bucket_entries(b), p@.id));
                    assert(t0.bucket_entries(b)[y]@.id != p@.id);
                } else {
                    assert(t1.bucket_entries(a)[x] == t0.bucket_entries(a)[x]);
                }
            } else {
                assert(t1.tree@[a] == t0.tree@[a]);
                assert(t1.bucket_entries(a)[x] == t0.bucket_entries(a)[x]);
                if pushed && y == t0.bucket_entries(i).len() {
                    assert(t1.bucket_entries(b)[y] == p);
                    assert(!entries_have_id(t0.bucket_entries(a), p@.id));
                    assert(t0.bucket_entries(a)[x]@.id != p@.id);
                } else {
                    assert(t1.bucket_entries(b)[y] == t0.bucket_entries(b)[y]);
                }
            }
        }
    }
    if !t0.has_id(p@.id) && pushed {
        assert forall|j: int|
            0 <= j < t1.n_buckets() && entries_have_id(
                #[trigger] t1.bucket_entries(j),
                p@.id,
            ) implies j == i by {
            if j != i {
                assert(t1.tree@[j] == t0.tree@[j]);
                assert(entries_have_id(t0.bucket_entries(j), p@.id));
            }
        }
    }
}

/// After appending a fresh bucket keyed by a new prefix and holding only
/// `p`, the table's shape and placement facts carry over.
proof fn lemma_after_bucket_append(
    t0: RoutingTable,
    t1: RoutingTable,
    p: PeerInfo,
    prefix: Seq<char>,
    traverse: int,
)
    requires
        t0.wf(),
        !t0.has_id(p@.id),
        0 <= traverse < 256,
        !t0.has_key(prefix),
        prefix == spec_prefix(t0.spec_dist(p@.key), traverse),
        prefix.len() == traverse + 1,
        t1.n_buckets() == t0.n_buckets() + 1,
        t1.local_info == t0.local_info,
        forall|j: int| 0 <= j < t0.n_buckets() ==> t1.tree@[j] == t0.tree@[j],
        t1.tree@[t0.n_buckets()].0@ == prefix,
        t1.tree@[t0.n_buckets()].1.wf(),
        t1.bucket_entries(t0.n_buckets()) == Seq::<PeerInfo>::empty().push(p),
    ensures
        t1.wf(),
        t1.has_id(p@.id),
        forall|id: Seq<char>| id != p@.id ==> (t1.has_id(id) <==> t0.has_id(id)),
        (!t0.has_id(p@.id) && t0.unique_placement()) ==> t1.unique_placement(),
        !t0.has_id(p@.id) ==> t1.id_in_one_bucket(p@.id),
{
    let n = t0.n_buckets();
    assert(t1.bucket_entries(n).len() == 1);
    assert(t1.bucket_entries(n)[0] == p);
    assert(entries_have_id(t1.bucket_entries(n), p@.id));
    assert forall|i: int, j: int| 0 <= i < j < t1.n_buckets() implies t1.keys()[i]
        != t1.keys()[j] by {
        if j == n {
            assert(t1.keys()[i] == t0.keys()[i]);
            assert(!t0.has_key(prefix));
        } else {
            assert(t1.keys()[i] == t0.keys()[i]);
            assert(t1.keys()[j] == t0.keys()[j]);
        }
    }
    assert forall|j: int, e: int|
        #![trigger t1.bucket_entries(j)[e]]
        0 <= j < t1.n_buckets() && 0 <= e < t1.bucket_entries(j).len() implies t1.keys()[j]
        == spec_prefix(t1.spec_dist(t1.bucket_entries(j)[e]@.key), t1.keys()[j].len() - 1) by {
        if j < n {
            assert(t1.tree@[j] == t0.tree@[j]);
            assert(t1.bucket_entries(j)[e] == t0.bucket_entries(j)[e]);
            assert(t1.keys()[j] == t0.keys()[j]);
        } else {
            assert(t1.bucket_entries(j)[e] == p);
            assert(t1.keys()[j] == prefix);
        }
    }
    assert forall|i: int| 0 <= i < t1.n_buckets() implies (#[trigger] t1.bucket_entries(i)).len()
        <= MAX_BUCKET_LEN by {
        if i < n {
            assert(t1.tree@[i] == t0.tree@[i]);
            assert(t1.bucket_entries(i) == t0.bucket_entries(i));
            assert(t0.bucket_entries(i).len() <= MAX_BUCKET_LEN);
        } else {
            assert(t1.bucket_entries(i).len() == 1);
        }
    }
    assert forall|i: int| 0 <= i < t1.n_buckets() implies 1 <= (#[trigger] t1.keys()[i]).len()
        <= 256 by {
        if i < n {
            assert(t1.keys()[i] == t0.keys()[i]);
        }
    }
    assert forall|i: int| 0 <= i < t1.n_buckets() implies (#[trigger] t1.tree@[i]).1.wf() by {
        if i < n {
            assert(t1.tree@[i] == t0.tree@[i]);
        }
    }
    assert forall|id: Seq<char>| id != p@.id implies (t1.has_id(id) <==> t0.has_id(id)) by {
        if t1.has_id(id) {
            let j = choose|j: int|
                0 <= j < t1.n_buckets() && entries_have_id(#[trigger] t1.bucket_entries(j), id);
            if j == n {
                let e = choose|e: int|
                    0 <= e < t1.bucket_entries(n).len() && (#[trigger] t1.bucket_entries(
                        n,
                    )[e])@.id == id;
                assert(t1.bucket_entries(n)[e] == p);
            } else {
                assert(t1.tree@[j] == t0.tree@[j]);
                assert(entries_have_id(t0.bucket_entries(j), id));
            }
        }
        if t0.has_id(id) {
            let j = choose|j: int|
                0 <= j < t0.n_buckets() && entries_have_id(#[trigger] t0.bucket_entries(j), id);
            assert(t1.tree@[j] == t0.tree@[j]);
            assert(entries_have_id(t1.bucket_entries(j), id));
        }
    }
    if !t0.has_id(p@.id) && t0.unique_placement() {
        assert forall|a: int, b: int, x: int, y: int|
            #![trigger t1.bucket_entries(a)[x], t1.bucket_entries(b)[y]]
            0 <= a < t1.n_buckets() && 0 <= b < t1.n_buckets() && a != b && 0 <= x
                < t1.bucket_entries(a).len() && 0 <= y < t1.bucket_entries(
                b,
            ).len() implies t1.bucket_entries(a)[x]@.id != t1.bucket_entries(b)[y]@.id by {
            if a < n && b < n {
                assert(t1.tree@[a] == t0.tree@[a]);
                assert(t1.tree@[b] == t0.tree@[b]);
                assert(t1.bucket_entries(a)[x] == t0.bucket_entries(a)[x]);
                assert(t1.bucket_entries(b)[y] == t0.bucket_entries(b)[y]);
            } else if a == n {
                assert(t1.bucket_entries(a)[x] == p);
                assert(t1.tree@[b] == t0.tree@[b]);
                assert(t1.bucket_entries(b)[y] == t0.bucket_entries(b)[y]);
                assert(!entries_have_id(t0.bucket_entries(b), p@.id));
            } else {
                assert(t1.bucket_entries(b)[y] == p);
                assert(t1.tree@[a] == t0.tree@[a]);
                assert(t1.bucket_entries(a)[x] == t0.bucket_entries(a)[x]);
                assert(!entries_have_id(t0.bucket_entries(a), p@.id));
            }
        }
    }
    if !t0.has_id(p@.id) {
        assert forall|j: int|
            0 <= j < t1.n_buckets() && entries_have_id(
                #[trigger] t1.bucket_entries(j),
                p@.id,
            ) implies j == n by {
            if j != n {
                assert(t1.tree@[j] == t0.tree@[j]);
                assert(entries_have_id(t0.bucket_entries(j), p@.id));
            }
        }
    }
}

impl RoutingTable {
    /// The peers of the first `k` buckets, joined in bucket order.
    pub open spec fn peers_upto(&self, k: int) -> Seq<PeerInfo>
        decreases k,
    {
        if k <= 0 {
            Seq::empty()
        } else {
            self.peers_upto(k - 1) + self.bucket_entries(k - 1)
        }
    }

    /// Every peer of the table, in bucket order.
    pub open spec fn all_peers_spec(&self) -> Seq<PeerInfo> {
        self.peers_upto(self.n_buckets())
    }

    /// Whether the prefix lies on the distance path from the local peer to
    /// the target key.
    pub open spec fn is_path_key(&self, k: Seq<char>, target: Seq<u8>) -> bool {
        k == spec_prefix(self.spec_dist(target), k.len() - 1)
    }

    /// The peers of the path buckets among the first `k`, in bucket order.
    pub open spec fn matched_upto(&self, target: Seq<u8>, k: int) -> Seq<PeerInfo>
        decreases k,
    {
        if k <= 0 {
            Seq::empty()
        } else if self.is_path_key(self.keys()[k - 1], target) {
            self.matched_upto(target, k - 1) + self.bucket_entries(k - 1)
        } else {
            self.matched_upto(target, k - 1)
        }
    }

    /// The peers of all path buckets.
    pub open spec fn matched_peers(&self, target: Seq<u8>) -> Seq<PeerInfo> {
        self.matched_upto(target, self.n_buckets())
    }

    /// Whether some bucket lies on the distance path to the target.
    pub open spec fn any_path_bucket(&self, target: Seq<u8>) -> bool {
        exists|i: int|
            0 <= i < self.n_buckets() && self.is_path_key(#[trigger] self.keys()[i], target)
    }

    /// Whether the lookup falls back to sorting the whole table: no bucket
    /// on the distance path, or too few peers in them.
    pub open spec fn fallback_taken(&self, target: Seq<u8>, count: int) -> bool {
        !self.any_path_bucket(target) || self.matched_peers(target).len() < count
    }

    /// The depth of the bucket addressed for removals: the leading-zero
    /// count of the distance, capped by the bucket count and the key width.
    pub open spec fn removal_depth(&self, target: Seq<u8>) -> int {
        let lz = crate::key::spec_lz(self.spec_dist(target));
        let c = if lz <= self.n_buckets() - 1 {
            lz
        } else {
            self.n_buckets() - 1
        };
        if c <= 255 {
            c
        } else {
            255
        }
    }

    /// The number of peers across all buckets.
    pub fn total_peers(&self) -> (r: usize)
        requires
            self.all_peers_spec().len() <= usize::MAX,
        ensures
            r == self.all_peers_spec().len(),
    {
        let mut sum: usize = 0;
        let mut i: usize = 0;
        while i < self.tree.len()
            invariant
                i <= self.tree@.len(),
                sum == self.peers_upto(i as int).len(),
                self.all_peers_spec().len() <= usize::MAX,
            decreases self.tree@.len() - i,
        {
            proof {
                lemma_peers_upto_len_mono(self, i + 1, self.n_buckets());
            }
            let pair = &self.tree[i];
            sum = sum + pair.1.size();
            i += 1;
        }
        sum
    }

    /// Every peer of the table, bucket by bucket in insertion order.
    pub fn get_all_peers(&self) -> (r: Vec<PeerInfo>)
        ensures
            r@ == self.all_peers_spec(),
    {
        let mut out: Vec<PeerInfo> = Vec::new();
        let mut i: usize = 0;
        while i < self.tree.len()
            invariant
                i <= self.tree@.len(),
                out@ == self.peers_upto(i as int),
            decreases self.tree@.len() - i,
        {
            let pair = &self.tree[i];
            let nodes = pair.1.get_nodes();
            push_all(&mut out, &nodes);
            i += 1;
        }
        out
    }

    /// Up to `count` peers closest to the given peer by XOR distance. A
    /// table with fewer peers returns them all; otherwise exactly `count`
    /// are returned, drawn from the buckets along the distance path when
    /// they hold enough, else from the whole table sorted by distance.
    pub fn get_closest_peers(&self, peer_info: PeerInfo, count: usize) -> (r: Vec<PeerInfo>)
        requires
            self.wf(),
            self.all_peers_spec().len() <= usize::MAX,
        ensures
            self.all_peers_spec().len() < count ==> r@ == self.all_peers_spec(),
            self.all_peers_spec().len() >= count ==> r@.len() == count,
            self.all_peers_spec().len() >= count ==> sorted_by_dist(r@, peer_info@.key),
            forall|i: int| 0 <= i < r@.len() ==> self.all_peers_spec().contains(#[trigger] r@[i]),
            distinct_ids(r@),
            (self.all_peers_spec().len() >= count && !self.fallback_taken(
                peer_info@.key,
                count as int,
            )) ==> forall|i: int|
                0 <= i < r@.len() ==> self.matched_peers(peer_info@.key).contains(
                    #[trigger] r@[i],
                ),
            (self.all_peers_spec().len() >= count && self.fallback_taken(
                peer_info@.key,
                count as int,
            )) ==> exists|rest: Seq<PeerInfo>|
                (r@ + rest).to_multiset() == self.all_peers_spec().to_multiset() && sorted_by_dist(
                    r@ + rest,
                    peer_info@.key,
                ),
    {
        broadcast use vstd::seq_lib::group_to_multiset_ensures;

        let total = self.total_peers();
        if total < count {
            let r = self.get_all_peers();
            proof {
                assert forall|i: int| 0 <= i < r@.len() implies self.all_peers_spec().contains(
                    #[trigger] r@[i],
                ) by {
                    assert(self.all_peers_spec()[i] == r@[i]);
                }
                lemma_all_peers_distinct_ids(self);
            }
            return r;
        }
        let target_key = peer_info.get_key();
        let distance = self.local_info.get_key().xor(target_key);
        let ghost target = peer_info@.key;
        let mut matched: Vec<(usize, Vec<PeerInfo>)> = Vec::new();
        let ghost mut bmap: Seq<int> = Seq::empty();
        let mut matched_count: usize = 0;
        let mut i: usize = 0;
        while i < self.tree.len()
            invariant
                self.wf(),
                i <= self.tree@.len(),
                target_key@ == target,
                distance@ == self.spec_dist(target),
                self.all_peers_spec().len() <= usize::MAX,
                matched_count == self.matched_upto(target, i as int).len(),
                sum_pairs(matched@) == matched_count,
                (matched@.len() > 0) <==> (exists|j: int|
                    0 <= j < i && self.is_path_key(#[trigger] self.keys()[j], target)),
                bmap.len() == matched@.len(),
                forall|x: int| 0 <= x < bmap.len() ==> #[trigger] bmap[x] < i,
                forall|x: int, y: int| 0 <= x < y < bmap.len() ==> bmap[x] != bmap[y],
                forall|x: int|
                    0 <= x < matched@.len() ==> 0 <= #[trigger] bmap[x] < self.n_buckets()
                        && matched@[x].1@ == self.bucket_entries(bmap[x]),
                forall|x: int|
                    0 <= x < bmap.len() ==> self.is_path_key(
                        self.keys()[#[trigger] bmap[x]],
                        target,
                    ),
            decreases self.tree@.len() - i,
        {
            proof {
                lemma_matched_le_all(self, target, i + 1);
                lemma_peers_upto_len_mono(self, i + 1, self.n_buckets());
                assert(1 <= self.keys()[i as int].len() <= 256);
            }
            let pair = &self.tree[i];
            let klen = pair.0.as_str().unicode_len();
            let prefix = distance.get_prefix(klen - 1);
            if pair.0.eq(&prefix) {
                proof {
                    assert(self.is_path_key(self.keys()[i as int], target));
                }
                let nodes = pair.1.get_nodes();
                let ghost old_matched = matched@;
                matched_count = matched_count + nodes.len();
                matched.push((klen, nodes));
                proof {
                    bmap = bmap.push(i as int);
                    lemma_sum_pairs_push(old_matched, matched@[matched@.len() - 1]);
                    assert(matched@ == old_matched.push(matched@[matched@.len() - 1]));
                    assert(self.matched_upto(target, i + 1) == self.matched_upto(target, i as int)
                        + self.bucket_entries(i as int));
                    assert(matched@[matched@.len() - 1].1@ == self.bucket_entries(i as int));
                }
            } else {
                proof {
                    assert(!self.is_path_key(self.keys()[i as int], target));
                    assert(self.matched_upto(target, i + 1) == self.matched_upto(
                        target,
                        i as int,
                    ));
                }
            }
            i += 1;
        }
        if matched.len() == 0 || matched_count < count {
            proof {
                assert(self.fallback_taken(target, count as int));
            }
            let all = self.get_all_peers();
            let sorted = sort_by_distance(all, &target_key);
            let mut out: Vec<PeerInfo> = Vec::new();
            let mut k: usize = 0;
            while k < count
                invariant
                    k <= count,
                    count <= sorted@.len(),
                    out@ == sorted@.take(k as int),
                decreases count - k,
            {
                out.push(sorted[k].clone());
                proof {
                    assert(out@ =~= sorted@.take(k + 1));
                }
                k += 1;
            }
            proof {
                let rest = sorted@.skip(count as int);
                assert(out@ + rest =~= sorted@);
                assert((out@ + rest).to_multiset() == self.all_peers_spec().to_multiset());
                assert forall|x: int| 0 <= x < out@.len() implies self.all_peers_spec().contains(
                    #[trigger] out@[x],
                ) by {
                    assert(out@[x] == sorted@[x]);
                    assert(sorted@.contains(sorted@[x]));
                    assert(sorted@.to_multiset().count(sorted@[x]) > 0);
                    assert(self.all_peers_spec().to_multiset().count(sorted@[x]) > 0);
                }
                assert forall|a: int, b: int| 0 <= a < b < out@.len() implies dist_le(
                    #[trigger] out@[a],
                    #[trigger] out@[b],
                    target,
                ) by {
                    assert(out@[a] == sorted@[a] && out@[b] == sorted@[b]);
                }
                lemma_all_peers_distinct_ids(self);
                lemma_distinct_ids_multiset(self.all_peers_spec(), sorted@);
                assert forall|a: int, b: int| 0 <= a < b < out@.len() implies (
                #[trigger] out@[a])@.id != (#[trigger] out@[b])@.id by {
                    assert(out@[a] == sorted@[a] && out@[b] == sorted@[b]);
                }
            }
            return out;
        }
        let mut acc: Vec<PeerInfo> = Vec::new();
        let mut rem = matched;
        let ghost mut rmap: Seq<int> = bmap;
        while acc.len() < count
            invariant
                self.wf(),
                count <= matched_count,
                acc@.len() + sum_pairs(rem@) == matched_count,
                forall|x: int|
                    0 <= x < acc@.len() ==> self.all_peers_spec().contains(#[trigger] acc@[x]),
                forall|x: int|
                    0 <= x < acc@.len() ==> self.matched_peers(target).contains(
                        #[trigger] acc@[x],
                    ),
                forall|x: int|
                    0 <= x < rmap.len() ==> self.is_path_key(
                        self.keys()[#[trigger] rmap[x]],
                        target,
                    ),
                rmap.len() == rem@.len(),
                forall|x: int, y: int| 0 <= x < y < rmap.len() ==> rmap[x] != rmap[y],
                forall|x: int|
                    0 <= x < rem@.len() ==> 0 <= #[trigger] rmap[x] < self.n_buckets()
                        && rem@[x].1@ == self.bucket_entries(rmap[x]),
                distinct_ids(acc@),
                forall|a: int, x: int, e: int|
                    #![trigger acc@[a], rem@[x].1@[e]]
                    0 <= a < acc@.len() && 0 <= x < rem@.len() && 0 <= e < rem@[x].1@.len()
                        ==> acc@[a]@.id != rem@[x].1@[e]@.id,
            decreases rem@.len(),
        {
            proof {
                if rem@.len() == 0 {
                    assert(sum_pairs(rem@) == 0);
                    assert(false);
                }
            }
            let mut m: usize = 0;
            let mut k2: usize = 1;
            while k2 < rem.len()
                invariant
                    rem@.len() > 0,
                    m < k2,
                    k2 <= rem@.len(),
                    forall|t: int| 0 <= t < k2 ==> rem@[m as int].0 >= (#[trigger] rem@[t]).0,
                decreases rem@.len() - k2,
            {
                if rem[k2].0 > rem[m].0 {
                    m = k2;
                }
                k2 += 1;
            }
            let ghost old_rem = rem@;
            let ghost old_rmap = rmap;
            let ghost old_acc = acc@;
            let ghost jb = rmap[m as int];
            let pair = rem.remove(m);
            let nodes = pair.1;
            proof {
                rmap = rmap.remove(m as int);
                lemma_sum_pairs_remove(old_rem, m as int);
                lemma_bucket_peers_in_all(self, jb, self.n_buckets());
            }
            push_all(&mut acc, &nodes);
            proof {
                assert(nodes@ == self.bucket_entries(jb));
                assert forall|x: int| 0 <= x < acc@.len() implies self.all_peers_spec().contains(
                    #[trigger] acc@[x],
                ) by {
                    if x >= old_acc.len() {
                        assert(acc@[x] == self.bucket_entries(jb)[x - old_acc.len()]);
                        assert(self.peers_upto(self.n_buckets()).contains(
                            self.bucket_entries(jb)[x - old_acc.len()],
                        ));
                    } else {
                        assert(acc@[x] == old_acc[x]);
                    }
                }
                assert(self.is_path_key(self.keys()[jb], target));
                lemma_path_bucket_in_matched(self, target, jb, self.n_buckets());
                assert forall|x: int| 0 <= x < acc@.len() implies self.matched_peers(
                    target,
                ).contains(#[trigger] acc@[x]) by {
                    if x >= old_acc.len() {
                        assert(acc@[x] == self.bucket_entries(jb)[x - old_acc.len()]);
                    } else {
                        assert(acc@[x] == old_acc[x]);
                    }
                }
                assert forall|x: int|
                    0 <= x < rem@.len() implies 0 <= #[trigger] rmap[x] < self.n_buckets()
                    && rem@[x].1@ == self.bucket_entries(rmap[x]) by {
                    if x < m as int {
                        assert(rem@[x] == old_rem[x] && rmap[x] == old_rmap[x]);
                    } else {
                        assert(rem@[x] == old_rem[x + 1] && rmap[x] == old_rmap[x + 1]);
                    }
                }
                assert forall|x: int, y: int| 0 <= x < y < rmap.len() implies rmap[x]
                    != rmap[y] by {
                    let x0 = if x < m as int {
                        x
                    } else {
                        x + 1
                    };
                    let y0 = if y < m as int {
                        y
                    } else {
                        y + 1
                    };
                    assert(rmap[x] == old_rmap[x0] && rmap[y] == old_rmap[y0]);
                }
                assert(self.tree@[jb].1.wf());
                assert forall|a: int, b: int|
                    0 <= a < b < acc@.len() implies (#[trigger] acc@[a])@.id != (
                #[trigger] acc@[b])@.id by {
                    if b < old_acc.len() {
                        assert(acc@[a] == old_acc[a] && acc@[b] == old_acc[b]);
                    } else if a < old_acc.len() {
                        assert(acc@[a] == old_acc[a]);
                        assert(acc@[b] == old_rem[m as int].1@[b - old_acc.len()]);
                    } else {
                        assert(acc@[a] == self.bucket_entries(jb)[a - old_acc.len()]);
                        assert(acc@[b] == self.bucket_entries(jb)[b - old_acc.len()]);
                    }
                }
                assert forall|a: int, x: int, e: int|
                    #![trigger acc@[a], rem@[x].1@[e]]
                    0 <= a < acc@.len() && 0 <= x < rem@.len() && 0 <= e
                        < rem@[x].1@.len() implies acc@[a]@.id != rem@[x].1@[e]@.id by {
                    let x0 = if x < m as int {
                        x
                    } else {
                        x + 1
                    };
                    assert(rem@[x] == old_rem[x0] && rmap[x] == old_rmap[x0]);
                    if a < old_acc.len() {
                        assert(acc@[a] == old_acc[a]);
                        assert(old_acc[a]@.id != old_rem[x0].1@[e]@.id);
                    } else {
                        assert(acc@[a] == self.bucket_entries(jb)[a - old_acc.len()]);
                        assert(rmap[x] != jb);
                        assert(rem@[x].1@[e] == self.bucket_entries(rmap[x])[e]);
                        assert(self.bucket_entries(jb)[a - old_acc.len()]@.id
                            != self.bucket_entries(rmap[x])[e]@.id);
                    }
                }
            }
        }
        let ghost gacc = acc@;
        let sorted = sort_by_distance(acc, &target_key);
        let ghost gsorted = sorted@;
        let mut out: Vec<PeerInfo> = Vec::new();
        let mut k: usize = 0;
        while k < count
            invariant
                k <= count,
                count <= sorted@.len(),
                sorted@ == gsorted,
                out@ == sorted@.take(k as int),
            decreases count - k,
        {
            out.push(sorted[k].clone());
            proof {
                assert(out@ =~= sorted@.take(k + 1));
            }
            k += 1;
        }
        proof {
            assert(self.any_path_bucket(target));
            assert(!self.fallback_taken(target, count as int));
            assert forall|x: int| 0 <= x < out@.len() implies self.all_peers_spec().contains(
                #[trigger] out@[x],
            ) by {
                assert(out@[x] == sorted@[x]);
                assert(sorted@.contains(sorted@[x]));
                assert(sorted@.to_multiset().count(sorted@[x]) > 0);
            }
            assert forall|x: int| 0 <= x < out@.len() implies self.matched_peers(
                target,
            ).contains(#[trigger] out@[x]) by {
                assert(out@[x] == sorted@[x]);
                assert(sorted@.contains(sorted@[x]));
                assert(sorted@.to_multiset().count(sorted@[x]) > 0);
                assert(gacc.to_multiset().count(sorted@[x]) > 0);
                assert(gacc.contains(sorted@[x]));
                let w = choose|w: int| 0 <= w < gacc.len() && gacc[w] == sorted@[x];
                assert(self.matched_peers(target).contains(gacc[w]));
            }
            lemma_distinct_ids_multiset(gacc, sorted@);
            assert forall|a: int, b: int| 0 <= a < b < out@.len() implies (
            #[trigger] out@[a])@.id != (#[trigger] out@[b])@.id by {
                assert(out@[a] == sorted@[a] && out@[b] == sorted@[b]);
            }
            assert forall|a: int, b: int| 0 <= a < b < out@.len() implies dist_le(
                #[trigger] out@[a],
                #[trigger] out@[b],
                target,
            ) by {
                assert(out@[a] == sorted@[a] && out@[b] == sorted@[b]);
            }
        }
        out
    }

    /// Remove the oldest-inserted peer of the bucket addressed by the key's
    /// distance from the local peer.
    pub fn remove_lru(&mut self, peer_key: &[u8; 32]) -> (r: Option<PeerInfo>)
        requires
            old(self).wf(),
        ensures
            final (self).wf(),
            final (self).n_buckets() == old(self).n_buckets(),
            final (self).keys() == old(self).keys(),
            final (self).local_info == old(self).local_info,
            ({
                let k = spec_prefix(
                    old(self).spec_dist(peer_key@),
                    old(self).removal_depth(peer_key@),
                );
                if old(self).has_key(k) {
                    exists|i: int|
                        {
                            &&& 0 <= i < old(self).n_buckets()
                            &&& old(self).keys()[i] == k
                            &&& (forall|j: int|
                                0 <= j < old(self).n_buckets() && j != i ==> final (self).tree@[j]
                                    == old(self).tree@[j])
                            &&& match r {
                                Some(p) => old(self).bucket_entries(i).len() > 0 && p == old(
                                    self,
                                ).bucket_entries(i)[0] && final (self).bucket_entries(i) == old(
                                    self,
                                ).bucket_entries(i).drop_first(),
                                None => old(self).bucket_entries(i).len() == 0 && final (
                                self).bucket_entries(i) == old(self).bucket_entries(i),
                            }
                        }
                } else {
                    r is None && *final (self) == *old(self)
                }
            }),
    {
        let distance = self.local_info.get_key().xor(Key::new(*peer_key));
        let lz = distance.leading_zeros();
        let tl = self.tree.len();
        let mut index = if lz <= tl - 1 {
            lz
        } else {
            tl - 1
        };
        if index > 255 {
            index = 255;
        }
        proof {
            assert(index as int == old(self).removal_depth(peer_key@));
        }
        let prefix = distance.get_prefix(index);
        let found = self.find_bucket(&prefix);
        match found {
            Some(i) => {
                let ghost t0 = *self;
                let entry = &mut self.tree[i];
                let r = entry.1.remove_lru();
                proof {
                    assert(self.keys() =~= t0.keys());
                    if r is Some {
                        assert(t0.bucket_entries(i as int).len() > 0 && self.bucket_entries(
                            i as int,
                        ) == t0.bucket_entries(i as int).drop_first());
                    } else {
                        assert(self.bucket_entries(i as int) == t0.bucket_entries(i as int));
                    }
                    lemma_after_bucket_shrink(t0, *self, i as int);
                }
                r
            },
            None => None,
        }
    }

    /// Remove the peer from the bucket addressed by its key's distance from
    /// the local peer.
    pub fn remove_peer(&mut self, peer_info: &PeerInfo)
        requires
            old(self).wf(),
        ensures
            final (self).wf(),
            final (self).n_buckets() == old(self).n_buckets(),
            final (self).keys() == old(self).keys(),
            final (self).local_info == old(self).local_info,
            ({
                let k = spec_prefix(
                    old(self).spec_dist(peer_info@.key),
                    old(self).removal_depth(peer_info@.key),
                );
                if old(self).has_key(k) {
                    exists|i: int|
                        {
                            &&& 0 <= i < old(self).n_buckets()
                            &&& old(self).keys()[i] == k
                            &&& (forall|j: int|
                                0 <= j < old(self).n_buckets() && j != i ==> final (self).tree@[j]
                                    == old(self).tree@[j])
                            &&& (final (self).bucket_entries(i) == old(self).bucket_entries(i)
                                || exists|e: int|
                                {
                                    &&& 0 <= e < old(self).bucket_entries(i).len()
                                    &&& (#[trigger] old(self).bucket_entries(i)[e])@.id
                                        == peer_info@.id
                                    &&& final (self).bucket_entries(i) == old(self).bucket_entries(
                                        i,
                                    ).remove(e)
                                })
                        }
                } else {
                    *final (self) == *old(self)
                }
            }),
    {
        let distance = self.local_info.get_key().xor(peer_info.get_key());
        let lz = distance.leading_zeros();
        let tl = self.tree.len();
        let mut index = if lz <= tl - 1 {
            lz
        } else {
            tl - 1
        };
        if index > 255 {
            index = 255;
        }
        proof {
            assert(index as int == old(self).removal_depth(peer_info@.key));
        }
        let prefix = distance.get_prefix(index);
        let found = self.find_bucket(&prefix);
        match found {
            Some(i) => {
                let ghost t0 = *self;
                let entry = &mut self.tree[i];
                let r = entry.1.remove_peer(peer_info);
                proof {
                    assert(self.keys() =~= t0.keys());
                    if r is Some {
                        let e = choose|e: int|
                            {
                                &&& 0 <= e < t0.bucket_entries(i as int).len()
                                &&& (#[trigger] t0.bucket_entries(i as int)[e])@.id
                                    == peer_info@.id
                                &&& r->Some_0 == t0.bucket_entries(i as int)[e]
                                &&& self.bucket_entries(i as int) == t0.bucket_entries(
                                    i as int,
                                ).remove(e)
                            };
                        assert(0 <= e < t0.bucket_entries(i as int).len() && self.bucket_entries(
                            i as int,
                        ) == t0.bucket_entries(i as int).remove(e));
                    } else {
                        assert(self.bucket_entries(i as int) == t0.bucket_entries(i as int));
                    }
                    lemma_after_bucket_shrink(t0, *self, i as int);
                }
                let _ = r;
            },
            None => {},
        }
    }

    /// The positions of the buckets that have gone stale by the given
    /// wall-clock time.
    pub fn get_stale_indices(&self, now: u128) -> (r: Vec<usize>)
        ensures
            forall|x: int|
                0 <= x < r@.len() ==> (#[trigger] r@[x]) < self.n_buckets() && now > self.tree@[r@[x] as int].1.spec_last_updated() + REFRESH_INTEVAL,
            forall|b: int|
                0 <= b < self.n_buckets() && now > (#[trigger] self.tree@[b]).1.spec_last_updated()
                    + REFRESH_INTEVAL ==> r@.contains(b as usize),
    {
        let mut out: Vec<usize> = Vec::new();
        let mut i: usize = 0;
        while i < self.tree.len()
            invariant
                i <= self.tree@.len(),
                forall|x: int|
                    0 <= x < out@.len() ==> (#[trigger] out@[x]) < self.n_buckets() && now > self.tree@[out@[x] as int].1.spec_last_updated() + REFRESH_INTEVAL,
                forall|b: int|
                    0 <= b < i && now > (#[trigger] self.tree@[b]).1.spec_last_updated()
                        + REFRESH_INTEVAL ==> out@.contains(b as usize),
            decreases self.tree@.len() - i,
        {
            let pair = &self.tree[i];
            if pair.1.is_stale(now) {
                let ghost old_out = out@;
                out.push(i);
                proof {
                    assert(out@[out@.len() - 1] == i);
                    assert forall|b: int|
                        0 <= b < i + 1 && now > (#[trigger] self.tree@[b]).1.spec_last_updated()
                            + REFRESH_INTEVAL implies out@.contains(b as usize) by {
                        if b < i {
                            let x = choose|x: int|
                                0 <= x < old_out.len() && old_out[x] == b as usize;
                            assert(out@[x] == b as usize);
                        } else {
                            assert(out@[out@.len() - 1] == b as usize);
                        }
                    }
                }
            } else {
                proof {
                    assert forall|b: int|
                        0 <= b < i + 1 && now > (#[trigger] self.tree@[b]).1.spec_last_updated()
                            + REFRESH_INTEVAL implies out@.contains(b as usize) by {
                        assert(b < i);
                    }
                }
            }
            i += 1;
        }
        out
    }
}

/// Whether no two peers of the list share an identity.
pub open spec fn distinct_ids(s: Seq<PeerInfo>) -> bool {
    forall|a: int, b: int| 0 <= a < b < s.len() ==> (#[trigger] s[a])@.id != (#[trigger] s[b])@.id
}

/// Whether `a` stands no farther from the target than `b` in XOR distance.
pub open spec fn dist_le(a: PeerInfo, b: PeerInfo, target: Seq<u8>) -> bool {
    lex_le(spec_xor(a@.key, target), spec_xor(b@.key, target))
}

/// Whether the peers stand in ascending XOR distance from the target.
pub open spec fn sorted_by_dist(s: Seq<PeerInfo>, target: Seq<u8>) -> bool {
    forall|i: int, j: int|
        0 <= i < j < s.len() ==> dist_le(#[trigger] s[i], #[trigger] s[j], target)
}

/// Whether `a` stands no farther from `target` than `b`.
fn peer_dist_le(a: &PeerInfo, b: &PeerInfo, target: &Key) -> (r: bool)
    ensures
        r == dist_le(*a, *b, target@),
{
    let da = a.xor(*target);
    let db = b.xor(*target);
    da.le(&db)
}

proof fn lemma_dist_total(a: PeerInfo, b: PeerInfo, target: Seq<u8>)
    ensures
        dist_le(a, b, target) || dist_le(b, a, target),
{
    crate::key::lemma_lex_total(spec_xor(a@.key, target), spec_xor(b@.key, target));
}

proof fn lemma_dist_trans(a: PeerInfo, b: PeerInfo, c: PeerInfo, target: Seq<u8>)
    requires
        dist_le(a, b, target),
        dist_le(b, c, target),
    ensures
        dist_le(a, c, target),
{
    crate::key::lemma_lex_trans(
        spec_xor(a@.key, target),
        spec_xor(b@.key, target),
        spec_xor(c@.key, target),
    );
}

/// Append clones of all peers of `src`.
fn push_all(dst: &mut Vec<PeerInfo>, src: &Vec<PeerInfo>)
    ensures
        final (dst)@ == old(dst)@ + src@,
{
    let mut i: usize = 0;
    while i < src.len()
        invariant
            i <= src@.len(),
            dst@ == old(dst)@ + src@.take(i as int),
        decreases src@.len() - i,
    {
        dst.push(src[i].clone());
        proof {
            assert(old(dst)@ + src@.take(i as int) + seq![src@[i as int]] =~= old(dst)@
                + src@.take(i + 1));
        }
        i += 1;
    }
    proof {
        assert(src@.take(src@.len() as int) =~= src@);
    }
}

/// Arrange the peers in ascending XOR distance from the target key.
fn sort_by_distance(v: Vec<PeerInfo>, target: &Key) -> (r: Vec<PeerInfo>)
    ensures
        r@.len() == v@.len(),
        r@.to_multiset() == v@.to_multiset(),
        sorted_by_dist(r@, target@),
{
    broadcast use vstd::seq_lib::group_to_multiset_ensures;

    let mut rest = v;
    let mut out: Vec<PeerInfo> = Vec::new();
    while rest.len() > 0
        invariant
            out@.len() + rest@.len() == v@.len(),
            out@.to_multiset().add(rest@.to_multiset()) == v@.to_multiset(),
            sorted_by_dist(out@, target@),
            forall|a: int, b: int|
                0 <= a < out@.len() && 0 <= b < rest@.len() ==> dist_le(
                    #[trigger] out@[a],
                    #[trigger] rest@[b],
                    target@,
                ),
        decreases rest@.len(),
    {
        let mut m: usize = 0;
        let mut k: usize = 1;
        proof {
            lemma_dist_total(rest@[0], rest@[0], target@);
        }
        while k < rest.len()
            invariant
                rest@.len() > 0,
                (m as int) < rest@.len(),
                k <= rest@.len(),
                forall|t: int|
                    0 <= t < k ==> dist_le(rest@[m as int], #[trigger] rest@[t], target@),
            decreases rest@.len() - k,
        {
            if !peer_dist_le(&rest[m], &rest[k], target) {
                proof {
                    lemma_dist_total(rest@[m as int], rest@[k as int], target@);
                    let old_m = m as int;
                    assert forall|t: int| 0 <= t < k + 1 implies dist_le(
                        rest@[k as int],
                        #[trigger] rest@[t],
                        target@,
                    ) by {
                        if t < k {
                            lemma_dist_trans(rest@[k as int], rest@[old_m], rest@[t], target@);
                        } else {
                            lemma_dist_total(rest@[k as int], rest@[k as int], target@);
                        }
                    }
                }
                m = k;
            }
            k += 1;
        }
        let ghost old_rest = rest@;
        let ghost old_out = out@;
        let x = rest.remove(m);
        out.push(x);
        proof {
            old_rest.to_multiset_ensures();
            old_out.to_multiset_ensures();
            assert(old_rest.contains(x));
            assert(x == old_rest[m as int]);
            assert(rest@ == old_rest.remove(m as int));
            assert(old_rest.remove(m as int).to_multiset() =~= old_rest.to_multiset().remove(x));
            assert(out@ == old_out.push(x));
            assert(out@.to_multiset() =~= old_out.to_multiset().insert(x));
            assert(out@.to_multiset().add(rest@.to_multiset()) =~= old_out.to_multiset().add(
                old_rest.to_multiset(),
            ));
            assert forall|a: int, b: int| 0 <= a < b < out@.len() implies dist_le(
                #[trigger] out@[a],
                #[trigger] out@[b],
                target@,
            ) by {
                if b == out@.len() - 1 {
                    assert(out@[b] == x);
                    assert(out@[a] == old_out[a]);
                    assert(dist_le(old_out[a], old_rest[m as int], target@));
                } else {
                    assert(out@[a] == old_out[a] && out@[b] == old_out[b]);
                }
            }
            assert forall|a: int, b: int|
                0 <= a < out@.len() && 0 <= b < rest@.len() implies dist_le(
                #[trigger] out@[a],
                #[trigger] rest@[b],
                target@,
            ) by {
                let ob = if b < m as int {
                    b
                } else {
                    b + 1
                };
                assert(rest@[b] == old_rest[ob]);
                if a < old_out.len() {
                    assert(out@[a] == old_out[a]);
                    assert(dist_le(old_out[a], old_rest[ob], target@));
                } else {
                    assert(out@[a] == x);
                    assert(dist_le(old_rest[m as int], old_rest[ob], target@));
                }
            }
        }
    }
    proof {
        assert(rest@ =~= Seq::<PeerInfo>::empty());
        assert(out@.to_multiset() =~= v@.to_multiset());
    }
    out
}

/// Earlier bucket spans hold no more peers than later ones.
proof fn lemma_peers_upto_len_mono(t: &RoutingTable, k: int, m: int)
    requires
        0 <= k <= m,
    ensures
        t.peers_upto(k).len() <= t.peers_upto(m).len(),
    decreases m - k,
{
    if k < m {
        lemma_peers_upto_len_mono(t, k, m - 1);
    }
}

/// Path buckets hold no more peers than all buckets.
proof fn lemma_matched_le_all(t: &RoutingTable, target: Seq<u8>, k: int)
    requires
        0 <= k,
    ensures
        t.matched_upto(target, k).len() <= t.peers_upto(k).len(),
    decreases k,
{
    if k > 0 {
        lemma_matched_le_all(t, target, k - 1);
    }
}

/// Every peer of a bucket stands among the peers of the table.
/// Every peer of a path bucket among the first `k` stands in the matched
/// peers of the first `k` buckets.
proof fn lemma_path_bucket_in_matched(t: &RoutingTable, target: Seq<u8>, j: int, k: int)
    requires
        0 <= j < k <= t.n_buckets(),
        t.is_path_key(t.keys()[j], target),
    ensures
        forall|e: int|
            0 <= e < t.bucket_entries(j).len() ==> t.matched_upto(target, k).contains(
                #[trigger] t.bucket_entries(j)[e],
            ),
    decreases k,
{
    if k == j + 1 {
        assert(t.matched_upto(target, k) == t.matched_upto(target, j) + t.bucket_entries(j));
        assert forall|e: int|
            0 <= e < t.bucket_entries(j).len() implies t.matched_upto(target, k).contains(
            #[trigger] t.bucket_entries(j)[e],
        ) by {
            assert(t.matched_upto(target, k)[t.matched_upto(target, j).len() + e]
                == t.bucket_entries(j)[e]);
        }
    } else {
        lemma_path_bucket_in_matched(t, target, j, k - 1);
        assert forall|e: int|
            0 <= e < t.bucket_entries(j).len() implies t.matched_upto(target, k).contains(
            #[trigger] t.bucket_entries(j)[e],
        ) by {
            let w = choose|w: int|
                0 <= w < t.matched_upto(target, k - 1).len() && #[trigger] t.matched_upto(
                    target,
                    k - 1,
                )[w] == t.bucket_entries(j)[e];
            if t.is_path_key(t.keys()[k - 1], target) {
                assert(t.matched_upto(target, k) == t.matched_upto(target, k - 1)
                    + t.bucket_entries(k - 1));
                assert(t.matched_upto(target, k)[w] == t.bucket_entries(j)[e]);
            } else {
                assert(t.matched_upto(target, k) == t.matched_upto(target, k - 1));
                assert(t.matched_upto(target, k)[w] == t.bucket_entries(j)[e]);
            }
        }
    }
}

proof fn lemma_bucket_peers_in_all(t: &RoutingTable, j: int, k: int)
    requires
        0 <= j < k,
    ensures
        forall|e: int|
            0 <= e < t.bucket_entries(j).len() ==> t.peers_upto(k).contains(
                #[trigger] t.bucket_entries(j)[e],
            ),
    decreases k,
{
    if j == k - 1 {
        assert forall|e: int| 0 <= e < t.bucket_entries(j).len() implies t.peers_upto(k).contains(
            #[trigger] t.bucket_entries(j)[e],
        ) by {
            assert(t.peers_upto(k) == t.peers_upto(k - 1) + t.bucket_entries(k - 1));
            assert(t.peers_upto(k)[t.peers_upto(k - 1).len() + e] == t.bucket_entries(j)[e]);
        }
    } else {
        lemma_bucket_peers_in_all(t, j, k - 1);
        assert forall|e: int| 0 <= e < t.bucket_entries(j).len() implies t.peers_upto(k).contains(
            #[trigger] t.bucket_entries(j)[e],
        ) by {
            let x = t.bucket_entries(j)[e];
            let idx = choose|idx: int|
                0 <= idx < t.peers_upto(k - 1).len() && #[trigger] t.peers_upto(k - 1)[idx] == x;
            assert(t.peers_upto(k) == t.peers_upto(k - 1) + t.bucket_entries(k - 1));
            assert(t.peers_upto(k)[idx] == x);
        }
    }
}

/// The peers held across a list of collected buckets.
pub open spec fn sum_pairs(c: Seq<(usize, Vec<PeerInfo>)>) -> int
    decreases c.len(),
{
    if c.len() == 0 {
        0
    } else {
        c[0].1@.len() + sum_pairs(c.drop_first())
    }
}

proof fn lemma_sum_pairs_push(c: Seq<(usize, Vec<PeerInfo>)>, x: (usize, Vec<PeerInfo>))
    ensures
        sum_pairs(c.push(x)) == sum_pairs(c) + x.1@.len(),
    decreases c.len(),
{
    if c.len() == 0 {
        assert(c.push(x)[0] == x);
        assert(c.push(x).drop_first() =~= Seq::<(usize, Vec<PeerInfo>)>::empty());
        assert(sum_pairs(Seq::<(usize, Vec<PeerInfo>)>::empty()) == 0);
        assert(sum_pairs(c.push(x)) == x.1@.len() + 0);
        assert(sum_pairs(c) == 0);
    } else {
        assert(c.push(x).drop_first() =~= c.drop_first().push(x));
        assert(c.push(x)[0] == c[0]);
        lemma_sum_pairs_push(c.drop_first(), x);
        assert(sum_pairs(c.push(x)) == c[0].1@.len() + sum_pairs(c.drop_first().push(x)));
    }
}

proof fn lemma_sum_pairs_remove(c: Seq<(usize, Vec<PeerInfo>)>, m: int)
    requires
        0 <= m < c.len(),
    ensures
        sum_pairs(c.remove(m)) == sum_pairs(c) - c[m].1@.len(),
    decreases m,
{
    if m == 0 {
        assert(c.remove(0) =~= c.drop_first());
    } else {
        assert(c.remove(m).drop_first() =~= c.drop_first().remove(m - 1));
        assert(c.remove(m)[0] == c[0]);
        lemma_sum_pairs_remove(c.drop_first(), m - 1);
        assert(c.drop_first()[m - 1] == c[m]);
    }
}

/// The distinct distance prefixes at depths below `n`.
spec fn prefix_set(d: Seq<u8>, n: int) -> Set<Seq<char>>
    decreases n,
{
    if n <= 0 {
        Set::empty()
    } else {
        prefix_set(d, n - 1).insert(spec_prefix(d, n - 1))
    }
}

proof fn lemma_prefix_set_card(d: Seq<u8>, n: int)
    requires
        0 <= n <= 256,
    ensures
        prefix_set(d, n).finite(),
        prefix_set(d, n).len() == n,
        forall|t: int| 0 <= t < n ==> prefix_set(d, n).contains(#[trigger] spec_prefix(d, t)),
        forall|k: Seq<char>| #[trigger]
            prefix_set(d, n).contains(k) ==> (exists|t: int| 0 <= t < n && k == spec_prefix(d, t))
                && k.len() <= n,
    decreases n,
{
    if n > 0 {
        lemma_prefix_set_card(d, n - 1);
        assert(spec_prefix(d, n - 1).len() == n);
        assert(!prefix_set(d, n - 1).contains(spec_prefix(d, n - 1)));
    }
}

/// A table keyed by every prefix of one distance path holds at least 256
/// buckets: prefixes of distinct depths are distinct keys.
proof fn lemma_full_path_needs_256(t: &RoutingTable, d: Seq<u8>)
    requires
        forall|ti: int| 0 <= ti < 256 ==> t.has_key(#[trigger] spec_prefix(d, ti)),
    ensures
        t.n_buckets() >= 256,
{
    broadcast use vstd::seq_lib::seq_to_set_is_finite;

    lemma_prefix_set_card(d, 256);
    let ps = prefix_set(d, 256);
    let ks = t.keys();
    assert forall|k: Seq<char>| ps.contains(k) implies ks.to_set().contains(k) by {
        let ti = choose|ti: int| 0 <= ti < 256 && k == spec_prefix(d, ti);
        assert(t.has_key(spec_prefix(d, ti)));
        let i = choose|i: int| 0 <= i < t.n_buckets() && t.keys()[i] == spec_prefix(d, ti);
        assert(ks[i] == k);
        assert(ks.contains(k));
    }
    assert(ps.subset_of(ks.to_set()));
    ks.lemma_cardinality_of_set();
    vstd::set_lib::lemma_len_subset(ps, ks.to_set());
}

/// In a well-formed table every bucket holds at most thirty peers, and
/// under unique placement no identity stands in two buckets. `new`
/// establishes both, and `update_peer` preserves them when the placed peer
/// is not already present, so they hold after any sequence of placements of
/// fresh peers.
pub proof fn lemma_bucket_capacity_and_uniqueness(t: &RoutingTable)
    requires
        t.wf(),
        t.unique_placement(),
    ensures
        forall|i: int| 0 <= i < t.n_buckets() ==> (#[trigger] t.bucket_entries(i)).len() <= 30,
        forall|i: int, j: int, a: int, b: int|
            #![trigger t.bucket_entries(i)[a], t.bucket_entries(j)[b]]
            0 <= i < t.n_buckets() && 0 <= j < t.n_buckets() && i != j && 0 <= a
                < t.bucket_entries(i).len() && 0 <= b < t.bucket_entries(j).len()
                ==> t.bucket_entries(i)[a]@.id != t.bucket_entries(j)[b]@.id,
{
}

/// The position in the old bucket that a kept element of a shrunk bucket
/// came from.
proof fn bucket_shrink_source(t0: RoutingTable, t1: RoutingTable, i: int, a: int, x: int) -> (x0:
    int)
    requires
        0 <= i < t0.n_buckets(),
        t1.n_buckets() == t0.n_buckets(),
        forall|j: int| 0 <= j < t0.n_buckets() && j != i ==> t1.tree@[j] == t0.tree@[j],
        t1.bucket_entries(i) == t0.bucket_entries(i) || (t0.bucket_entries(i).len() > 0
            && t1.bucket_entries(i) == t0.bucket_entries(i).drop_first()) || (exists|e: int|
            0 <= e < t0.bucket_entries(i).len() && t1.bucket_entries(i) == t0.bucket_entries(
                i,
            ).remove(e)),
        0 <= a < t1.n_buckets(),
        0 <= x < t1.bucket_entries(a).len(),
    ensures
        0 <= x0 < t0.bucket_entries(a).len(),
        t1.bucket_entries(a)[x] == t0.bucket_entries(a)[x0],
{
    if a != i {
        assert(t1.tree@[a] == t0.tree@[a]);
        x
    } else {
        if t1.bucket_entries(i) == t0.bucket_entries(i) {
            x
        } else if t0.bucket_entries(i).len() > 0 && t1.bucket_entries(i) == t0.bucket_entries(
            i,
        ).drop_first() {
            x + 1
        } else {
            let er = choose|er: int|
                0 <= er < t0.bucket_entries(i).len() && t1.bucket_entries(i)
                    == t0.bucket_entries(i).remove(er);
            if x < er {
                x
            } else {
                x + 1
            }
        }
    }
}

/// Replacing one bucket's peers by the same peers less the front or one
/// removed element keeps the table well formed.
proof fn lemma_after_bucket_shrink(t0: RoutingTable, t1: RoutingTable, i: int)
    requires
        t0.wf(),
        0 <= i < t0.n_buckets(),
        t1.n_buckets() == t0.n_buckets(),
        t1.local_info == t0.local_info,
        forall|j: int| 0 <= j < t0.n_buckets() && j != i ==> t1.tree@[j] == t0.tree@[j],
        t1.keys() =~= t0.keys(),
        t1.tree@[i].1.wf(),
        t1.bucket_entries(i) == t0.bucket_entries(i) || (t0.bucket_entries(i).len() > 0
            && t1.bucket_entries(i) == t0.bucket_entries(i).drop_first()) || (exists|e: int|
            0 <= e < t0.bucket_entries(i).len() && t1.bucket_entries(i) == t0.bucket_entries(
                i,
            ).remove(e)),
    ensures
        t1.wf(),
{
    assert forall|a: int, b: int, x: int, y: int|
        #![trigger t1.bucket_entries(a)[x], t1.bucket_entries(b)[y]]
        0 <= a < t1.n_buckets() && 0 <= b < t1.n_buckets() && a != b && 0 <= x
            < t1.bucket_entries(a).len() && 0 <= y < t1.bucket_entries(
            b,
        ).len() implies t1.bucket_entries(a)[x]@.id != t1.bucket_entries(b)[y]@.id by {
        let x0 = bucket_shrink_source(t0, t1, i, a, x);
        let y0 = bucket_shrink_source(t0, t1, i, b, y);
        if a != i {
            assert(t1.tree@[a] == t0.tree@[a]);
        }
        if b != i {
            assert(t1.tree@[b] == t0.tree@[b]);
        }
        assert(t1.bucket_entries(a)[x] == t0.bucket_entries(a)[x0]);
        assert(t1.bucket_entries(b)[y] == t0.bucket_entries(b)[y0]);
    }
    assert forall|j: int| 0 <= j < t1.n_buckets() implies (#[trigger] t1.bucket_entries(j)).len()
        <= MAX_BUCKET_LEN by {
        if j != i {
            assert(t1.tree@[j] == t0.tree@[j]);
            assert(t1.bucket_entries(j) == t0.bucket_entries(j));
        }
        assert(t0.bucket_entries(j).len() <= MAX_BUCKET_LEN);
    }
    assert forall|j: int| 0 <= j < t1.n_buckets() implies (#[trigger] t1.tree@[j]).1.wf() by {
        if j != i {
            assert(t1.tree@[j] == t0.tree@[j]);
        }
    }
    assert forall|j: int, e: int|
        #![trigger t1.bucket_entries(j)[e]]
        0 <= j < t1.n_buckets() && 0 <= e < t1.bucket_entries(j).len() implies t1.keys()[j]
        == spec_prefix(t1.spec_dist(t1.bucket_entries(j)[e]@.key), t1.keys()[j].len() - 1) by {
        if j != i {
            assert(t1.tree@[j] == t0.tree@[j]);
            assert(t1.bucket_entries(j)[e] == t0.bucket_entries(j)[e]);
        } else {
            if t1.bucket_entries(i) == t0.bucket_entries(i) {
                assert(t1.bucket_entries(i)[e] == t0.bucket_entries(i)[e]);
            } else if t0.bucket_entries(i).len() > 0 && t1.bucket_entries(i)
                == t0.bucket_entries(i).drop_first() {
                assert(t1.bucket_entries(i)[e] == t0.bucket_entries(i)[e + 1]);
            } else {
                let er = choose|er: int|
                    0 <= er < t0.bucket_entries(i).len() && t1.bucket_entries(i)
                        == t0.bucket_entries(i).remove(er);
                assert(t1.bucket_entries(i)[e] == if e < er {
                    t0.bucket_entries(i)[e]
                } else {
                    t0.bucket_entries(i)[e + 1]
                });
            }
        }
    }
}

/// Changing one bucket changes the table's peer count by exactly the
/// bucket's own change.
proof fn lemma_peers_upto_len_delta(t0: RoutingTable, t1: RoutingTable, i: int, k: int)
    requires
        0 <= i < t0.n_buckets(),
        t1.n_buckets() == t0.n_buckets(),
        forall|j: int| 0 <= j < t0.n_buckets() && j != i ==> t1.tree@[j] == t0.tree@[j],
        k <= t0.n_buckets(),
    ensures
        t1.peers_upto(k).len() == t0.peers_upto(k).len() + (if i < k {
            t1.bucket_entries(i).len() - t0.bucket_entries(i).len()
        } else {
            0int
        }),
    decreases k,
{
    if k > 0 {
        lemma_peers_upto_len_delta(t0, t1, i, k - 1);
        if k - 1 != i {
            assert(t1.tree@[k - 1] == t0.tree@[k - 1]);
            assert(t1.bucket_entries(k - 1) == t0.bucket_entries(k - 1));
        }
    }
}

/// Under unique placement, an identity held by one bucket is held by that
/// bucket alone.
proof fn lemma_unique_gives_one_bucket(t: &RoutingTable, i: int, id: Seq<char>)
    requires
        t.unique_placement(),
        0 <= i < t.n_buckets(),
        entries_have_id(t.bucket_entries(i), id),
    ensures
        t.id_in_one_bucket(id),
{
    assert forall|j: int|
        0 <= j < t.n_buckets() && entries_have_id(#[trigger] t.bucket_entries(j), id) implies j
        == i by {
        if j != i {
            let x = choose|x: int|
                0 <= x < t.bucket_entries(i).len() && (#[trigger] t.bucket_entries(i)[x])@.id
                    == id;
            let y = choose|y: int|
                0 <= y < t.bucket_entries(j).len() && (#[trigger] t.bucket_entries(j)[y])@.id
                    == id;
            assert(t.bucket_entries(i)[x]@.id != t.bucket_entries(j)[y]@.id);
        }
    }
}

/// A table extended by new buckets holds the old buckets' peers unchanged
/// over any old prefix.
proof fn lemma_peers_upto_same_prefix(t0: RoutingTable, t1: RoutingTable, k: int)
    requires
        k <= t0.n_buckets(),
        t0.n_buckets() <= t1.n_buckets(),
        forall|j: int| 0 <= j < t0.n_buckets() ==> t1.tree@[j] == t0.tree@[j],
    ensures
        t1.peers_upto(k).len() == t0.peers_upto(k).len(),
    decreases k,
{
    if k > 0 {
        lemma_peers_upto_same_prefix(t0, t1, k - 1);
        assert(t1.tree@[k - 1] == t0.tree@[k - 1]);
        assert(t1.bucket_entries(k - 1) == t0.bucket_entries(k - 1));
    }
}

/// The bucket and offset a position of a bucket-span points into.
proof fn lemma_peers_attribution(t: &RoutingTable, k: int, a: int) -> (je: (int, int))
    requires
        0 <= k,
        0 <= a < t.peers_upto(k).len(),
    ensures
        0 <= je.0 < k,
        je.1 == a - t.peers_upto(je.0).len(),
        0 <= je.1 < t.bucket_entries(je.0).len(),
        t.peers_upto(k)[a] == t.bucket_entries(je.0)[je.1],
    decreases k,
{
    if a < t.peers_upto(k - 1).len() {
        lemma_peers_attribution(t, k - 1, a)
    } else {
        (k - 1, a - t.peers_upto(k - 1).len())
    }
}

/// In a well-formed table no two peers share an identity, across or within
/// buckets, so the span of all peers lists each identity once.
pub proof fn lemma_all_peers_distinct_ids(t: &RoutingTable)
    requires
        t.wf(),
    ensures
        distinct_ids(t.all_peers_spec()),
{
    assert forall|a: int, b: int|
        0 <= a < b < t.all_peers_spec().len() implies (#[trigger] t.all_peers_spec()[a])@.id != (
    #[trigger] t.all_peers_spec()[b])@.id by {
        let je1 = lemma_peers_attribution(t, t.n_buckets(), a);
        let je2 = lemma_peers_attribution(t, t.n_buckets(), b);
        if je1.0 == je2.0 {
            assert(t.tree@[je1.0].1.wf());
            assert(je1.1 != je2.1);
        } else {
            assert(t.bucket_entries(je1.0)[je1.1]@.id != t.bucket_entries(je2.0)[je2.1]@.id);
        }
    }
}

/// A rearrangement of a list with pairwise-distinct identities keeps them
/// pairwise distinct.
pub proof fn lemma_distinct_ids_multiset(s1: Seq<PeerInfo>, s2: Seq<PeerInfo>)
    requires
        s2.to_multiset() == s1.to_multiset(),
        distinct_ids(s1),
    ensures
        distinct_ids(s2),
{
    broadcast use vstd::seq_lib::group_to_multiset_ensures;

    assert forall|a: int, b: int|
        0 <= a < b < s2.len() implies (#[trigger] s2[a])@.id != (#[trigger] s2[b])@.id by {
        let x = s2[a];
        let y = s2[b];
        if x@.id == y@.id {
            if x == y {
                assert(s2.remove(a).to_multiset() =~= s2.to_multiset().remove(x));
                assert(s2.remove(a)[b - 1] == y);
                assert(s2.remove(a).contains(y));
                assert(s2.remove(a).to_multiset().count(x) > 0);
                assert(s1.to_multiset().count(x) >= 2);
                assert(s1.contains(x));
                let i1 = choose|i1: int| 0 <= i1 < s1.len() && s1[i1] == x;
                assert(s1.remove(i1).to_multiset() =~= s1.to_multiset().remove(x));
                assert(s1.remove(i1).to_multiset().count(x) > 0);
                assert(s1.remove(i1).contains(x));
                let iw = choose|iw: int| 0 <= iw < s1.remove(i1).len() && s1.remove(i1)[iw] == x;
                let i2 = if iw < i1 {
                    iw
                } else {
                    iw + 1
                };
                assert(s1[i2] == x);
                assert(s1[i1]@.id == s1[i2]@.id && i1 != i2);
                assert(false);
            } else {
                assert(s2.contains(x) && s2.contains(y));
                assert(s1.to_multiset().count(x) > 0 && s1.to_multiset().count(y) > 0);
                assert(s1.contains(x) && s1.contains(y));
                let i1 = choose|i1: int| 0 <= i1 < s1.len() && s1[i1] == x;
                let i2 = choose|i2: int| 0 <= i2 < s1.len() && s1[i2] == y;
                assert(i1 != i2);
                assert(s1[i1]@.id == s1[i2]@.id);
                assert(false);
            }
        }
    }
}

} // verus!
