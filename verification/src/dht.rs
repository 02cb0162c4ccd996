//! Distance-keyed peer bookkeeping for seeder discovery (reserved): the
//! XOR metric, k-buckets ordered by freshness, and a routing table over
//! 256 such buckets.

use vstd::prelude::*;
use crate::hashing::ContentHash;
use crate::types::Seeder;

verus! {

/// What can go wrong in a lookup.
#[derive(Debug, Clone, PartialEq)]
pub enum DhtError {
    /// No node answered to the identifier.
    NodeNotFound,
    /// No answer arrived in time.
    Timeout,
    /// The transport failed underneath.
    Network(String),
}

/// Lookup parameters: bucket capacity, lookup parallelism, and this
/// node's identifier.
#[derive(Debug, Clone)]
pub struct DhtConfig {
    pub k: usize,
    pub alpha: usize,
    pub node_id: ContentHash,
}

/// Relies on getrandom::getrandom: fills the buffer from the operating
/// system's entropy source. Nothing can be promised of the value; a
/// failure of the source is reported as none.
#[verifier::external_body]
pub fn generate_random_node_id() -> (r: Option<ContentHash>)
    ensures
        r matches Some(h) ==> h@.len() == 32,
{
    let mut node_id = [0u8; 32];
    match getrandom::getrandom(&mut node_id) {
        Ok(()) => Some(node_id),
        Err(_) => None,
    }
}

/// The XOR distance between two identifiers, byte for byte.
pub fn xor_distance(a: &ContentHash, b: &ContentHash) -> (r: ContentHash)
    ensures
        forall|i: int| 0 <= i < 32 ==> r@[i] == (a@[i] ^ b@[i]),
{
    let mut result: ContentHash = [0u8; 32];
    let mut i: usize = 0;
    while i < 32
        invariant
            i <= 32,
            forall|j: int| 0 <= j < i ==> result@[j] == (a@[j] ^ b@[j]),
        decreases 32 - i,
    {
        result[i] = a[i] ^ b[i];
        i = i + 1;
    }
    result
}

/// How many leading zero bits a byte has.
pub open spec fn lz8(b: u8) -> int {
    if b >= 128 { 0 }
    else if b >= 64 { 1 }
    else if b >= 32 { 2 }
    else if b >= 16 { 3 }
    else if b >= 8 { 4 }
    else if b >= 4 { 5 }
    else if b >= 2 { 6 }
    else if b >= 1 { 7 }
    else { 8 }
}

/// The position of the first nonzero byte at or after `i`, or -1.
pub open spec fn first_nonzero(d: Seq<u8>, i: int) -> int
    decreases d.len() - i,
{
    if i < 0 || i >= d.len() {
        -1
    } else if d[i] != 0 {
        i
    } else {
        first_nonzero(d, i + 1)
    }
}

/// The bucket a distance falls into: the position of its most
/// significant set bit, counted from the least significant end; the
/// zero distance falls into bucket zero.
pub open spec fn bucket_index_spec(d: Seq<u8>) -> int {
    let i = first_nonzero(d, 0);
    if i < 0 {
        0
    } else {
        255 - (8 * i + lz8(d[i]))
    }
}

/// The exec counterpart of `lz8`.
fn lz8_exec(b: u8) -> (r: u8)
    ensures
        r as int == lz8(b),
{
    if b >= 128 { 0 }
    else if b >= 64 { 1 }
    else if b >= 32 { 2 }
    else if b >= 16 { 3 }
    else if b >= 8 { 4 }
    else if b >= 4 { 5 }
    else if b >= 2 { 6 }
    else if b >= 1 { 7 }
    else { 8 }
}

/// Find the bucket of a distance: the index of its most significant set
/// bit, or zero for the zero distance.
pub fn bucket_index(distance: &ContentHash) -> (r: usize)
    ensures
        r as int == bucket_index_spec(distance@),
        r < 256,
{
    let mut i: usize = 0;
    while i < 32
        invariant
            i <= 32,
            first_nonzero(distance@, 0) == first_nonzero(distance@, i as int),
        decreases 32 - i,
    {
        if distance[i] != 0 {
            let lz = lz8_exec(distance[i]);
            proof {
                assert(first_nonzero(distance@, i as int) == i);
                assert(lz8(distance@[i as int]) <= 7);
            }
            return 255 - (i * 8 + lz as usize);
        }
        i = i + 1;
    }
    proof {
        assert(first_nonzero(distance@, 32) == -1);
    }
    0
}

/// A node known to the table: its identifier, its endpoint, and when it
/// was last seen.
#[derive(Debug, Clone)]
pub struct NodeInfo {
    pub node_id: ContentHash,
    pub nym_address: String,
    pub last_seen: u64,
}

pub ghost struct NodeInfoV {
    pub node_id: Seq<u8>,
    pub nym_address: Seq<char>,
    pub last_seen: u64,
}

impl View for NodeInfo {
    type V = NodeInfoV;

    open spec fn view(&self) -> NodeInfoV {
        NodeInfoV {
            node_id: self.node_id@,
            nym_address: self.nym_address@,
            last_seen: self.last_seen,
        }
    }
}

impl DeepView for NodeInfo {
    type V = NodeInfoV;

    open spec fn deep_view(&self) -> NodeInfoV {
        self.view()
    }
}

/// Whether a node list holds an identifier.
pub open spec fn has_node(nodes: Seq<NodeInfoV>, id: Seq<u8>) -> bool {
    exists|i: int| 0 <= i < nodes.len() && (#[trigger] nodes[i]).node_id == id
}

/// One bucket: at most `k` nodes, freshest at the back.
#[derive(Debug, Clone)]
pub struct KBucket {
    k: usize,
    nodes: Vec<NodeInfo>,
}

impl View for KBucket {
    type V = Seq<NodeInfoV>;

    closed spec fn view(&self) -> Seq<NodeInfoV> {
        self.nodes.deep_view()
    }
}

impl KBucket {
    /// The bucket's capacity.
    pub closed spec fn cap(&self) -> int {
        self.k as int
    }

    /// An empty bucket with the given capacity.
    pub fn new(k: usize) -> (r: KBucket)
        ensures
            r@ == Seq::<NodeInfoV>::empty(),
            r.cap() == k,
    {
        let r = KBucket { k, nodes: Vec::new() };
        proof {
            assert(r@ =~= Seq::<NodeInfoV>::empty());
        }
        r
    }

    /// Add a node, or move the node already carrying its identifier to
    /// the freshest position; a full bucket refuses a new node. Returns
    /// whether the node now stands freshest.
    pub fn upsert(&mut self, node: NodeInfo) -> (r: bool)
        ensures
            r == (has_node(old(self)@, node@.node_id) || old(self)@.len() < old(self).cap()),
            final(self).cap() == old(self).cap(),
            r ==> final(self)@.len() > 0 && final(self)@.last() == node@,
            !r ==> final(self)@ == old(self)@,
            !has_node(old(self)@, node@.node_id) && old(self)@.len() < old(self).cap()
                ==> final(self)@ == old(self)@.push(node@),
            has_node(old(self)@, node@.node_id) ==> exists|i: int| {
                &&& 0 <= i < old(self)@.len()
                &&& (#[trigger] old(self)@[i]).node_id == node@.node_id
                &&& (forall|j: int| 0 <= j < i ==> (#[trigger] old(self)@[j]).node_id
                    != node@.node_id)
                &&& final(self)@ == old(self)@.remove(i).push(node@)
            },
            final(self)@.len() <= (if has_node(old(self)@, node@.node_id) {
                old(self)@.len() as int
            } else {
                old(self)@.len() as int + 1
            }),
    {
        let ghost id = node@.node_id;
        let mut pos: usize = 0;
        let mut found = false;
        while pos < self.nodes.len() && !found
            invariant
                pos <= self.nodes@.len(),
                id == node@.node_id,
                !found ==> forall|j: int| 0 <= j < pos
                    ==> (#[trigger] self@[j]).node_id != id,
                found ==> pos < self.nodes@.len() && self@[pos as int].node_id == id
                    && forall|j: int| 0 <= j < pos ==> (#[trigger] self@[j]).node_id != id,
            decreases self.nodes@.len() - pos + (if found { 0int } else { 1int }),
        {
            proof {
                assert(self@[pos as int] == self.nodes@[pos as int]@);
            }
            if crate::hashing::hash_eq(&self.nodes[pos].node_id, &node.node_id) {
                found = true;
            } else {
                pos = pos + 1;
            }
        }
        if found {
            let ghost prior = self@;
            let ghost pv = node@;
            let _ = self.nodes.remove(pos);
            self.nodes.push(node);
            proof {
                let target = prior.remove(pos as int).push(pv);
                assert(self@.len() == prior.len());
                assert(self@.last() == self.nodes@[self.nodes@.len() - 1]@);
                assert forall|t: int| 0 <= t < self@.len()
                    implies #[trigger] self@[t] == target[t] by {
                    assert(self@[t] == self.nodes@[t]@);
                    if t < pos {
                        assert(prior.remove(pos as int)[t] == prior[t]);
                    } else if t + 1 < prior.len() {
                        assert(prior.remove(pos as int)[t] == prior[t + 1]);
                    }
                }
                assert(self@ =~= target);
                assert(exists|i: int| {
                    &&& 0 <= i < prior.len()
                    &&& (#[trigger] prior[i]).node_id == pv.node_id
                    &&& (forall|j: int| 0 <= j < i ==> (#[trigger] prior[j]).node_id
                        != pv.node_id)
                    &&& self@ == prior.remove(i).push(pv)
                }) by {
                    assert((#[trigger] prior[pos as int]).node_id == pv.node_id);
                    assert(self@ == prior.remove(pos as int).push(pv));
                }
            }
            return true;
        }
        if self.nodes.len() < self.k {
            let ghost prior = self@;
            self.nodes.push(node);
            proof {
                assert(self@ =~= prior.push(node@)) by {
                    assert forall|j: int| 0 <= j < self@.len()
                        implies #[trigger] self@[j] == prior.push(node@)[j] by {
                        assert(self@[j] == self.nodes@[j]@);
                    }
                }
            }
            return true;
        }
        false
    }

    /// The bucket's nodes, stalest first.
    pub fn nodes(&self) -> (r: &Vec<NodeInfo>)
        ensures
            r.deep_view() == self@,
    {
        &self.nodes
    }

    /// Whether no more new nodes fit.
    pub fn is_full(&self) -> (r: bool)
        ensures
            r == (self@.len() >= self.cap()),
    {
        self.nodes.len() >= self.k
    }
}

/// The routing table: one bucket per possible distance bit.
pub struct RoutingTable {
    local_id: ContentHash,
    buckets: Vec<KBucket>,
    k: usize,
}

/// Every node a bucket list holds, in bucket order.
pub open spec fn nodes_of(bs: Seq<KBucket>) -> Seq<NodeInfoV>
    decreases bs.len(),
{
    if bs.len() == 0 {
        Seq::<NodeInfoV>::empty()
    } else {
        bs[0]@ + nodes_of(bs.drop_first())
    }
}

proof fn lemma_nodes_of_take_step(bs: Seq<KBucket>, i: int)
    requires
        0 <= i < bs.len(),
    ensures
        nodes_of(bs.take(i + 1)) == nodes_of(bs.take(i)) + bs[i]@,
    decreases i,
{
    if i == 0 {
        assert(bs.take(1).drop_first() =~= Seq::<KBucket>::empty());
        assert(bs.take(1)[0] == bs[0]);
        assert(bs.take(0) =~= Seq::<KBucket>::empty());
        assert(nodes_of(bs.take(1)) =~= nodes_of(bs.take(0)) + bs[0]@);
    } else {
        assert(bs.take(i + 1).drop_first() =~= bs.drop_first().take(i));
        assert(bs.take(i).drop_first() =~= bs.drop_first().take(i - 1));
        assert(bs.take(i + 1)[0] == bs[0]);
        assert(bs.take(i)[0] == bs[0]);
        lemma_nodes_of_take_step(bs.drop_first(), i - 1);
        assert(bs.drop_first()[i - 1] == bs[i]);
        assert(nodes_of(bs.take(i + 1)) =~= nodes_of(bs.take(i)) + bs[i]@);
    }
}

impl RoutingTable {
    /// How many buckets the table holds.
    pub closed spec fn bucket_count(&self) -> int {
        self.buckets@.len() as int
    }

    /// Every node the table holds, in bucket order.
    pub closed spec fn stored_nodes(&self) -> Seq<NodeInfoV> {
        nodes_of(self.buckets@)
    }

    /// This node's own identifier.
    pub closed spec fn local(&self) -> Seq<u8> {
        self.local_id@
    }

    /// The nodes of one bucket, stalest first.
    pub closed spec fn bucket_view(&self, i: int) -> Seq<NodeInfoV> {
        self.buckets@[i]@
    }

    /// One bucket's capacity.
    pub closed spec fn bucket_cap(&self, i: int) -> int {
        self.buckets@[i].cap()
    }

    /// The bucket a node falls into: its distance's most significant
    /// set bit.
    pub open spec fn home_bucket(&self, id: Seq<u8>) -> int {
        bucket_index_spec(xor_bytes(self.local(), id))
    }

    /// How many nodes the table holds in all.
    pub open spec fn stored_count(&self) -> int {
        self.stored_nodes().len() as int
    }

    /// A table for the given local identifier, with 256 empty buckets
    /// of capacity `k`.
    pub fn new(local_id: ContentHash, k: usize) -> (r: RoutingTable)
        ensures
            r.bucket_count() == 256,
    {
        let mut buckets: Vec<KBucket> = Vec::new();
        let mut i: usize = 0;
        while i < 256
            invariant
                i <= 256,
                buckets@.len() == i,
            decreases 256 - i,
        {
            buckets.push(KBucket::new(k));
            i = i + 1;
        }
        RoutingTable { local_id, buckets, k }
    }

    /// Add or refresh a node in the bucket its distance selects: every
    /// other bucket is untouched, and the home bucket follows the bucket
    /// discipline — a known identifier is refreshed to the freshest
    /// position, a new node joins if the bucket has room, and a full
    /// bucket refuses it.
    pub fn upsert(&mut self, node: NodeInfo)
        requires
            old(self).bucket_count() == 256,
        ensures
            final(self).bucket_count() == 256,
            final(self).local() == old(self).local(),
            forall|i: int| 0 <= i < 256 ==> final(self).bucket_cap(i) == old(self).bucket_cap(
                i,
            ),
            forall|i: int| 0 <= i < 256 && i != old(self).home_bucket(node@.node_id)
                ==> final(self).bucket_view(i) == old(self).bucket_view(i),
            ({
                let t = old(self).home_bucket(node@.node_id);
                let before = old(self).bucket_view(t);
                let after = final(self).bucket_view(t);
                &&& (!has_node(before, node@.node_id) && before.len() < old(self).bucket_cap(t)
                    ==> after == before.push(node@))
                &&& (!has_node(before, node@.node_id) && before.len() >= old(self).bucket_cap(
                    t,
                ) ==> after == before)
                &&& (has_node(before, node@.node_id) ==> exists|i: int| {
                    &&& 0 <= i < before.len()
                    &&& (#[trigger] before[i]).node_id == node@.node_id
                    &&& (forall|j: int| 0 <= j < i ==> (#[trigger] before[j]).node_id
                        != node@.node_id)
                    &&& after == before.remove(i).push(node@)
                })
            }),
    {
        let distance = xor_distance(&self.local_id, &node.node_id);
        let idx = bucket_index(&distance);
        proof {
            assert(distance@ =~= xor_bytes(self.local_id@, node@.node_id));
            assert(idx as int == old(self).home_bucket(node@.node_id));
        }
        let ghost prior = self.buckets@;
        let mut bucket = self.buckets.remove(idx);
        let _ = bucket.upsert(node);
        self.buckets.insert(idx, bucket);
        proof {
            assert(self.buckets@.len() == prior.len());
            assert forall|i: int| 0 <= i < 256 && i != idx
                implies self.buckets@[i] == prior[i] by {
                if i < idx {
                    assert(self.buckets@[i] == prior.remove(idx as int).insert(
                        idx as int,
                        bucket,
                    )[i]);
                } else {
                    assert(self.buckets@[i] == prior.remove(idx as int).insert(
                        idx as int,
                        bucket,
                    )[i]);
                    assert(prior.remove(idx as int)[i - 1] == prior[i]);
                }
            }
            assert(self.buckets@[idx as int] == bucket);
        }
    }

    /// Up to `count` known nodes, nearest to the target first under the
    /// XOR metric: as many as the table holds, up to the bound, sorted
    /// by distance.
    pub fn closest_nodes(&self, target: &ContentHash, count: usize) -> (r: Vec<NodeInfo>)
        ensures
            r@.len() == (if count <= self.stored_count() {
                count as int
            } else {
                self.stored_count()
            }),
            forall|i: int, j: int| 0 <= i < j < r@.len() ==> lex_le(
                xor_bytes((#[trigger] r@[i])@.node_id, target@),
                xor_bytes((#[trigger] r@[j])@.node_id, target@),
            ),
            // nothing the table still holds beyond the result is nearer
            // than anything returned
            forall|x: NodeInfoV, i: int|
                #![trigger self.stored_nodes().to_multiset().count(x), r@[i]]
                self.stored_nodes().to_multiset().count(x)
                    > r.deep_view().to_multiset().count(x) && 0 <= i < r@.len() ==> lex_le(
                    xor_bytes(r@[i]@.node_id, target@),
                    xor_bytes(x.node_id, target@),
                ),
    {
        broadcast use vstd::seq_lib::group_to_multiset_ensures;

        let mut all: Vec<NodeInfo> = Vec::new();
        let mut b: usize = 0;
        proof {
            assert(self.buckets@.take(0) =~= Seq::<KBucket>::empty());
        }
        proof {
            assert(all.deep_view() =~= nodes_of(self.buckets@.take(0)));
        }
        while b < self.buckets.len()
            invariant
                b <= self.buckets@.len(),
                all.deep_view() == nodes_of(self.buckets@.take(b as int)),
            decreases self.buckets@.len() - b,
        {
            proof {
                lemma_nodes_of_take_step(self.buckets@, b as int);
            }
            let bucket_nodes = self.buckets[b].nodes();
            proof {
                assert(bucket_nodes.deep_view() == self.buckets@[b as int]@);
                assert(self.buckets@[b as int]@.take(0) =~= Seq::<NodeInfoV>::empty());
                assert(all.deep_view() =~= nodes_of(self.buckets@.take(b as int))
                    + self.buckets@[b as int]@.take(0));
            }
            let mut n: usize = 0;
            while n < bucket_nodes.len()
                invariant
                    n <= bucket_nodes@.len(),
                    bucket_nodes.deep_view() == self.buckets@[b as int]@,
                    bucket_nodes@.len() == self.buckets@[b as int]@.len(),
                    all.deep_view() == nodes_of(self.buckets@.take(b as int))
                        + self.buckets@[b as int]@.take(n as int),
                decreases bucket_nodes@.len() - n,
            {
                let picked_up = clone_node(&bucket_nodes[n]);
                let ghost before = all.deep_view();
                let ghost nv = picked_up@;
                all.push(picked_up);
                proof {
                    assert(nv == self.buckets@[b as int]@[n as int]) by {
                        assert(bucket_nodes.deep_view()[n as int] == bucket_nodes@[n as int]@);
                    }
                    assert(all.deep_view().len() == before.len() + 1);
                    assert forall|t: int| 0 <= t < all.deep_view().len()
                        implies #[trigger] all.deep_view()[t] == before.push(nv)[t] by {
                        if t < before.len() {
                            assert(all.deep_view()[t] == before[t]);
                        } else {
                            assert(all.deep_view()[t] == all@[t]@);
                        }
                    }
                    assert(all.deep_view() =~= before.push(nv));
                    assert(self.buckets@[b as int]@.take(n as int).push(nv)
                        =~= self.buckets@[b as int]@.take(n + 1));
                    assert(all.deep_view() =~= nodes_of(self.buckets@.take(b as int))
                        + self.buckets@[b as int]@.take(n + 1));
                }
                n = n + 1;
            }
            proof {
                assert(self.buckets@[b as int]@.take(self.buckets@[b as int]@.len() as int)
                    =~= self.buckets@[b as int]@);
                assert(all.deep_view() =~= nodes_of(self.buckets@.take(b + 1)));
            }
            b = b + 1;
        }
        proof {
            assert(self.buckets@.take(self.buckets@.len() as int) =~= self.buckets@);
            assert(all.deep_view() == self.stored_nodes());
            assert(all@.len() == self.stored_count()) by {
                assert(all.deep_view().len() == all@.len());
            }
        }
        let mut out: Vec<NodeInfo> = Vec::new();
        proof {
            assert(out.deep_view() =~= Seq::<NodeInfoV>::empty());
            assert(out.deep_view().to_multiset().add(all.deep_view().to_multiset())
                =~= self.stored_nodes().to_multiset());
        }
        while out.len() < count && all.len() > 0
            invariant
                out@.len() <= count,
                out@.len() + all@.len() == self.stored_count(),
                out.deep_view().len() == out@.len(),
                all.deep_view().len() == all@.len(),
                out.deep_view().to_multiset().add(all.deep_view().to_multiset())
                    == self.stored_nodes().to_multiset(),
                forall|i: int, j: int| 0 <= i < j < out@.len() ==> lex_le(
                    xor_bytes((#[trigger] out@[i])@.node_id, target@),
                    xor_bytes((#[trigger] out@[j])@.node_id, target@),
                ),
                // everything still unpicked is no nearer than anything picked
                forall|i: int, j: int| 0 <= i < out@.len() && 0 <= j < all@.len() ==> lex_le(
                    xor_bytes((#[trigger] out@[i])@.node_id, target@),
                    xor_bytes((#[trigger] all@[j])@.node_id, target@),
                ),
            decreases count - out@.len(),
        {
            let mut best: usize = 0;
            let mut m: usize = 1;
            proof {
                lemma_lex_refl(xor_bytes(all@[0]@.node_id, target@));
            }
            while m < all.len()
                invariant
                    1 <= m <= all@.len(),
                    best < m,
                    forall|j: int| 0 <= j < m ==> lex_le(
                        xor_bytes(all@[best as int]@.node_id, target@),
                        xor_bytes((#[trigger] all@[j])@.node_id, target@),
                    ),
                decreases all@.len() - m,
            {
                if dist_lt(&all[m], &all[best], target) {
                    proof {
                        assert forall|j: int| 0 <= j < m + 1 implies lex_le(
                            xor_bytes(all@[m as int]@.node_id, target@),
                            xor_bytes((#[trigger] all@[j])@.node_id, target@),
                        ) by {
                            if j < m {
                                lemma_lex_trans(
                                    xor_bytes(all@[m as int]@.node_id, target@),
                                    xor_bytes(all@[best as int]@.node_id, target@),
                                    xor_bytes(all@[j]@.node_id, target@),
                                );
                            } else {
                                lemma_lex_refl(xor_bytes(all@[m as int]@.node_id, target@));
                            }
                        }
                    }
                    best = m;
                } else {
                    proof {
                        assert forall|j: int| 0 <= j < m + 1 implies lex_le(
                            xor_bytes(all@[best as int]@.node_id, target@),
                            xor_bytes((#[trigger] all@[j])@.node_id, target@),
                        ) by {
                            if j == m {
                            }
                        }
                    }
                }
                m = m + 1;
            }
            let ghost old_all = all@;
            let ghost old_all_deep = all.deep_view();
            let picked = all.remove(best);
            let ghost pv = picked@;
            proof {
                assert(picked == old_all[best as int]);
                assert(pv == old_all_deep[best as int]);
                assert(all.deep_view().len() == old_all_deep.len() - 1);
                assert forall|t: int| 0 <= t < all.deep_view().len()
                    implies #[trigger] all.deep_view()[t]
                        == old_all_deep.remove(best as int)[t] by {
                    assert(all.deep_view()[t] == all@[t]@);
                    if t < best {
                        assert(all@[t] == old_all[t]);
                    } else {
                        assert(all@[t] == old_all[t + 1]);
                    }
                }
                assert(all.deep_view() =~= old_all_deep.remove(best as int));
                old_all_deep.to_multiset_ensures();
                assert(all.deep_view().to_multiset() =~= old_all_deep.to_multiset().remove(pv));
                assert forall|j: int| 0 <= j < all@.len() implies lex_le(
                    xor_bytes(pv.node_id, target@),
                    xor_bytes((#[trigger] all@[j])@.node_id, target@),
                ) by {
                    if j < best {
                        assert(all@[j] == old_all[j]);
                    } else {
                        assert(all@[j] == old_all[j + 1]);
                    }
                }
                assert forall|i: int, j: int| 0 <= i < out@.len() && 0 <= j < all@.len()
                    implies lex_le(
                    xor_bytes((#[trigger] out@[i])@.node_id, target@),
                    xor_bytes((#[trigger] all@[j])@.node_id, target@),
                ) by {
                    if j < best {
                        assert(all@[j] == old_all[j]);
                    } else {
                        assert(all@[j] == old_all[j + 1]);
                    }
                }
            }
            let ghost old_out = out@;
            let ghost old_out_deep = out.deep_view();
            out.push(picked);
            proof {
                assert(out@ == old_out.push(picked));
                assert(out.deep_view().len() == old_out_deep.len() + 1);
                assert forall|t: int| 0 <= t < out.deep_view().len()
                    implies #[trigger] out.deep_view()[t] == old_out_deep.push(pv)[t] by {
                    assert(out.deep_view()[t] == out@[t]@);
                    if t < old_out_deep.len() {
                        assert(out@[t] == old_out[t]);
                    }
                }
                assert(out.deep_view() =~= old_out_deep.push(pv));
                old_out_deep.to_multiset_ensures();
                assert(out.deep_view().to_multiset() =~= old_out_deep.to_multiset().insert(pv));
                // moving the nearest node keeps the account balanced
                assert(old_all_deep.to_multiset().count(pv) > 0) by {
                    assert(old_all_deep.contains(pv));
                }
                assert(out.deep_view().to_multiset().add(all.deep_view().to_multiset())
                    =~= self.stored_nodes().to_multiset());
                assert forall|i: int, j: int| 0 <= i < j < out@.len() implies lex_le(
                    xor_bytes((#[trigger] out@[i])@.node_id, target@),
                    xor_bytes((#[trigger] out@[j])@.node_id, target@),
                ) by {
                    if j == out@.len() - 1 {
                        assert(out@[j] == picked);
                        assert(out@[i] == old_out[i]);
                        assert(lex_le(
                            xor_bytes(old_out[i]@.node_id, target@),
                            xor_bytes(old_all[best as int]@.node_id, target@),
                        ));
                    } else {
                        assert(out@[i] == old_out[i]);
                        assert(out@[j] == old_out[j]);
                    }
                }
            }
        }
        proof {
            assert forall|x: NodeInfoV, i: int|
                self.stored_nodes().to_multiset().count(x)
                    > out.deep_view().to_multiset().count(x) && 0 <= i < out@.len()
                implies lex_le(
                    xor_bytes(out@[i]@.node_id, target@),
                    xor_bytes(x.node_id, target@),
                ) by {
                assert(self.stored_nodes().to_multiset().count(x)
                    == out.deep_view().to_multiset().count(x)
                    + all.deep_view().to_multiset().count(x));
                assert(all.deep_view().to_multiset().count(x) > 0);
                assert(all.deep_view().contains(x));
                let j = choose|j: int| 0 <= j < all.deep_view().len() && all.deep_view()[j] == x;
                assert(all@[j]@ == x);
            }
        }
        out
    }
}

/// Lexicographic order is reflexive.
proof fn lemma_lex_refl(a: Seq<u8>)
    ensures
        lex_le(a, a),
    decreases a.len(),
{
    if a.len() > 0 {
        lemma_lex_refl(a.drop_first());
    }
}

/// Lexicographic order chains.
proof fn lemma_lex_trans(a: Seq<u8>, b: Seq<u8>, c: Seq<u8>)
    requires
        a.len() == b.len(),
        b.len() == c.len(),
        lex_le(a, b),
        lex_le(b, c),
    ensures
        lex_le(a, c),
    decreases a.len(),
{
    if a.len() > 0 {
        if a[0] == b[0] && b[0] == c[0] {
            lemma_lex_trans(a.drop_first(), b.drop_first(), c.drop_first());
        }
    }
}

/// The XOR of two byte strings, pointwise.
pub open spec fn xor_bytes(a: Seq<u8>, b: Seq<u8>) -> Seq<u8> {
    Seq::new(
        (if a.len() <= b.len() {
            a.len()
        } else {
            b.len()
        }),
        |i: int| a[i] ^ b[i],
    )
}

/// Lexicographic order on 32-byte strings: the order of the first
/// differing byte decides.
pub open spec fn lex_le(a: Seq<u8>, b: Seq<u8>) -> bool
    decreases a.len(),
{
    if a.len() == 0 || b.len() == 0 {
        true
    } else if a[0] != b[0] {
        a[0] < b[0]
    } else {
        lex_le(a.drop_first(), b.drop_first())
    }
}

/// Whether one node stands strictly nearer the target than another.
fn dist_lt(a: &NodeInfo, b: &NodeInfo, target: &ContentHash) -> (r: bool)
    ensures
        r ==> lex_le(xor_bytes(a@.node_id, target@), xor_bytes(b@.node_id, target@)),
        !r ==> lex_le(xor_bytes(b@.node_id, target@), xor_bytes(a@.node_id, target@)),
{
    let da = xor_distance(&a.node_id, target);
    let db = xor_distance(&b.node_id, target);
    proof {
        assert(da@ =~= xor_bytes(a@.node_id, target@));
        assert(db@ =~= xor_bytes(b@.node_id, target@));
    }
    lex_lt_exec(&da, &db)
}

/// Strict lexicographic comparison of two digests.
fn lex_lt_exec(a: &ContentHash, b: &ContentHash) -> (r: bool)
    ensures
        r ==> lex_le(a@, b@),
        !r ==> lex_le(b@, a@),
{
    let mut i: usize = 0;
    proof {
        assert(a@.skip(0) =~= a@);
        assert(b@.skip(0) =~= b@);
    }
    while i < 32
        invariant
            i <= 32,
            forall|j: int| 0 <= j < i ==> a@[j] == b@[j],
            lex_le(a@, b@) == lex_le(a@.skip(i as int), b@.skip(i as int)),
            lex_le(b@, a@) == lex_le(b@.skip(i as int), a@.skip(i as int)),
        decreases 32 - i,
    {
        proof {
            assert(a@.skip(i as int)[0] == a@[i as int]);
            assert(b@.skip(i as int)[0] == b@[i as int]);
            assert(a@.skip(i as int).drop_first() =~= a@.skip(i + 1));
            assert(b@.skip(i as int).drop_first() =~= b@.skip(i + 1));
        }
        if a[i] < b[i] {
            return true;
        }
        if a[i] > b[i] {
            return false;
        }
        i = i + 1;
    }
    proof {
        assert(a@.skip(32).len() == 0);
    }
    false
}

/// Copy a node field for field.
fn clone_node(n: &NodeInfo) -> (r: NodeInfo)
    ensures
        r@ == n@,
{
    NodeInfo {
        node_id: n.node_id,
        nym_address: n.nym_address.clone(),
        last_seen: n.last_seen,
    }
}

} // verus!
