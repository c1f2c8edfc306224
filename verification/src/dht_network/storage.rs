use vstd::prelude::*;

use crate::nodeid::NodeID;

verus! {

broadcast use vstd::array::group_array_axioms;

// ---------------------------------------------------------------------------
// Identifiers
// ---------------------------------------------------------------------------

/// The number of set bits among the lowest `n` bits of `x`.
pub open spec fn ones(x: u8, n: nat) -> nat
    decreases n,
{
    if n == 0 {
        0
    } else {
        ones(x, (n - 1) as nat) + if (x >> ((n - 1) as u8)) & 1u8 == 1u8 {
            1nat
        } else {
            0nat
        }
    }
}

/// The number of bits in which the first `n` bytes of `a` and `b` differ.
pub open spec fn hamming(a: Seq<u8>, b: Seq<u8>, n: nat) -> nat
    decreases n,
{
    if n == 0 {
        0
    } else {
        hamming(a, b, (n - 1) as nat) + ones(a[n - 1] ^ b[n - 1], 8)
    }
}

/// The distance of two identifiers: the number of bits in which they differ.
pub open spec fn distance_spec(a: NodeID, b: NodeID) -> nat {
    hamming(a.bytes@, b.bytes@, 32)
}

/// How long a node has been up: its first byte.
pub open spec fn uptime_spec(a: NodeID) -> nat {
    a.bytes@[0] as nat
}

proof fn lemma_ones_bound(x: u8, n: nat)
    ensures
        ones(x, n) <= n,
    decreases n,
{
    if n > 0 {
        lemma_ones_bound(x, (n - 1) as nat);
    }
}

proof fn lemma_hamming_bound(a: Seq<u8>, b: Seq<u8>, n: nat)
    ensures
        hamming(a, b, n) <= 8 * n,
    decreases n,
{
    if n > 0 {
        lemma_hamming_bound(a, b, (n - 1) as nat);
        lemma_ones_bound(a[n - 1] ^ b[n - 1], 8);
    }
}

proof fn lemma_ones_zero(n: nat)
    requires
        n <= 8,
    ensures
        ones(0u8, n) == 0,
    decreases n,
{
    if n > 0 {
        lemma_ones_zero((n - 1) as nat);
        let k = (n - 1) as u8;
        assert((0u8 >> k) & 1u8 == 0u8) by (bit_vector);
    }
}

proof fn lemma_hamming_self_sym(a: Seq<u8>, b: Seq<u8>, n: nat)
    ensures
        hamming(a, a, n) == 0,
        hamming(a, b, n) == hamming(b, a, n),
    decreases n,
{
    if n > 0 {
        lemma_hamming_self_sym(a, b, (n - 1) as nat);
        let x = a[n - 1];
        let y = b[n - 1];
        assert(x ^ x == 0u8) by (bit_vector);
        assert(x ^ y == y ^ x) by (bit_vector);
        lemma_ones_zero(8);
    }
}

/// The distance of identifiers counts the bits in which they differ: none from an
/// identifier to itself, the same number both ways, and at most the 256 bits of an
/// identifier.
pub proof fn lemma_distance_laws(a: NodeID, b: NodeID)
    ensures
        distance_spec(a, a) == 0,
        distance_spec(a, b) == distance_spec(b, a),
        distance_spec(a, b) <= 256,
{
    lemma_hamming_self_sym(a.bytes@, b.bytes@, 32);
    lemma_hamming_bound(a.bytes@, b.bytes@, 32);
}

/// An identifier of a node that the routing table can hold.
pub trait ID {
    fn uptime_sec(&self) -> usize;

    fn get_bytes(&self) -> Vec<u8>;

    fn bits(&self) -> usize;

    fn distance(&self, other: &Self) -> usize;

    fn equals(&self, other: &Self) -> bool;
}

impl ID for NodeID {
    fn uptime_sec(&self) -> (r: usize)
        ensures
            r == uptime_spec(*self),
    {
        self.bytes[0] as usize
    }

    fn get_bytes(&self) -> (r: Vec<u8>)
        ensures
            r@ == self.bytes@,
    {
        let mut r: Vec<u8> = Vec::new();
        let mut i: usize = 0;
        while i < 32
            invariant
                0 <= i <= 32,
                r@ == self.bytes@.take(i as int),
            decreases 32 - i,
        {
            proof {
                assert(self.bytes@.take(i + 1) =~= self.bytes@.take(i as int).push(self.bytes@[i as int]));
            }
            r.push(self.bytes[i]);
            i = i + 1;
        }
        proof {
            assert(self.bytes@.take(32) =~= self.bytes@);
        }
        r
    }

    fn bits(&self) -> (r: usize)
        ensures
            r == 256,
    {
        self.get_bytes().len() * 8
    }

    /// The number of bits in which the two identifiers differ.
    fn distance(&self, other: &Self) -> (r: usize)
        ensures
            r == distance_spec(*self, *other),
            r <= 256,
    {
        let xor = self.get_bytes();
        let xor_other = other.get_bytes();
        let mut sum: usize = 0;
        let mut i: usize = 0;
        while i < 32
            invariant
                0 <= i <= 32,
                xor@ == self.bytes@,
                xor_other@ == other.bytes@,
                sum == hamming(self.bytes@, other.bytes@, i as nat),
                sum <= 8 * i,
            decreases 32 - i,
        {
            let c: u8 = xor[i] ^ xor_other[i];
            let mut j: u8 = 0;
            let mut count: usize = 0;
            while j < 8
                invariant
                    0 <= j <= 8,
                    count == ones(c, j as nat),
                    count <= j,
                decreases 8 - j,
            {
                if (c >> j) & 1 == 1 {
                    count = count + 1;
                }
                j = j + 1;
            }
            sum = sum + count;
            i = i + 1;
        }
        sum
    }

    /// Whether all bytes of the identifiers are the same.
    fn equals(&self, other: &Self) -> (r: bool)
        ensures
            r == (*self == *other),
    {
        let a = self.get_bytes();
        let b = other.get_bytes();
        let mut i: usize = 0;
        while i < 32
            invariant
                0 <= i <= 32,
                a@ == self.bytes@,
                b@ == other.bytes@,
                forall|j: int| 0 <= j < i ==> a@[j] == b@[j],
            decreases 32 - i,
        {
            if a[i] != b[i] {
                return false;
            }
            i = i + 1;
        }
        proof {
            assert(self.bytes@ =~= other.bytes@);
            assert(self.bytes =~= other.bytes);
        }
        true
    }
}

// ---------------------------------------------------------------------------
// Sorting by uptime
// ---------------------------------------------------------------------------

/// The number of nodes whose uptime is at most `u`.
pub open spec fn count_uptime_le(s: Seq<NodeID>, u: nat) -> nat
    decreases s.len(),
{
    if s.len() == 0 {
        0
    } else {
        count_uptime_le(s.drop_last(), u) + if uptime_spec(s.last()) <= u {
            1nat
        } else {
            0nat
        }
    }
}

/// The nodes ordered by uptime, nodes of the same uptime in their order in `s`.
pub open spec fn sort_by_uptime(s: Seq<NodeID>) -> Seq<NodeID>
    decreases s.len(),
{
    if s.len() == 0 {
        Seq::empty()
    } else {
        let t = sort_by_uptime(s.drop_last());
        t.insert(count_uptime_le(t, uptime_spec(s.last())) as int, s.last())
    }
}

proof fn lemma_count_uptime_bound(s: Seq<NodeID>, u: nat)
    ensures
        count_uptime_le(s, u) <= s.len(),
    decreases s.len(),
{
    if s.len() > 0 {
        lemma_count_uptime_bound(s.drop_last(), u);
    }
}

proof fn lemma_sort_len(s: Seq<NodeID>)
    ensures
        sort_by_uptime(s).len() == s.len(),
    decreases s.len(),
{
    if s.len() > 0 {
        lemma_sort_len(s.drop_last());
        lemma_count_uptime_bound(sort_by_uptime(s.drop_last()), uptime_spec(s.last()));
    }
}

fn count_uptime_le_exec(s: &Vec<NodeID>, u: usize) -> (r: usize)
    ensures
        r == count_uptime_le(s@, u as nat),
{
    let mut c: usize = 0;
    let mut i: usize = 0;
    while i < s.len()
        invariant
            0 <= i <= s.len(),
            c == count_uptime_le(s@.take(i as int), u as nat),
            c <= i,
        decreases s.len() - i,
    {
        proof {
            assert(s@.take(i + 1).drop_last() =~= s@.take(i as int));
        }
        if s[i].uptime_sec() <= u {
            c = c + 1;
        }
        i = i + 1;
    }
    proof {
        assert(s@.take(s.len() as int) =~= s@);
    }
    c
}

/// Sorts the nodes by uptime, keeping the order of nodes of the same uptime.
fn sort_by_uptime_exec(s: &Vec<NodeID>) -> (r: Vec<NodeID>)
    ensures
        r@ == sort_by_uptime(s@),
{
    let mut r: Vec<NodeID> = Vec::new();
    let mut i: usize = 0;
    while i < s.len()
        invariant
            0 <= i <= s.len(),
            r@ == sort_by_uptime(s@.take(i as int)),
        decreases s.len() - i,
    {
        proof {
            assert(s@.take(i + 1).drop_last() =~= s@.take(i as int));
            lemma_sort_len(s@.take(i as int));
            lemma_count_uptime_bound(r@, uptime_spec(s@[i as int]));
        }
        let pos = count_uptime_le_exec(&r, s[i].uptime_sec());
        r.insert(pos, s[i]);
        i = i + 1;
    }
    proof {
        assert(s@.take(s.len() as int) =~= s@);
    }
    r
}

// ---------------------------------------------------------------------------
// The routing table
// ---------------------------------------------------------------------------

/// The nodes other than `n`, in order.
pub open spec fn without_node(s: Seq<NodeID>, n: NodeID) -> Seq<NodeID>
    decreases s.len(),
{
    if s.len() == 0 {
        Seq::empty()
    } else if s.last() == n {
        without_node(s.drop_last(), n)
    } else {
        without_node(s.drop_last(), n).push(s.last())
    }
}

/// The nodes at one distance from the base node.
#[derive(Debug, Clone)]
struct DistBucket {
    dist: usize,
    nodes: Vec<NodeID>,
}

/// The buckets as a map from distances to nodes.
spec fn buckets_map(s: Seq<DistBucket>) -> Map<usize, Seq<NodeID>>
    decreases s.len(),
{
    if s.len() == 0 {
        Map::empty()
    } else {
        buckets_map(s.drop_last()).insert(s.last().dist, s.last().nodes@)
    }
}

/// No two buckets have the same distance.
spec fn dists_distinct(s: Seq<DistBucket>) -> bool {
    forall|i: int, j: int| 0 <= i < j < s.len() ==> (#[trigger] s[i]).dist != (#[trigger] s[j]).dist
}

proof fn lemma_buckets_map(s: Seq<DistBucket>)
    requires
        dists_distinct(s),
    ensures
        forall|d: usize| #[trigger] buckets_map(s).dom().contains(d) <==> exists|i: int|
            0 <= i < s.len() && (#[trigger] s[i]).dist == d,
        forall|i: int| 0 <= i < s.len() ==> buckets_map(s)[(#[trigger] s[i]).dist] == s[i].nodes@,
    decreases s.len(),
{
    if s.len() > 0 {
        let p = s.drop_last();
        assert(dists_distinct(p)) by {
            assert forall|i: int, j: int| 0 <= i < j < p.len() implies (#[trigger] p[i]).dist
                != (#[trigger] p[j]).dist by {
                assert(p[i] == s[i] && p[j] == s[j]);
            }
        }
        lemma_buckets_map(p);
        assert forall|d: usize| #[trigger] buckets_map(s).dom().contains(d) <==> exists|i: int|
            0 <= i < s.len() && (#[trigger] s[i]).dist == d by {
            if buckets_map(p).dom().contains(d) {
                let i = choose|i: int| 0 <= i < p.len() && (#[trigger] p[i]).dist == d;
                assert(s[i].dist == d);
            }
            if exists|i: int| 0 <= i < s.len() && (#[trigger] s[i]).dist == d {
                let i = choose|i: int| 0 <= i < s.len() && (#[trigger] s[i]).dist == d;
                if i < p.len() {
                    assert(p[i].dist == d);
                }
            }
        }
        assert forall|i: int| 0 <= i < s.len() implies buckets_map(s)[(#[trigger] s[i]).dist]
            == s[i].nodes@ by {
            if i < p.len() {
                assert(p[i] == s[i]);
                assert(s[i].dist != s[s.len() - 1].dist);
            }
        }
    }
}

proof fn lemma_buckets_map_update(s: Seq<DistBucket>, i: int, b: DistBucket)
    requires
        dists_distinct(s),
        0 <= i < s.len(),
        b.dist == s[i].dist,
    ensures
        dists_distinct(s.update(i, b)),
        buckets_map(s.update(i, b)) == buckets_map(s).insert(b.dist, b.nodes@),
    decreases s.len(),
{
    let t = s.update(i, b);
    assert(dists_distinct(t)) by {
        assert forall|x: int, y: int| 0 <= x < y < t.len() implies (#[trigger] t[x]).dist
            != (#[trigger] t[y]).dist by {
            assert(t[x].dist == s[x].dist && t[y].dist == s[y].dist);
        }
    }
    let p = s.drop_last();
    assert(dists_distinct(p)) by {
        assert forall|x: int, y: int| 0 <= x < y < p.len() implies (#[trigger] p[x]).dist
            != (#[trigger] p[y]).dist by {
            assert(p[x] == s[x] && p[y] == s[y]);
        }
    }
    if i == s.len() - 1 {
        assert(t.drop_last() =~= p);
        lemma_buckets_map(p);
        assert forall|x: int| 0 <= x < p.len() implies (#[trigger] p[x]).dist != b.dist by {
            assert(s[x].dist != s[i].dist);
        }
        assert(!buckets_map(p).dom().contains(b.dist));
        assert(buckets_map(t) =~= buckets_map(s).insert(b.dist, b.nodes@));
    } else {
        lemma_buckets_map_update(p, i, b);
        assert(t.drop_last() =~= p.update(i, b));
        assert(s.last().dist != b.dist);
        assert(buckets_map(t) =~= buckets_map(s).insert(b.dist, b.nodes@));
    }
}

/// The contents of a routing table: the nodes by distance to the base node, the
/// number of nodes kept per distance, and the base node.
pub struct KademliaNetView {
    pub buckets: Map<usize, Seq<NodeID>>,
    pub k: usize,
    pub base: NodeID,
}

impl KademliaNetView {
    /// Adds a node at its distance; when that makes more than `k` nodes there, only
    /// the `k` nodes with the smallest uptime stay.
    pub open spec fn add_node(self, n: NodeID) -> KademliaNetView {
        let d = distance_spec(self.base, n) as usize;
        if self.buckets.dom().contains(d) {
            let b = self.buckets[d].push(n);
            KademliaNetView {
                buckets: self.buckets.insert(
                    d,
                    if b.len() > self.k {
                        sort_by_uptime(b).take(self.k as int)
                    } else {
                        b
                    },
                ),
                ..self
            }
        } else {
            KademliaNetView { buckets: self.buckets.insert(d, seq![n]), ..self }
        }
    }

    pub open spec fn add_nodes(self, ns: Seq<NodeID>) -> KademliaNetView
        decreases ns.len(),
    {
        if ns.len() == 0 {
            self
        } else {
            self.add_nodes(ns.drop_last()).add_node(ns.last())
        }
    }

    /// Removes the node from the nodes at its distance.
    pub open spec fn remove_node(self, n: NodeID) -> KademliaNetView {
        let d = distance_spec(self.base, n) as usize;
        if self.buckets.dom().contains(d) {
            KademliaNetView {
                buckets: self.buckets.insert(d, without_node(self.buckets[d], n)),
                ..self
            }
        } else {
            self
        }
    }

    pub open spec fn remove_nodes(self, ns: Seq<NodeID>) -> KademliaNetView
        decreases ns.len(),
    {
        if ns.len() == 0 {
            self
        } else {
            self.remove_nodes(ns.drop_last()).remove_node(ns.last())
        }
    }

    /// The distance looked at in step `i` of the search around `dist`: alternately
    /// `dist + i / 2` and, if it is larger than `i`, that minus `i`.
    pub open spec fn zigzag(dist: int, i: int) -> Option<int> {
        let z = dist + i / 2;
        if i % 2 == 1 {
            if z > i {
                Some(z - i)
            } else {
                None
            }
        } else {
            Some(z)
        }
    }

    /// Takes up to `nbr` nodes, looking at the distances around `dist` from step `i`
    /// on: the nodes taken, and the table without them.
    pub open spec fn closest_from(self, dist: int, nbr: nat, i: int, closest: Seq<NodeID>) -> (
        Seq<NodeID>,
        KademliaNetView,
    )
        decreases 256 - i,
    {
        if i >= 256 {
            (closest, self)
        } else {
            match Self::zigzag(dist, i) {
                None => self.closest_from(dist, nbr, i + 1, closest),
                Some(z) => {
                    let (c2, v2) = if self.buckets.dom().contains(z as usize) {
                        let b = self.buckets[z as usize];
                        let e = if nbr - closest.len() < b.len() {
                            nbr - closest.len()
                        } else {
                            b.len() as int
                        };
                        (
                            closest + b.take(e),
                            KademliaNetView {
                                buckets: self.buckets.insert(z as usize, b.skip(e)),
                                ..self
                            },
                        )
                    } else {
                        (closest, self)
                    };
                    if c2.len() == nbr {
                        (c2, v2)
                    } else {
                        v2.closest_from(dist, nbr, i + 1, c2)
                    }
                },
            }
        }
    }

    /// Takes out up to `nbr` nodes close to `node`.
    pub open spec fn closest_nodes(self, node: NodeID, nbr: nat) -> (Seq<NodeID>, KademliaNetView) {
        self.closest_from(distance_spec(self.base, node) as int, nbr, 0, Seq::empty())
    }
}

/// A routing table keeping up to `k` nodes per distance to its base node.
pub struct Kademlia {
    k_buckets: Vec<DistBucket>,
    k: usize,
    base: NodeID,
}

impl View for Kademlia {
    type V = KademliaNetView;

    closed spec fn view(&self) -> KademliaNetView {
        KademliaNetView { buckets: buckets_map(self.k_buckets@), k: self.k, base: self.base }
    }
}

impl Kademlia {
    pub closed spec fn wf(&self) -> bool {
        dists_distinct(self.k_buckets@)
    }

    pub fn new(k: usize, base: NodeID) -> (r: Kademlia)
        ensures
            r.wf(),
            r@ == (KademliaNetView { buckets: Map::empty(), k, base }),
    {
        Kademlia { k_buckets: Vec::new(), k, base }
    }

    /// The index of the bucket at distance `d`.
    fn find(&self, d: usize) -> (r: Option<usize>)
        ensures
            r matches Some(i) ==> i < self.k_buckets@.len() && self.k_buckets@[i as int].dist == d,
            r is None ==> forall|i: int| 0 <= i < self.k_buckets@.len() ==> (#[trigger] self.k_buckets@[i]).dist != d,
    {
        let mut i: usize = 0;
        while i < self.k_buckets.len()
            invariant
                0 <= i <= self.k_buckets.len(),
                forall|j: int| 0 <= j < i ==> (#[trigger] self.k_buckets@[j]).dist != d,
            decreases self.k_buckets.len() - i,
        {
            if self.k_buckets[i].dist == d {
                return Some(i);
            }
            i = i + 1;
        }
        None
    }

    /// Sets the nodes at distance `d`.
    fn set_bucket(&mut self, d: usize, nodes: Vec<NodeID>)
        requires
            old(self).wf(),
        ensures
            final(self).wf(),
            final(self)@ == (KademliaNetView { buckets: old(self)@.buckets.insert(d, nodes@), ..old(self)@ }),
    {
        proof {
            lemma_buckets_map(self.k_buckets@);
        }
        match self.find(d) {
            Some(i) => {
                let ghost s = self.k_buckets@;
                let b = DistBucket { dist: d, nodes };
                proof {
                    lemma_buckets_map_update(s, i as int, b);
                }
                self.k_buckets.set(i, b);
            },
            None => {
                let ghost s = self.k_buckets@;
                self.k_buckets.push(DistBucket { dist: d, nodes });
                proof {
                    assert(self.k_buckets@.drop_last() =~= s);
                    assert forall|x: int, y: int| 0 <= x < y < self.k_buckets@.len() implies (#[trigger] self.k_buckets@[x]).dist
                        != (#[trigger] self.k_buckets@[y]).dist by {
                        if y == s.len() {
                            assert(s[x].dist != d);
                        } else {
                            assert(s[x] == self.k_buckets@[x] && s[y] == self.k_buckets@[y]);
                        }
                    }
                }
            },
        }
    }

    /// A copy of the nodes at distance `d`, if there is such a bucket.
    fn bucket_copy(&self, d: usize) -> (r: Option<Vec<NodeID>>)
        requires
            self.wf(),
        ensures
            match r {
                Some(v) => self@.buckets.dom().contains(d) && v@ == self@.buckets[d],
                None => !self@.buckets.dom().contains(d),
            },
    {
        proof {
            lemma_buckets_map(self.k_buckets@);
        }
        match self.find(d) {
            Some(i) => {
                let src = &self.k_buckets[i].nodes;
                let mut v: Vec<NodeID> = Vec::new();
                let mut j: usize = 0;
                while j < src.len()
                    invariant
                        0 <= j <= src.len(),
                        v@ == src@.take(j as int),
                    decreases src.len() - j,
                {
                    proof {
                        assert(src@.take(j + 1) =~= src@.take(j as int).push(src@[j as int]));
                    }
                    v.push(src[j]);
                    j = j + 1;
                }
                proof {
                    assert(src@.take(src.len() as int) =~= src@);
                }
                Some(v)
            },
            None => None,
        }
    }

    fn add_node(&mut self, node: NodeID)
        requires
            old(self).wf(),
        ensures
            final(self).wf(),
            final(self)@ == old(self)@.add_node(node),
    {
        let d = self.base.distance(&node);
        match self.bucket_copy(d) {
            Some(mut bucket) => {
                bucket.push(node);
                if bucket.len() > self.k {
                    let mut sorted = sort_by_uptime_exec(&bucket);
                    proof {
                        lemma_sort_len(bucket@);
                    }
                    sorted.truncate(self.k);
                    proof {
                        assert(sorted@ =~= sort_by_uptime(bucket@).take(self.k as int));
                    }
                    self.set_bucket(d, sorted);
                } else {
                    self.set_bucket(d, bucket);
                }
            },
            None => {
                let v = vec![node];
                proof {
                    assert(v@ =~= seq![node]);
                }
                self.set_bucket(d, v);
            },
        }
    }

    /// Adds the nodes in turn, each at its distance to the base node; the nodes
    /// beyond `k` at one distance with the largest uptime are dropped.
    pub fn add_nodes(&mut self, nodes: Vec<NodeID>)
        requires
            old(self).wf(),
        ensures
            final(self).wf(),
            final(self)@ == old(self)@.add_nodes(nodes@),
    {
        let mut i: usize = 0;
        while i < nodes.len()
            invariant
                0 <= i <= nodes.len(),
                self.wf(),
                self@ == old(self)@.add_nodes(nodes@.take(i as int)),
            decreases nodes.len() - i,
        {
            proof {
                assert(nodes@.take(i + 1).drop_last() =~= nodes@.take(i as int));
            }
            self.add_node(nodes[i]);
            i = i + 1;
        }
        proof {
            assert(nodes@.take(nodes.len() as int) =~= nodes@);
        }
    }

    /// Removes the nodes from the nodes at their distances.
    pub fn remove_nodes(&mut self, nodes: Vec<NodeID>)
        requires
            old(self).wf(),
        ensures
            final(self).wf(),
            final(self)@ == old(self)@.remove_nodes(nodes@),
    {
        let mut i: usize = 0;
        while i < nodes.len()
            invariant
                0 <= i <= nodes.len(),
                self.wf(),
                self@ == old(self)@.remove_nodes(nodes@.take(i as int)),
            decreases nodes.len() - i,
        {
            proof {
                assert(nodes@.take(i + 1).drop_last() =~= nodes@.take(i as int));
            }
            let node = nodes[i];
            let d = self.base.distance(&node);
            if let Some(bucket) = self.bucket_copy(d) {
                let mut kept: Vec<NodeID> = Vec::new();
                let mut j: usize = 0;
                while j < bucket.len()
                    invariant
                        0 <= j <= bucket.len(),
                        kept@ == without_node(bucket@.take(j as int), node),
                    decreases bucket.len() - j,
                {
                    proof {
                        assert(bucket@.take(j + 1).drop_last() =~= bucket@.take(j as int));
                    }
                    if !node.equals(&bucket[j]) {
                        kept.push(bucket[j]);
                    }
                    j = j + 1;
                }
                proof {
                    assert(bucket@.take(bucket.len() as int) =~= bucket@);
                }
                self.set_bucket(d, kept);
            }
            i = i + 1;
        }
        proof {
            assert(nodes@.take(nodes.len() as int) =~= nodes@);
        }
    }

    /// Takes out up to `nbr` nodes close to `node`, looking at the distances
    /// around its distance to the base node in turn.
    pub fn closest_nodes(&mut self, node: &NodeID, nbr: usize) -> (r: Vec<NodeID>)
        requires
            old(self).wf(),
        ensures
            final(self).wf(),
            (r@, final(self)@) == old(self)@.closest_nodes(*node, nbr as nat),
    {
        let dist = self.base.distance(node);
        let ghost v0 = self@;
        let mut closest: Vec<NodeID> = Vec::new();
        let bits = self.base.bits();
        let mut i: usize = 0;
        while i < bits
            invariant
                bits == 256,
                v0 == old(self)@,
                0 <= i <= 256,
                dist <= 256,
                dist == distance_spec(v0.base, *node),
                self.wf(),
                self@.k == v0.k && self@.base == v0.base,
                closest@.len() < nbr || (i == 0 && nbr == 0),
                i == 0 ==> closest@.len() == 0,
                v0.closest_nodes(*node, nbr as nat) == self@.closest_from(dist as int, nbr as nat, i as int, closest@),
            decreases 256 - i,
        {
            if nbr == 0 {
                proof {
                    let v = self@;
                    assert(KademliaNetView::zigzag(dist as int, 0) == Some(dist as int));
                    if v.buckets.dom().contains(dist) {
                        let b = v.buckets[dist];
                        assert(b.skip(0) =~= b);
                        assert(b.take(0) =~= Seq::<NodeID>::empty());
                        assert(closest@ + b.take(0) =~= closest@);
                        assert(v.buckets.insert(dist, b.skip(0)) =~= v.buckets);
                        assert((KademliaNetView { buckets: v.buckets.insert(dist, b.skip(0)), ..v }) == v);
                    }
                    assert(v.closest_from(dist as int, 0, 0, closest@) == (closest@, v));
                }
                return closest;
            }
            let mut zigzag: usize = dist + i / 2;
            if i % 2 == 1 {
                if zigzag > i {
                    zigzag = zigzag - i;
                } else {
                    i = i + 1;
                    continue;
                }
            }
            let ghost vb = self@;
            let ghost cb = closest@;
            proof {
                assert(KademliaNetView::zigzag(dist as int, i as int) == Some(zigzag as int));
            }
            match self.bucket_copy(zigzag) {
                Some(bucket) => {
                    let want = nbr - closest.len();
                    let elements = if want < bucket.len() {
                        want
                    } else {
                        bucket.len()
                    };
                    let ghost c0 = closest@;
                    let mut rest: Vec<NodeID> = Vec::new();
                    let mut j: usize = 0;
                    while j < bucket.len()
                        invariant
                            0 <= j <= bucket.len(),
                            elements <= bucket.len(),
                            j <= elements ==> closest@ == c0 + bucket@.take(j as int) && rest@.len() == 0,
                            j > elements ==> closest@ == c0 + bucket@.take(elements as int) && rest@
                                == bucket@.subrange(elements as int, j as int),
                        decreases bucket.len() - j,
                    {
                        if j < elements {
                            closest.push(bucket[j]);
                            proof {
                                assert(c0 + bucket@.take(j + 1) =~= (c0 + bucket@.take(j as int)).push(bucket@[j as int]));
                            }
                        } else {
                            rest.push(bucket[j]);
                            proof {
                                assert(bucket@.subrange(elements as int, j + 1) =~= (if j == elements {
                                    Seq::<NodeID>::empty()
                                } else {
                                    bucket@.subrange(elements as int, j as int)
                                }).push(bucket@[j as int]));
                            }
                        }
                        j = j + 1;
                    }
                    proof {
                        if bucket.len() == elements {
                            assert(bucket@.skip(elements as int) =~= rest@);
                        } else {
                            assert(bucket@.skip(elements as int) =~= rest@);
                        }
                    }
                    self.set_bucket(zigzag, rest);
                },
                None => {},
            }
            proof {
                assert(vb.closest_from(dist as int, nbr as nat, i as int, cb) == (if closest@.len() == nbr {
                    (closest@, self@)
                } else {
                    self@.closest_from(dist as int, nbr as nat, i + 1, closest@)
                }));
            }
            if closest.len() == nbr {
                return closest;
            }
            i = i + 1;
        }
        closest
    }

    /// The buckets: each distance with its nodes.
    pub fn buckets(&self) -> (r: Vec<(usize, Vec<NodeID>)>)
        requires
            self.wf(),
        ensures
            r@.len() == self@.buckets.dom().len(),
            forall|i: int| 0 <= i < r@.len() ==> self@.buckets.dom().contains((#[trigger] r@[i]).0)
                && r@[i].1@ == self@.buckets[r@[i].0],
    {
        proof {
            lemma_buckets_map(self.k_buckets@);
            lemma_dom_len(self.k_buckets@);
        }
        let mut r: Vec<(usize, Vec<NodeID>)> = Vec::new();
        let mut i: usize = 0;
        while i < self.k_buckets.len()
            invariant
                0 <= i <= self.k_buckets.len(),
                r@.len() == i,
                forall|j: int| 0 <= j < i ==> (#[trigger] r@[j]).0 == self.k_buckets@[j].dist
                    && r@[j].1@ == self.k_buckets@[j].nodes@,
            decreases self.k_buckets.len() - i,
        {
            let src = &self.k_buckets[i].nodes;
            let mut v: Vec<NodeID> = Vec::new();
            let mut j: usize = 0;
            while j < src.len()
                invariant
                    0 <= j <= src.len(),
                    v@ == src@.take(j as int),
                decreases src.len() - j,
            {
                proof {
                    assert(src@.take(j + 1) =~= src@.take(j as int).push(src@[j as int]));
                }
                v.push(src[j]);
                j = j + 1;
            }
            proof {
                assert(src@.take(src.len() as int) =~= src@);
            }
            r.push((self.k_buckets[i].dist, v));
            i = i + 1;
        }
        r
    }
}

proof fn lemma_dom_len(s: Seq<DistBucket>)
    requires
        dists_distinct(s),
    ensures
        buckets_map(s).dom().len() == s.len(),
        buckets_map(s).dom().finite(),
    decreases s.len(),
{
    if s.len() > 0 {
        let p = s.drop_last();
        assert(dists_distinct(p)) by {
            assert forall|i: int, j: int| 0 <= i < j < p.len() implies (#[trigger] p[i]).dist
                != (#[trigger] p[j]).dist by {
                assert(p[i] == s[i] && p[j] == s[j]);
            }
        }
        lemma_dom_len(p);
        lemma_buckets_map(p);
        assert forall|i: int| 0 <= i < p.len() implies (#[trigger] p[i]).dist != s.last().dist by {
            assert(s[i].dist != s[s.len() - 1].dist);
        }
        assert(!buckets_map(p).dom().contains(s.last().dist));
    }
}

/// No distance holds more nodes than `k`, or one node if `k` is zero.
pub open spec fn buckets_bounded(v: KademliaNetView) -> bool {
    forall|d: usize| #[trigger] v.buckets.dom().contains(d) ==> v.buckets[d].len() <= v.k || v.buckets[d].len() <= 1
}

/// Adding nodes never makes a distance hold more than `k` nodes (or one, if `k`
/// is zero).
pub proof fn lemma_add_nodes_bounded(v: KademliaNetView, ns: Seq<NodeID>)
    requires
        buckets_bounded(v),
    ensures
        buckets_bounded(v.add_nodes(ns)),
    decreases ns.len(),
{
    if ns.len() > 0 {
        lemma_add_nodes_bounded(v, ns.drop_last());
        let w = v.add_nodes(ns.drop_last());
        let n = ns.last();
        let d = distance_spec(w.base, n) as usize;
        if w.buckets.dom().contains(d) {
            let b = w.buckets[d].push(n);
            if b.len() > w.k {
                lemma_sort_len(b);
            }
        }
    }
}

proof fn lemma_without_node(s: Seq<NodeID>, n: NodeID)
    ensures
        !without_node(s, n).contains(n),
        forall|x: NodeID| #[trigger] s.contains(x) && x != n ==> without_node(s, n).contains(x),
    decreases s.len(),
{
    if s.len() > 0 {
        let p = s.drop_last();
        lemma_without_node(p, n);
        let w = without_node(p, n);
        if s.last() != n {
            assert(w.push(s.last())[w.len() as int] == s.last());
            assert forall|x: NodeID| #[trigger] w.push(s.last()).contains(x) && x == n implies false by {
                let i = choose|i: int| 0 <= i < w.push(s.last()).len() && w.push(s.last())[i] == x;
                if i < w.len() {
                    assert(w.contains(x));
                }
            }
        }
        assert forall|x: NodeID| #[trigger] s.contains(x) && x != n implies without_node(s, n).contains(x) by {
            let i = choose|i: int| 0 <= i < s.len() && s[i] == x;
            if i < p.len() {
                assert(p[i] == x);
                assert(p.contains(x));
                let j = choose|j: int| 0 <= j < w.len() && w[j] == x;
                if s.last() != n {
                    assert(w.push(s.last())[j] == x);
                }
            } else {
                assert(s.last() == x);
                assert(w.push(s.last())[w.len() as int] == x);
            }
        }
    }
}

/// After removing a node, its distance holds no such node any more, and every
/// other node there stays.
pub proof fn lemma_remove_node_removes(v: KademliaNetView, n: NodeID, x: NodeID)
    requires
        v.buckets.dom().contains(distance_spec(v.base, n) as usize),
    ensures
        !v.remove_node(n).buckets[distance_spec(v.base, n) as usize].contains(n),
        v.buckets[distance_spec(v.base, n) as usize].contains(x) && x != n ==> v.remove_node(
            n,
        ).buckets[distance_spec(v.base, n) as usize].contains(x),
{
    lemma_without_node(v.buckets[distance_spec(v.base, n) as usize], n);
}

/// The nodes left at each distance after taking some: what was there, less some
/// nodes taken from the front.
pub open spec fn drained(v: KademliaNetView, w: KademliaNetView) -> bool {
    &&& w.k == v.k
    &&& w.base == v.base
    &&& w.buckets.dom() == v.buckets.dom()
    &&& forall|d: usize|
        #[trigger] w.buckets.dom().contains(d) ==> exists|e: int|
            0 <= e <= v.buckets[d].len() && w.buckets[d] == v.buckets[d].skip(e)
}

proof fn lemma_drained_trans(u: KademliaNetView, v: KademliaNetView, w: KademliaNetView)
    requires
        drained(u, v),
        drained(v, w),
    ensures
        drained(u, w),
{
    assert forall|d: usize| #[trigger] w.buckets.dom().contains(d) implies exists|e: int|
        0 <= e <= u.buckets[d].len() && w.buckets[d] == u.buckets[d].skip(e) by {
        let e1 = choose|e: int| 0 <= e <= u.buckets[d].len() && v.buckets[d] == u.buckets[d].skip(e);
        let e2 = choose|e: int| 0 <= e <= v.buckets[d].len() && w.buckets[d] == v.buckets[d].skip(e);
        assert(w.buckets[d] =~= u.buckets[d].skip(e1 + e2));
    }
}

proof fn lemma_closest_from(v: KademliaNetView, dist: int, nbr: nat, i: int, closest: Seq<NodeID>)
    requires
        closest.len() <= nbr,
    ensures
        v.closest_from(dist, nbr, i, closest).0.len() <= nbr,
        v.closest_from(dist, nbr, i, closest).0.len() >= closest.len(),
        v.closest_from(dist, nbr, i, closest).0.take(closest.len() as int) == closest,
        drained(v, v.closest_from(dist, nbr, i, closest).1),
    decreases 256 - i,
{
    let r = v.closest_from(dist, nbr, i, closest);
    assert(drained(v, v)) by {
        assert forall|d: usize| #[trigger] v.buckets.dom().contains(d) implies exists|e: int|
            0 <= e <= v.buckets[d].len() && v.buckets[d] == v.buckets[d].skip(e) by {
            assert(v.buckets[d] =~= v.buckets[d].skip(0));
        }
    }
    if i >= 256 {
        assert(closest.take(closest.len() as int) =~= closest);
    } else {
        match KademliaNetView::zigzag(dist, i) {
            None => {
                lemma_closest_from(v, dist, nbr, i + 1, closest);
            },
            Some(z) => {
                let zu = z as usize;
                if v.buckets.dom().contains(zu) {
                    let b = v.buckets[zu];
                    let e = if nbr - closest.len() < b.len() {
                        nbr - closest.len()
                    } else {
                        b.len() as int
                    };
                    let c2 = closest + b.take(e);
                    let v2 = KademliaNetView { buckets: v.buckets.insert(zu, b.skip(e)), ..v };
                    assert(drained(v, v2)) by {
                        assert(v2.buckets.dom() =~= v.buckets.dom());
                        assert forall|d: usize| #[trigger] v2.buckets.dom().contains(d) implies exists|f: int|
                            0 <= f <= v.buckets[d].len() && v2.buckets[d] == v.buckets[d].skip(f) by {
                            if d == zu {
                                assert(v2.buckets[d] == b.skip(e));
                            } else {
                                assert(v2.buckets[d] =~= v.buckets[d].skip(0));
                            }
                        }
                    }
                    assert(c2.take(closest.len() as int) =~= closest);
                    if c2.len() != nbr {
                        lemma_closest_from(v2, dist, nbr, i + 1, c2);
                        let r2 = v2.closest_from(dist, nbr, i + 1, c2);
                        assert(r2.0.take(closest.len() as int) =~= r2.0.take(c2.len() as int).take(closest.len() as int));
                        lemma_drained_trans(v, v2, r2.1);
                    }
                } else {
                    assert(closest.take(closest.len() as int) =~= closest);
                    if closest.len() != nbr {
                        lemma_closest_from(v, dist, nbr, i + 1, closest);
                    }
                }
            },
        }
    }
}

/// Taking the nodes closest to `node` hands out at most `nbr` nodes, starting with
/// the first nodes at the distance of `node`, as many as asked for and found there;
/// the table keeps its base and size per distance, and at each distance loses only
/// nodes from the front.
pub proof fn lemma_closest_nodes_laws(v: KademliaNetView, node: NodeID, nbr: nat)
    ensures
        v.closest_nodes(node, nbr).0.len() <= nbr,
        drained(v, v.closest_nodes(node, nbr).1),
        ({
            let d = distance_spec(v.base, node) as usize;
            let b = v.buckets[d];
            let e = if nbr < b.len() { nbr as int } else { b.len() as int };
            v.buckets.dom().contains(d) ==> v.closest_nodes(node, nbr).0.take(e) == b.take(e)
        }),
{
    let dist = distance_spec(v.base, node) as int;
    lemma_closest_from(v, dist, nbr, 0, Seq::empty());
    let d = dist as usize;
    assert(KademliaNetView::zigzag(dist, 0) == Some(dist));
    if v.buckets.dom().contains(d) {
        let b = v.buckets[d];
        let e = if nbr < b.len() { nbr as int } else { b.len() as int };
        let c2 = Seq::<NodeID>::empty() + b.take(e);
        let v2 = KademliaNetView { buckets: v.buckets.insert(d, b.skip(e)), ..v };
        assert(c2 =~= b.take(e));
        if c2.len() != nbr {
            lemma_closest_from(v2, dist, nbr, 1, c2);
        }
    }
}

/// The nodes at the distances of the table.
pub open spec fn in_table(v: KademliaNetView, x: NodeID) -> bool {
    exists|d: usize| #[trigger] v.buckets.dom().contains(d) && v.buckets[d].contains(x)
}

proof fn lemma_closest_from_moves(v: KademliaNetView, dist: int, nbr: nat, i: int, closest: Seq<NodeID>)
    requires
        closest.len() <= nbr,
        0 <= i,
    ensures
        forall|j: int|
            0 <= j < v.closest_from(dist, nbr, i, closest).0.len() ==> j < closest.len() || in_table(
                v,
                #[trigger] v.closest_from(dist, nbr, i, closest).0[j],
            ),
        forall|d: usize, x: NodeID|
            #[trigger] v.buckets.dom().contains(d) && v.buckets[d].contains(x) && !v.closest_from(
                dist,
                nbr,
                i,
                closest,
            ).1.buckets[d].contains(x) ==> #[trigger] v.closest_from(dist, nbr, i, closest).0.contains(x),
        v.closest_from(dist, nbr, i, closest).0.len() < nbr ==> forall|j: int|
            i <= j < 256 && (#[trigger] KademliaNetView::zigzag(dist, j)) is Some
                && v.closest_from(dist, nbr, i, closest).1.buckets.dom().contains(
                (KademliaNetView::zigzag(dist, j)->Some_0) as usize,
            ) ==> v.closest_from(dist, nbr, i, closest).1.buckets[(KademliaNetView::zigzag(
                dist,
                j,
            )->Some_0) as usize].len() == 0,
    decreases 256 - i,
{
    let r = v.closest_from(dist, nbr, i, closest);
    lemma_closest_from(v, dist, nbr, i, closest);
    if i >= 256 {
    } else {
        match KademliaNetView::zigzag(dist, i) {
            None => {
                lemma_closest_from_moves(v, dist, nbr, i + 1, closest);
                assert(r == v.closest_from(dist, nbr, i + 1, closest));
                if r.0.len() < nbr {
                    assert forall|j: int|
                        i <= j < 256 && (#[trigger] KademliaNetView::zigzag(dist, j)) is Some
                            && r.1.buckets.dom().contains((KademliaNetView::zigzag(dist, j)->Some_0) as usize)
                        implies r.1.buckets[(KademliaNetView::zigzag(dist, j)->Some_0) as usize].len() == 0 by {
                        if j == i {
                            assert(KademliaNetView::zigzag(dist, i) is None);
                        }
                    }
                }
            },
            Some(z) => {
                let zu = z as usize;
                if v.buckets.dom().contains(zu) {
                    let b = v.buckets[zu];
                    let e = if nbr - closest.len() < b.len() {
                        nbr - closest.len()
                    } else {
                        b.len() as int
                    };
                    let c2 = closest + b.take(e);
                    let v2 = KademliaNetView { buckets: v.buckets.insert(zu, b.skip(e)), ..v };
                    if c2.len() == nbr {
                        assert(r == (c2, v2));
                        assert forall|j: int| 0 <= j < c2.len() implies j < closest.len() || in_table(v, #[trigger] c2[j]) by {
                            if j >= closest.len() {
                                assert(b.contains(c2[j]) && b[j - closest.len()] == c2[j]);
                            }
                        }
                        assert forall|d: usize, x: NodeID|
                            #[trigger] v.buckets.dom().contains(d) && v.buckets[d].contains(x) && !v2.buckets[d].contains(x)
                            implies #[trigger] c2.contains(x) by {
                            if d != zu {
                                assert(v2.buckets[d] == v.buckets[d]);
                            } else {
                                let k = choose|k: int| 0 <= k < b.len() && b[k] == x;
                                if k >= e {
                                    assert(b.skip(e)[k - e] == x);
                                } else {
                                    assert(c2[closest.len() + k] == x);
                                }
                            }
                        }
                    } else {
                        lemma_closest_from(v2, dist, nbr, i + 1, c2);
                        lemma_closest_from_moves(v2, dist, nbr, i + 1, c2);
                        let r2 = v2.closest_from(dist, nbr, i + 1, c2);
                        assert(r == r2);
                        assert(e == b.len());
                        assert(v2.buckets[zu] =~= Seq::<NodeID>::empty());
                        assert forall|j: int| 0 <= j < r.0.len() implies j < closest.len() || in_table(v, #[trigger] r.0[j]) by {
                            if j >= closest.len() {
                                if j < c2.len() {
                                    assert(r.0.take(c2.len() as int)[j] == c2[j]);
                                    assert(b[j - closest.len()] == c2[j]);
                                } else {
                                    assert(in_table(v2, r.0[j]));
                                    let d = choose|d: usize| #[trigger] v2.buckets.dom().contains(d) && v2.buckets[d].contains(r.0[j]);
                                    assert(d != zu);
                                    assert(v.buckets[d] == v2.buckets[d]);
                                }
                            }
                        }
                        assert forall|d: usize, x: NodeID|
                            #[trigger] v.buckets.dom().contains(d) && v.buckets[d].contains(x) && !r.1.buckets[d].contains(x)
                            implies #[trigger] r.0.contains(x) by {
                            if d != zu {
                                assert(v2.buckets[d] == v.buckets[d]);
                                assert(v2.buckets.dom().contains(d));
                            } else {
                                let k = choose|k: int| 0 <= k < b.len() && b[k] == x;
                                assert(c2[closest.len() + k] == x);
                                assert(r.0.take(c2.len() as int)[closest.len() + k] == x);
                                assert(r.0[closest.len() + k] == x);
                            }
                        }
                        if r.0.len() < nbr {
                            assert forall|j: int|
                                i <= j < 256 && (#[trigger] KademliaNetView::zigzag(dist, j)) is Some
                                    && r.1.buckets.dom().contains((KademliaNetView::zigzag(dist, j)->Some_0) as usize)
                                implies r.1.buckets[(KademliaNetView::zigzag(dist, j)->Some_0) as usize].len() == 0 by {
                                if j == i {
                                    let f = choose|f: int| 0 <= f <= v2.buckets[zu].len() && r.1.buckets[zu] == v2.buckets[zu].skip(f);
                                    assert(r.1.buckets.dom().contains(zu));
                                }
                            }
                        }
                    }
                } else {
                    if closest.len() != nbr {
                        lemma_closest_from_moves(v, dist, nbr, i + 1, closest);
                        let r2 = v.closest_from(dist, nbr, i + 1, closest);
                        assert(r == r2);
                        if r.0.len() < nbr {
                            assert forall|j: int|
                                i <= j < 256 && (#[trigger] KademliaNetView::zigzag(dist, j)) is Some
                                    && r.1.buckets.dom().contains((KademliaNetView::zigzag(dist, j)->Some_0) as usize)
                                implies r.1.buckets[(KademliaNetView::zigzag(dist, j)->Some_0) as usize].len() == 0 by {
                                if j == i {
                                    assert(r.1.buckets.dom() == v.buckets.dom());
                                }
                            }
                        }
                    } else {
                        assert(r == (closest, v));
                    }
                }
            },
        }
    }
}

/// Taking the closest nodes moves nodes out of the table and loses none: each node
/// handed out was in the table, each node gone from a distance was handed out,
/// and fewer nodes than asked for come only when every distance visited is empty.
pub proof fn lemma_closest_nodes_moves(v: KademliaNetView, node: NodeID, nbr: nat)
    ensures
        forall|j: int|
            0 <= j < v.closest_nodes(node, nbr).0.len() ==> in_table(v, #[trigger] v.closest_nodes(node, nbr).0[j]),
        forall|d: usize, x: NodeID|
            #[trigger] v.buckets.dom().contains(d) && v.buckets[d].contains(x) && !v.closest_nodes(
                node,
                nbr,
            ).1.buckets[d].contains(x) ==> #[trigger] v.closest_nodes(node, nbr).0.contains(x),
        v.closest_nodes(node, nbr).0.len() < nbr ==> forall|j: int|
            0 <= j < 256 && (#[trigger] KademliaNetView::zigzag(distance_spec(v.base, node) as int, j)) is Some
                && v.closest_nodes(node, nbr).1.buckets.dom().contains(
                (KademliaNetView::zigzag(distance_spec(v.base, node) as int, j)->Some_0) as usize,
            ) ==> v.closest_nodes(node, nbr).1.buckets[(KademliaNetView::zigzag(
                distance_spec(v.base, node) as int,
                j,
            )->Some_0) as usize].len() == 0,
{
    lemma_closest_from_moves(v, distance_spec(v.base, node) as int, nbr, 0, Seq::empty());
}

} // verus!
