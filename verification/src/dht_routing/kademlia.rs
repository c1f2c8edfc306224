use vstd::prelude::*;

use crate::nodeid::{
    differs_at, first_difference, first_difference_from, lemma_first_difference_spec,
    lemma_no_difference_equal, NodeID,
};

verus! {

broadcast use vstd::array::group_array_axioms;

/// Configuration of the buckets of a routing table.
#[derive(Debug, Clone, Copy, PartialEq, Eq, Structural)]
pub struct Config {
    pub k: usize,
    pub ping_interval: u32,
    pub ping_timeout: u32,
}

impl Config {
    /// A configuration the routing table can work with: at least one node per
    /// bucket, `2 * k` representable, and a non-zero ping interval.
    pub open spec fn valid(self) -> bool {
        &&& 1 <= self.k
        &&& self.k <= usize::MAX / 2
        &&& self.ping_interval > 0
    }
}

impl Default for Config {
    fn default() -> (r: Self)
        ensures
            r == (Config { k: 5, ping_interval: 10, ping_timeout: 20 }),
    {
        Config { k: 5, ping_interval: 10, ping_timeout: 20 }
    }
}

/// One bit of the distance between two identifiers.
#[derive(Debug, Clone, Copy, PartialEq, Eq, Structural)]
pub enum Bit {
    Zero,
    One,
}

/// The bits of the XOR of `root` and `id`, the most significant bit of the first
/// byte first.
pub open spec fn distance_spec(root: NodeID, id: NodeID) -> Seq<Bit> {
    Seq::new(256, |i: int| if differs_at(root, id, i) { Bit::One } else { Bit::Zero })
}

/// The index of the first `One` at or after `i`, or the length if there is none.
pub open spec fn first_one_from(d: Seq<Bit>, i: int) -> int
    decreases d.len() - i,
{
    if i >= d.len() {
        d.len() as int
    } else if d[i] == Bit::One {
        i
    } else {
        first_one_from(d, i + 1)
    }
}

/// The depth of `id` as seen from `root`: the index of the first bit in which they
/// differ, or 256 if they are equal.
pub open spec fn depth_of(root: NodeID, id: NodeID) -> int {
    first_difference(root, id)
}

/// A node stored in a bucket, with its depth relative to the root and its tick
/// counters.
#[derive(Debug, Clone, Copy)]
pub struct KNode {
    pub id: NodeID,
    pub depth: usize,
    pub ticks_active: u32,
    pub ticks_last: u32,
}

impl PartialEq for KNode {
    fn eq(&self, other: &Self) -> (r: bool) {
        self.id.same(&other.id)
    }
}

impl vstd::std_specs::cmp::PartialEqSpecImpl for KNode {
    open spec fn obeys_eq_spec() -> bool {
        true
    }

    open spec fn eq_spec(&self, other: &Self) -> bool {
        self.id == other.id
    }
}

proof fn lemma_distance_bit(ra: u8, ia: u8, b: u32)
    requires
        b < 8,
    ensures
        ((((((ra ^ ia) as u32) << b) * 2) as u32) & 0x100u32 != 0u32) == (((ra >> ((7 - b) as u8)) & 1u8
            == 1u8) != ((ia >> ((7 - b) as u8)) & 1u8 == 1u8)),
        (((ra ^ ia) as u32) << b) * 2 == ((ra ^ ia) as u32) << (b + 1),
        ((ra ^ ia) as u32) << b < 0x10000u32,
{
    assert(((((((ra ^ ia) as u32) << b) * 2) as u32) & 0x100u32 != 0u32) == (((ra >> ((7 - b) as u8)) & 1u8
        == 1u8) != ((ia >> ((7 - b) as u8)) & 1u8 == 1u8))) by (bit_vector)
        requires
            b < 8,
    ;
    assert((((ra ^ ia) as u32) << b) * 2 == ((ra ^ ia) as u32) << (b + 1)) by (bit_vector)
        requires
            b < 8,
    ;
    assert(((ra ^ ia) as u32) << b < 0x10000u32) by (bit_vector)
        requires
            b < 8,
    ;
}

proof fn lemma_first_one(d: Seq<Bit>, i: int)
    requires
        0 <= i <= d.len(),
    ensures
        i <= first_one_from(d, i) <= d.len(),
        forall|j: int| i <= j < first_one_from(d, i) ==> d[j] != Bit::One,
        first_one_from(d, i) < d.len() ==> d[first_one_from(d, i)] == Bit::One,
    decreases d.len() - i,
{
    if i < d.len() && d[i] != Bit::One {
        lemma_first_one(d, i + 1);
    }
}

/// The first `One` of the distance is the first bit in which the identifiers differ.
proof fn lemma_first_one_distance(root: NodeID, id: NodeID, i: int)
    requires
        0 <= i <= 256,
    ensures
        first_one_from(distance_spec(root, id), i) == first_difference_from(root, id, i),
    decreases 256 - i,
{
    if i < 256 {
        lemma_first_one_distance(root, id, i + 1);
    }
}

impl KNode {
    /// The node after one tick.
    pub open spec fn ticked(self) -> KNode {
        KNode {
            ticks_active: (self.ticks_active + 1) as u32,
            ticks_last: (self.ticks_last + 1) as u32,
            ..self
        }
    }

    /// The node with its tick counters set back to zero.
    pub open spec fn reset_spec(self) -> KNode {
        KNode { ticks_active: 0, ticks_last: 0, ..self }
    }

    /// A node whose stored depth is its depth from `root`.
    pub open spec fn ok(self, root: NodeID) -> bool {
        self.depth == depth_of(root, self.id)
    }

    pub fn new(root: &NodeID, id: NodeID) -> (r: KNode)
        ensures
            r == (KNode { id, depth: depth_of(*root, id) as usize, ticks_active: 0, ticks_last: 0 }),
            r.ok(*root),
            r.depth <= 256,
    {
        let d = Self::distance(root, id);
        proof {
            lemma_first_one_distance(*root, id, 0);
            lemma_first_difference_spec(*root, id, 0);
        }
        KNode { id, depth: Self::get_depth(d.as_slice()), ticks_active: 0, ticks_last: 0 }
    }

    pub fn reset(&mut self)
        ensures
            *final(self) == old(self).reset_spec(),
    {
        self.ticks_active = 0;
        self.ticks_last = 0;
    }

    /// The bits in which `root` and `id` differ, the most significant bit of the
    /// first byte first.
    pub fn distance(root: &NodeID, id: NodeID) -> (r: Vec<Bit>)
        ensures
            r@ == distance_spec(*root, id),
    {
        let mut r: Vec<Bit> = Vec::new();
        let mut i: usize = 0;
        while i < 32
            invariant
                0 <= i <= 32,
                r@.len() == i * 8,
                forall|j: int| 0 <= j < r@.len() ==> r@[j] == distance_spec(*root, id)[j],
            decreases 32 - i,
        {
            let c: u8 = root.bytes[i] ^ id.bytes[i];
            let mut x: u32 = c as u32;
            let mut b: u32 = 0;
            assert((c as u32) << 0u32 == c as u32) by (bit_vector);
            while b < 8
                invariant
                    0 <= b <= 8,
                    i < 32,
                    c == root.bytes@[i as int] ^ id.bytes@[i as int],
                    x == (c as u32) << b,
                    r@.len() == i * 8 + b,
                    forall|j: int| 0 <= j < r@.len() ==> r@[j] == distance_spec(*root, id)[j],
                decreases 8 - b,
            {
                proof {
                    lemma_distance_bit(root.bytes@[i as int], id.bytes@[i as int], b);
                    let pos = i * 8 + b;
                    assert(pos / 8 == i as int);
                    assert(pos % 8 == b as int);
                }
                x = x * 2;
                if x & 0x100 > 0 {
                    r.push(Bit::One);
                } else {
                    r.push(Bit::Zero);
                }
                b = b + 1;
            }
            i = i + 1;
        }
        proof {
            assert(r@ =~= distance_spec(*root, id));
        }
        r
    }

    /// The index of the first `One`, or the length if there is none.
    pub fn get_depth(distance: &[Bit]) -> (r: usize)
        ensures
            r == first_one_from(distance@, 0),
    {
        let mut depth: usize = 0;
        while depth < distance.len()
            invariant
                0 <= depth <= distance.len(),
                first_one_from(distance@, 0) == first_one_from(distance@, depth as int),
            decreases distance.len() - depth,
        {
            if distance[depth] == Bit::One {
                return depth;
            }
            depth = depth + 1;
        }
        distance.len()
    }

    fn tick(&mut self)
        requires
            old(self).ticks_active < u32::MAX,
            old(self).ticks_last < u32::MAX,
        ensures
            *final(self) == old(self).ticked(),
    {
        self.ticks_active = self.ticks_active + 1;
        self.ticks_last = self.ticks_last + 1;
    }

    fn active(&mut self)
        ensures
            *final(self) == (KNode { ticks_last: 0, ..*old(self) }),
    {
        self.ticks_last = 0;
    }
}

// ---------------------------------------------------------------------------
// Sequences of nodes
// ---------------------------------------------------------------------------

/// The identifiers of the nodes, in order.
pub open spec fn ids_of(s: Seq<KNode>) -> Seq<NodeID> {
    s.map_values(|n: KNode| n.id)
}

/// The nodes at depth `d`, in order.
pub open spec fn at_depth(s: Seq<KNode>, d: int) -> Seq<KNode>
    decreases s.len(),
{
    if s.len() == 0 {
        Seq::empty()
    } else if s.last().depth == d {
        at_depth(s.drop_last(), d).push(s.last())
    } else {
        at_depth(s.drop_last(), d)
    }
}

/// The identifiers of the nodes at depth `d`, in order.
pub open spec fn ids_at_depth(s: Seq<KNode>, d: int) -> Seq<NodeID> {
    ids_of(at_depth(s, d))
}

/// The index of the first node with identifier `id`.
pub open spec fn find_id(s: Seq<KNode>, id: NodeID) -> Option<int>
    decreases s.len(),
{
    if s.len() == 0 {
        None
    } else {
        match find_id(s.drop_last(), id) {
            Some(i) => Some(i),
            None => if s.last().id == id {
                Some(s.len() - 1)
            } else {
                None
            },
        }
    }
}

/// Some node has identifier `id`.
pub open spec fn has_id(s: Seq<KNode>, id: NodeID) -> bool {
    exists|i: int| 0 <= i < s.len() && (#[trigger] s[i]).id == id
}

/// The nodes of `s` whose identifier is not the one of a node of `ns`, in order.
pub open spec fn without_ids(s: Seq<KNode>, ns: Seq<KNode>) -> Seq<KNode>
    decreases s.len(),
{
    if s.len() == 0 {
        Seq::empty()
    } else if has_id(ns, s.last().id) {
        without_ids(s.drop_last(), ns)
    } else {
        without_ids(s.drop_last(), ns).push(s.last())
    }
}

/// Every node was ticked once.
pub open spec fn ticked_all(s: Seq<KNode>) -> Seq<KNode> {
    s.map_values(|n: KNode| n.ticked())
}

/// Identifiers of the nodes that were not seen for a non-zero multiple of
/// `interval` ticks.
pub open spec fn ping_ids(s: Seq<KNode>, interval: u32) -> Seq<NodeID>
    decreases s.len(),
{
    if s.len() == 0 {
        Seq::empty()
    } else if s.last().ticks_last > 0 && s.last().ticks_last % interval == 0 {
        ping_ids(s.drop_last(), interval).push(s.last().id)
    } else {
        ping_ids(s.drop_last(), interval)
    }
}

/// Identifiers of the nodes whose last-seen counter reached `timeout`.
pub open spec fn timeout_ids(s: Seq<KNode>, timeout: u32) -> Seq<NodeID>
    decreases s.len(),
{
    if s.len() == 0 {
        Seq::empty()
    } else if s.last().ticks_last >= timeout {
        timeout_ids(s.drop_last(), timeout).push(s.last().id)
    } else {
        timeout_ids(s.drop_last(), timeout)
    }
}

/// The number of nodes at depth `d`.
pub open spec fn count_at(s: Seq<KNode>, d: int) -> nat {
    at_depth(s, d).len()
}

/// The smallest depth of a non-empty sequence of nodes.
pub open spec fn min_depth(s: Seq<KNode>) -> int
    decreases s.len(),
{
    if s.len() <= 1 {
        s[0].depth as int
    } else {
        let m = min_depth(s.drop_last());
        if (s.last().depth as int) < m {
            s.last().depth as int
        } else {
            m
        }
    }
}

/// All nodes are well-formed for `root` and have a depth in `[lo, hi]`.
pub open spec fn nodes_in_range(s: Seq<KNode>, root: NodeID, lo: int, hi: int) -> bool {
    forall|i: int| 0 <= i < s.len() ==> (#[trigger] s[i]).ok(root) && lo <= s[i].depth <= hi
}

/// All nodes can be ticked once more without overflow.
pub open spec fn nodes_tickable(s: Seq<KNode>) -> bool {
    forall|i: int|
        0 <= i < s.len() ==> (#[trigger] s[i]).ticks_active < u32::MAX && s[i].ticks_last < u32::MAX
}

// ---------------------------------------------------------------------------
// Lemmas on sequences of nodes
// ---------------------------------------------------------------------------

proof fn lemma_prefix_step<T>(s: Seq<T>, i: int)
    requires
        0 <= i < s.len(),
    ensures
        s.take(i + 1).drop_last() == s.take(i),
        s.take(i + 1).last() == s[i],
        s.take(i + 1).len() == i + 1,
{
    assert(s.take(i + 1).drop_last() =~= s.take(i));
}

proof fn lemma_at_depth(s: Seq<KNode>, d: int)
    ensures
        forall|x: KNode| #[trigger] at_depth(s, d).contains(x) ==> s.contains(x) && x.depth == d,
        at_depth(s, d).len() <= s.len(),
    decreases s.len(),
{
    if s.len() > 0 {
        let p = s.drop_last();
        lemma_at_depth(p, d);
        assert forall|x: KNode| #[trigger] at_depth(s, d).contains(x) implies s.contains(x)
            && x.depth == d by {
            if at_depth(p, d).contains(x) {
                let i = choose|i: int| 0 <= i < p.len() && p[i] == x;
                assert(s[i] == x);
            } else {
                assert(x == s.last());
            }
        }
    }
}

proof fn lemma_at_depth_concat(a: Seq<KNode>, b: Seq<KNode>, d: int)
    ensures
        at_depth(a + b, d) == at_depth(a, d) + at_depth(b, d),
    decreases b.len(),
{
    if b.len() > 0 {
        lemma_at_depth_concat(a, b.drop_last(), d);
        assert((a + b).drop_last() =~= a + b.drop_last());
        assert((at_depth(a, d) + at_depth(b.drop_last(), d)).push(b.last()) =~= at_depth(a, d) + at_depth(
            b.drop_last(),
            d,
        ).push(b.last()));
    } else {
        assert(a + b =~= a);
        assert(at_depth(a, d) + at_depth(b, d) =~= at_depth(a, d));
    }
}

/// No node is at depth `d` exactly when none is counted there.
proof fn lemma_count_at_zero(s: Seq<KNode>, d: int)
    ensures
        count_at(s, d) == 0 <==> forall|i: int| 0 <= i < s.len() ==> (#[trigger] s[i]).depth != d,
    decreases s.len(),
{
    if s.len() > 0 {
        let p = s.drop_last();
        lemma_count_at_zero(p, d);
        if count_at(s, d) == 0 {
            assert forall|i: int| 0 <= i < s.len() implies (#[trigger] s[i]).depth != d by {
                if i < p.len() {
                    assert(s[i] == p[i]);
                }
            }
        }
        if forall|i: int| 0 <= i < s.len() ==> (#[trigger] s[i]).depth != d {
            assert forall|i: int| 0 <= i < p.len() implies (#[trigger] p[i]).depth != d by {
                assert(s[i] == p[i]);
            }
            assert(s[s.len() - 1].depth != d);
        }
    }
}

proof fn lemma_min_depth(s: Seq<KNode>)
    requires
        s.len() > 0,
    ensures
        forall|i: int| 0 <= i < s.len() ==> min_depth(s) <= #[trigger] s[i].depth,
        exists|i: int| 0 <= i < s.len() && min_depth(s) == #[trigger] s[i].depth,
    decreases s.len(),
{
    if s.len() > 1 {
        let p = s.drop_last();
        lemma_min_depth(p);
        assert forall|i: int| 0 <= i < s.len() implies min_depth(s) <= #[trigger] s[i].depth by {
            if i < p.len() {
                assert(s[i] == p[i]);
            }
        }
        let j = choose|j: int| 0 <= j < p.len() && min_depth(p) == #[trigger] p[j].depth;
        if (s.last().depth as int) < min_depth(p) {
            assert(min_depth(s) == s[s.len() - 1].depth);
        } else {
            assert(min_depth(s) == s[j].depth);
        }
    } else {
        assert(min_depth(s) == s[0].depth);
    }
}

proof fn lemma_find_id_prefix(s: Seq<KNode>, id: NodeID, k: int)
    requires
        0 <= k <= s.len(),
        find_id(s.take(k), id) is Some,
    ensures
        find_id(s, id) == find_id(s.take(k), id),
    decreases s.len() - k,
{
    if k < s.len() {
        lemma_prefix_step(s, k);
        lemma_find_id_prefix(s, id, k + 1);
    } else {
        assert(s.take(k) =~= s);
    }
}

proof fn lemma_find_id_some(s: Seq<KNode>, id: NodeID)
    ensures
        find_id(s, id) matches Some(i) ==> 0 <= i < s.len() && s[i].id == id,
        find_id(s, id) is None <==> !has_id(s, id),
    decreases s.len(),
{
    if s.len() > 0 {
        let p = s.drop_last();
        lemma_find_id_some(p, id);
        if find_id(s, id) is None {
            assert forall|i: int| 0 <= i < s.len() implies (#[trigger] s[i]).id != id by {
                if i < p.len() {
                    assert(s[i] == p[i]);
                    if s[i].id == id {
                        assert(p[i].id == id);
                    }
                }
            }
        }
        if has_id(p, id) {
            let i = choose|i: int| 0 <= i < p.len() && (#[trigger] p[i]).id == id;
            assert(s[i].id == id);
        }
        if s.last().id == id {
            assert(s[s.len() - 1].id == id);
        }
    }
}

proof fn lemma_without_ids(s: Seq<KNode>, ns: Seq<KNode>)
    ensures
        forall|x: KNode| #[trigger] without_ids(s, ns).contains(x) ==> s.contains(x) && !has_id(ns, x.id),
        without_ids(s, ns).len() <= s.len(),
    decreases s.len(),
{
    if s.len() > 0 {
        let p = s.drop_last();
        lemma_without_ids(p, ns);
        let w = without_ids(p, ns);
        assert forall|x: KNode| #[trigger] without_ids(s, ns).contains(x) implies s.contains(x)
            && !has_id(ns, x.id) by {
            if w.contains(x) {
                let i = choose|i: int| 0 <= i < p.len() && p[i] == x;
                assert(s[i] == x);
            } else {
                assert(x == s.last());
            }
        }
    }
}

proof fn lemma_range_subset(s1: Seq<KNode>, s2: Seq<KNode>, root: NodeID, lo: int, hi: int)
    requires
        nodes_in_range(s1, root, lo, hi),
        forall|x: KNode| #[trigger] s2.contains(x) ==> s1.contains(x),
    ensures
        nodes_in_range(s2, root, lo, hi),
{
    assert forall|i: int| 0 <= i < s2.len() implies (#[trigger] s2[i]).ok(root) && lo <= s2[i].depth
        <= hi by {
        assert(s2.contains(s2[i]));
        let j = choose|j: int| 0 <= j < s1.len() && s1[j] == s2[i];
        assert(s1[j].ok(root));
    }
}

proof fn lemma_range_push(s: Seq<KNode>, n: KNode, root: NodeID, lo: int, hi: int)
    requires
        nodes_in_range(s, root, lo, hi),
        n.ok(root),
        lo <= n.depth <= hi,
    ensures
        nodes_in_range(s.push(n), root, lo, hi),
{
    let r = s.push(n);
    assert forall|i: int| 0 <= i < r.len() implies (#[trigger] r[i]).ok(root) && lo <= r[i].depth
        <= hi by {
        if i < s.len() {
            assert(r[i] == s[i]);
        }
    }
}

proof fn lemma_range_remove(s: Seq<KNode>, p: int, root: NodeID, lo: int, hi: int)
    requires
        nodes_in_range(s, root, lo, hi),
        0 <= p < s.len(),
    ensures
        nodes_in_range(s.remove(p), root, lo, hi),
{
    let r = s.remove(p);
    assert forall|i: int| 0 <= i < r.len() implies (#[trigger] r[i]).ok(root) && lo <= r[i].depth
        <= hi by {
        if i < p {
            assert(r[i] == s[i]);
        } else {
            assert(r[i] == s[i + 1]);
        }
    }
}

proof fn lemma_range_widen(s: Seq<KNode>, root: NodeID, lo: int, hi: int, lo2: int, hi2: int)
    requires
        nodes_in_range(s, root, lo, hi),
        lo2 <= lo,
        hi <= hi2,
    ensures
        nodes_in_range(s, root, lo2, hi2),
{
    assert forall|i: int| 0 <= i < s.len() implies (#[trigger] s[i]).ok(root) && lo2 <= s[i].depth
        <= hi2 by {
        assert(s[i].ok(root));
    }
}

// ---------------------------------------------------------------------------
// Executable helpers on vectors of nodes
// ---------------------------------------------------------------------------

fn at_depth_push(r: &mut Vec<KNode>, s: &Vec<KNode>, d: usize)
    ensures
        final(r)@ == old(r)@ + at_depth(s@, d as int),
{
    let mut i: usize = 0;
    while i < s.len()
        invariant
            0 <= i <= s.len(),
            r@ == old(r)@ + at_depth(s@.take(i as int), d as int),
        decreases s.len() - i,
    {
        proof {
            lemma_prefix_step(s@, i as int);
        }
        if s[i].depth == d {
            let ghost r0 = r@;
            r.push(s[i]);
            proof {
                assert(r@ =~= old(r)@ + at_depth(s@.take(i + 1), d as int));
            }
        }
        i = i + 1;
    }
    proof {
        assert(s@.take(s.len() as int) =~= s@);
    }
}

fn find_id_exec(s: &Vec<KNode>, id: &NodeID) -> (r: Option<usize>)
    ensures
        r matches Some(i) ==> find_id(s@, *id) == Some(i as int),
        r is None ==> find_id(s@, *id) is None,
{
    let mut i: usize = 0;
    while i < s.len()
        invariant
            0 <= i <= s.len(),
            find_id(s@.take(i as int), *id) is None,
        decreases s.len() - i,
    {
        proof {
            lemma_prefix_step(s@, i as int);
        }
        if s[i].id.same(id) {
            proof {
                lemma_find_id_prefix(s@, *id, i + 1);
            }
            return Some(i);
        }
        i = i + 1;
    }
    proof {
        assert(s@.take(s.len() as int) =~= s@);
    }
    None
}

fn without_ids_exec(s: &Vec<KNode>, ns: &Vec<KNode>) -> (r: Vec<KNode>)
    ensures
        r@ == without_ids(s@, ns@),
{
    let mut r: Vec<KNode> = Vec::new();
    let mut i: usize = 0;
    while i < s.len()
        invariant
            0 <= i <= s.len(),
            r@ == without_ids(s@.take(i as int), ns@),
        decreases s.len() - i,
    {
        proof {
            lemma_prefix_step(s@, i as int);
            lemma_find_id_some(ns@, s@[i as int].id);
        }
        if find_id_exec(ns, &s[i].id).is_none() {
            r.push(s[i]);
        }
        i = i + 1;
    }
    proof {
        assert(s@.take(s.len() as int) =~= s@);
    }
    r
}

fn ids_at_depth_exec(s: &Vec<KNode>, d: usize) -> (r: Vec<NodeID>)
    ensures
        r@ == ids_at_depth(s@, d as int),
{
    let mut r: Vec<NodeID> = Vec::new();
    let mut i: usize = 0;
    while i < s.len()
        invariant
            0 <= i <= s.len(),
            r@ == ids_at_depth(s@.take(i as int), d as int),
        decreases s.len() - i,
    {
        proof {
            lemma_prefix_step(s@, i as int);
        }
        if s[i].depth == d {
            proof {
                assert(ids_of(at_depth(s@.take(i + 1), d as int)) =~= ids_of(
                    at_depth(s@.take(i as int), d as int),
                ).push(s@[i as int].id));
            }
            r.push(s[i].id);
        }
        i = i + 1;
    }
    proof {
        assert(s@.take(s.len() as int) =~= s@);
    }
    r
}

fn ids_exec(s: &Vec<KNode>) -> (r: Vec<NodeID>)
    ensures
        r@ == ids_of(s@),
{
    let mut r: Vec<NodeID> = Vec::new();
    let mut i: usize = 0;
    while i < s.len()
        invariant
            0 <= i <= s.len(),
            r@ == ids_of(s@.take(i as int)),
        decreases s.len() - i,
    {
        proof {
            assert(ids_of(s@.take(i + 1)) =~= ids_of(s@.take(i as int)).push(s@[i as int].id));
        }
        r.push(s[i].id);
        i = i + 1;
    }
    proof {
        assert(s@.take(s.len() as int) =~= s@);
    }
    r
}

fn min_depth_exec(s: &Vec<KNode>) -> (r: usize)
    requires
        s.len() > 0,
    ensures
        r == min_depth(s@),
{
    let mut m: usize = s[0].depth;
    let mut i: usize = 1;
    proof {
        assert(s@.take(1).len() == 1);
        assert(s@.take(1)[0] == s@[0]);
    }
    while i < s.len()
        invariant
            1 <= i <= s.len(),
            m == min_depth(s@.take(i as int)),
        decreases s.len() - i,
    {
        proof {
            lemma_prefix_step(s@, i as int);
        }
        if s[i].depth < m {
            m = s[i].depth;
        }
        i = i + 1;
    }
    proof {
        assert(s@.take(s.len() as int) =~= s@);
    }
    m
}

fn push_ids(v: &mut Vec<NodeID>, other: &Vec<NodeID>)
    ensures
        final(v)@ == old(v)@ + other@,
{
    let mut i: usize = 0;
    while i < other.len()
        invariant
            0 <= i <= other.len(),
            v@ == old(v)@ + other@.take(i as int),
        decreases other.len() - i,
    {
        proof {
            assert(old(v)@ + other@.take(i + 1) =~= (old(v)@ + other@.take(i as int)).push(
                other@[i as int],
            ));
        }
        v.push(other[i]);
        i = i + 1;
    }
    proof {
        assert(other@.take(other.len() as int) =~= other@);
    }
}

// ---------------------------------------------------------------------------
// Buckets
// ---------------------------------------------------------------------------

/// How full a bucket is.
#[derive(Debug, Clone, Copy, PartialEq, Eq, Structural)]
pub enum BucketStatus {
    // #nodes > 2k
    Overflowing,
    // k <= #nodes <= 2k
    Stable,
    // #nodes < k
    Wanting,
}

/// The contents of a bucket: its active nodes, its cached nodes waiting to become
/// active, its configuration and whether it is the root bucket.
pub struct BucketView {
    pub active: Seq<KNode>,
    pub cache: Seq<KNode>,
    pub config: Config,
    pub is_root: bool,
}

impl BucketView {
    pub open spec fn size(self) -> nat {
        self.active.len() + self.cache.len()
    }

    /// A bucket whose nodes are well-formed for `root` with depths in `[lo, hi]`
    /// and, unless it is the root bucket, holds at most `k` active and `k` cached
    /// nodes.
    pub open spec fn wf(self, root: NodeID, lo: int, hi: int) -> bool {
        &&& self.config.valid()
        &&& nodes_in_range(self.active, root, lo, hi)
        &&& nodes_in_range(self.cache, root, lo, hi)
        &&& !self.is_root ==> self.active.len() <= self.config.k && self.cache.len()
            <= self.config.k
    }

    /// The root bucket takes every node as active; another bucket fills its
    /// active nodes, then its cache, and drops the node when both are full.
    pub open spec fn add_node(self, n: KNode) -> BucketView {
        if self.is_root || self.active.len() < self.config.k {
            BucketView { active: self.active.push(n), ..self }
        } else if self.cache.len() < self.config.k {
            BucketView { cache: self.cache.push(n), ..self }
        } else {
            self
        }
    }

    pub open spec fn add_nodes(self, ns: Seq<KNode>) -> BucketView
        decreases ns.len(),
    {
        if ns.len() == 0 {
            self
        } else {
            self.add_nodes(ns.drop_last()).add_node(ns.last())
        }
    }

    /// Moves the last cached nodes, reset, to the active nodes until there are `k`
    /// active nodes or no cached node is left.
    pub open spec fn cache_to_active(self) -> BucketView
        decreases self.cache.len(),
    {
        if self.active.len() < self.config.k && self.cache.len() > 0 {
            BucketView {
                active: self.active.push(self.cache.last().reset_spec()),
                cache: self.cache.drop_last(),
                ..self
            }.cache_to_active()
        } else {
            self
        }
    }

    /// Removes the first active node with identifier `id` and refills the active
    /// nodes from the cache; if no active node has it, removes the first cached one.
    pub open spec fn remove_node(self, id: NodeID) -> BucketView {
        match find_id(self.active, id) {
            Some(p) => BucketView { active: self.active.remove(p), ..self }.cache_to_active(),
            None => match find_id(self.cache, id) {
                Some(p) => BucketView { cache: self.cache.remove(p), ..self },
                None => self,
            },
        }
    }

    pub open spec fn remove_ids(self, ids: Seq<NodeID>) -> BucketView
        decreases ids.len(),
    {
        if ids.len() == 0 {
            self
        } else {
            self.remove_ids(ids.drop_last()).remove_node(ids.last())
        }
    }

    /// The nodes at depth `d` to take out: all of them, active ones first, but when
    /// fewer than `k` nodes would be left, those from the position of the number of
    /// nodes left up to `k` stay.
    pub open spec fn nodes_to_remove(self, d: int) -> Seq<KNode> {
        let nodes = at_depth(self.active + self.cache, d);
        let left = self.size() - nodes.len();
        if left < self.config.k {
            nodes.take(left) + nodes.skip(self.config.k as int)
        } else {
            nodes
        }
    }

    /// Takes out the nodes of `nodes_to_remove`: returns the remaining bucket and
    /// the nodes taken out.
    pub open spec fn remove_all_nodes_at_depth(self, d: int) -> (BucketView, Seq<KNode>) {
        let taken = self.nodes_to_remove(d);
        (
            BucketView {
                active: without_ids(self.active, taken),
                cache: without_ids(self.cache, taken),
                ..self
            },
            taken,
        )
    }

    /// Fewer than `k` nodes are deeper than the shallowest ones.
    pub open spec fn imbalanced(self) -> bool {
        let all = self.active + self.cache;
        all.len() > 0 && all.len() - count_at(all, min_depth(all)) < self.config.k
    }

    pub open spec fn status(self) -> BucketStatus {
        if self.size() >= 2 * self.config.k {
            if self.imbalanced() {
                BucketStatus::Stable
            } else {
                BucketStatus::Overflowing
            }
        } else if self.size() < self.config.k {
            BucketStatus::Wanting
        } else {
            BucketStatus::Stable
        }
    }

    /// Marks the node `id` as seen, looking first in the active nodes, then in the
    /// cache: the new bucket, and whether the node was found.
    pub open spec fn node_active(self, id: NodeID) -> (BucketView, bool) {
        match find_id(self.active, id) {
            Some(i) => (
                BucketView {
                    active: self.active.update(i, KNode { ticks_last: 0, ..self.active[i] }),
                    ..self
                },
                true,
            ),
            None => match find_id(self.cache, id) {
                Some(p) => (
                    BucketView {
                        cache: self.cache.update(p, KNode { ticks_last: 0, ..self.cache[p] }),
                        ..self
                    },
                    true,
                ),
                None => (self, false),
            },
        }
    }

    /// Ticks the active nodes and removes those that timed out: returns the new
    /// bucket, the removed nodes and the active nodes to ping.
    pub open spec fn tick(self) -> (BucketView, Seq<NodeID>, Seq<NodeID>) {
        let t = ticked_all(self.active);
        let deleted = timeout_ids(t, self.config.ping_timeout);
        let b = BucketView { active: t, ..self }.remove_ids(deleted);
        (b, deleted, ping_ids(b.active, self.config.ping_interval))
    }

    pub open spec fn tickable(self) -> bool {
        nodes_tickable(self.active)
    }
}

// Lemmas: the bucket operations keep buckets well-formed.

proof fn lemma_add_node_wf(b: BucketView, n: KNode, root: NodeID, lo: int, hi: int)
    requires
        b.wf(root, lo, hi),
        n.ok(root),
        lo <= n.depth <= hi,
    ensures
        b.add_node(n).wf(root, lo, hi),
        b.add_node(n).size() <= b.size() + 1,
        b.add_node(n).config == b.config,
        b.add_node(n).is_root == b.is_root,
{
    lemma_range_push(b.cache, n, root, lo, hi);
    lemma_range_push(b.active, n, root, lo, hi);
}

proof fn lemma_add_nodes_wf(b: BucketView, ns: Seq<KNode>, root: NodeID, lo: int, hi: int)
    requires
        b.wf(root, lo, hi),
        nodes_in_range(ns, root, lo, hi),
    ensures
        b.add_nodes(ns).wf(root, lo, hi),
        b.add_nodes(ns).size() <= b.size() + ns.len(),
        b.add_nodes(ns).config == b.config,
        b.add_nodes(ns).is_root == b.is_root,
    decreases ns.len(),
{
    if ns.len() > 0 {
        let p = ns.drop_last();
        assert(nodes_in_range(p, root, lo, hi)) by {
            assert forall|i: int| 0 <= i < p.len() implies (#[trigger] p[i]).ok(root) && lo
                <= p[i].depth <= hi by {
                assert(p[i] == ns[i]);
            }
        }
        lemma_add_nodes_wf(b, p, root, lo, hi);
        assert(ns[ns.len() - 1].ok(root));
        lemma_add_node_wf(b.add_nodes(p), ns.last(), root, lo, hi);
    }
}

proof fn lemma_cache_to_active_wf(b: BucketView, root: NodeID, lo: int, hi: int)
    requires
        b.wf(root, lo, hi),
    ensures
        b.cache_to_active().wf(root, lo, hi),
        b.cache_to_active().size() == b.size(),
        b.cache_to_active().config == b.config,
        b.cache_to_active().is_root == b.is_root,
    decreases b.cache.len(),
{
    if b.active.len() < b.config.k && b.cache.len() > 0 {
        let n = b.cache.last();
        assert(b.cache[b.cache.len() - 1].ok(root));
        lemma_range_push(b.active, n.reset_spec(), root, lo, hi);
        let c = b.cache.drop_last();
        assert(nodes_in_range(c, root, lo, hi)) by {
            assert forall|i: int| 0 <= i < c.len() implies (#[trigger] c[i]).ok(root) && lo
                <= c[i].depth <= hi by {
                assert(c[i] == b.cache[i]);
            }
        }
        let b2 = BucketView { active: b.active.push(n.reset_spec()), cache: c, ..b };
        lemma_cache_to_active_wf(b2, root, lo, hi);
    }
}

proof fn lemma_remove_node_wf(b: BucketView, id: NodeID, root: NodeID, lo: int, hi: int)
    requires
        b.wf(root, lo, hi),
    ensures
        b.remove_node(id).wf(root, lo, hi),
        b.remove_node(id).size() <= b.size(),
        b.remove_node(id).config == b.config,
        b.remove_node(id).is_root == b.is_root,
{
    lemma_find_id_some(b.active, id);
    lemma_find_id_some(b.cache, id);
    match find_id(b.active, id) {
        Some(p) => {
            lemma_range_remove(b.active, p, root, lo, hi);
            lemma_cache_to_active_wf(BucketView { active: b.active.remove(p), ..b }, root, lo, hi);
        },
        None => match find_id(b.cache, id) {
            Some(p) => {
                lemma_range_remove(b.cache, p, root, lo, hi);
            },
            None => {},
        },
    }
}

proof fn lemma_remove_ids_wf(b: BucketView, ids: Seq<NodeID>, root: NodeID, lo: int, hi: int)
    requires
        b.wf(root, lo, hi),
    ensures
        b.remove_ids(ids).wf(root, lo, hi),
        b.remove_ids(ids).size() <= b.size(),
        b.remove_ids(ids).config == b.config,
        b.remove_ids(ids).is_root == b.is_root,
    decreases ids.len(),
{
    if ids.len() > 0 {
        lemma_remove_ids_wf(b, ids.drop_last(), root, lo, hi);
        lemma_remove_node_wf(b.remove_ids(ids.drop_last()), ids.last(), root, lo, hi);
    }
}

proof fn lemma_node_active_wf(b: BucketView, id: NodeID, root: NodeID, lo: int, hi: int)
    requires
        b.wf(root, lo, hi),
    ensures
        b.node_active(id).0.wf(root, lo, hi),
        b.node_active(id).0.config == b.config,
        b.node_active(id).0.is_root == b.is_root,
        b.node_active(id).0.size() == b.size(),
{
    lemma_find_id_some(b.active, id);
    lemma_find_id_some(b.cache, id);
    match find_id(b.active, id) {
        Some(i) => {
            let a2 = b.active.update(i, KNode { ticks_last: 0, ..b.active[i] });
            assert(b.active[i].ok(root));
            assert forall|j: int| 0 <= j < a2.len() implies (#[trigger] a2[j]).ok(root) && lo
                <= a2[j].depth <= hi by {
                if j != i {
                    assert(a2[j] == b.active[j]);
                }
            }
        },
        None => match find_id(b.cache, id) {
            Some(p) => {
                let c2 = b.cache.update(p, KNode { ticks_last: 0, ..b.cache[p] });
                assert(b.cache[p].ok(root));
                assert forall|j: int| 0 <= j < c2.len() implies (#[trigger] c2[j]).ok(root) && lo
                    <= c2[j].depth <= hi by {
                    if j != p {
                        assert(c2[j] == b.cache[j]);
                    }
                }
            },
            None => {},
        },
    }
}

proof fn lemma_tick_wf(b: BucketView, root: NodeID, lo: int, hi: int)
    requires
        b.wf(root, lo, hi),
        b.tickable(),
    ensures
        b.tick().0.wf(root, lo, hi),
        b.tick().0.config == b.config,
        b.tick().0.is_root == b.is_root,
        b.tick().0.size() <= b.size(),
{
    let t = ticked_all(b.active);
    assert(nodes_in_range(t, root, lo, hi)) by {
        assert forall|i: int| 0 <= i < t.len() implies (#[trigger] t[i]).ok(root) && lo
            <= t[i].depth <= hi by {
            assert(b.active[i].ok(root));
        }
    }
    let b1 = BucketView { active: t, ..b };
    lemma_remove_ids_wf(b1, timeout_ids(t, b.config.ping_timeout), root, lo, hi);
}

/// Removing the nodes at depth `d` from an overflowing bucket whose nodes are at
/// least as deep as `d` takes out all nodes at depth `d` and leaves only deeper
/// nodes.
proof fn lemma_remove_all_overflowing(b: BucketView, root: NodeID, d: int)
    requires
        b.wf(root, d, 255),
        b.status() == BucketStatus::Overflowing,
    ensures
        b.remove_all_nodes_at_depth(d).0.wf(root, d + 1, 255),
        b.remove_all_nodes_at_depth(d).0.config == b.config,
        b.remove_all_nodes_at_depth(d).0.is_root == b.is_root,
        b.remove_all_nodes_at_depth(d).0.size() <= b.size(),
        b.nodes_to_remove(d) == at_depth(b.active + b.cache, d),
        nodes_in_range(b.remove_all_nodes_at_depth(d).1, root, d, d),
{
    let all = b.active + b.cache;
    let nodes = at_depth(all, d);
    lemma_at_depth(all, d);
    assert(all.len() > 0);
    lemma_min_depth(all);
    let m = min_depth(all);
    let j = choose|j: int| 0 <= j < all.len() && m == #[trigger] all[j].depth;
    assert forall|i: int| 0 <= i < all.len() implies (#[trigger] all[i]).ok(root) && d <= all[i].depth
        <= 255 by {
        if i < b.active.len() {
            assert(all[i] == b.active[i]);
        } else {
            assert(all[i] == b.cache[i - b.active.len()]);
        }
    }
    if m > d {
        assert forall|i: int| 0 <= i < all.len() implies (#[trigger] all[i]).depth != d by {}
        lemma_count_at_zero(all, d);
    }
    // Not imbalanced: at least k nodes are deeper than the shallowest ones.
    assert(all.len() - nodes.len() >= b.config.k);
    let taken = b.nodes_to_remove(d);
    assert(taken == nodes);
    let (r, t) = b.remove_all_nodes_at_depth(d);
    lemma_without_ids(b.active, taken);
    lemma_without_ids(b.cache, taken);
    assert forall|x: KNode| #[trigger] r.active.contains(x) implies x.depth != d by {
        assert(b.active.contains(x) && !has_id(taken, x.id));
        let i = choose|i: int| 0 <= i < b.active.len() && b.active[i] == x;
        assert(all[i] == x);
        if x.depth == d {
            lemma_at_depth_member(all, d, i);
            assert(false);
        }
    }
    assert forall|x: KNode| #[trigger] r.cache.contains(x) implies x.depth != d by {
        assert(b.cache.contains(x) && !has_id(taken, x.id));
        let i = choose|i: int| 0 <= i < b.cache.len() && b.cache[i] == x;
        assert(all[b.active.len() + i] == x);
        if x.depth == d {
            lemma_at_depth_member(all, d, b.active.len() + i);
            assert(false);
        }
    }
    lemma_range_subset(b.active, r.active, root, d, 255);
    lemma_range_subset(b.cache, r.cache, root, d, 255);
    assert forall|i: int| 0 <= i < r.active.len() implies (#[trigger] r.active[i]).ok(root) && d + 1
        <= r.active[i].depth <= 255 by {
        assert(r.active.contains(r.active[i]));
    }
    assert forall|i: int| 0 <= i < r.cache.len() implies (#[trigger] r.cache[i]).ok(root) && d + 1
        <= r.cache[i].depth <= 255 by {
        assert(r.cache.contains(r.cache[i]));
    }
    assert forall|i: int| 0 <= i < t.len() implies (#[trigger] t[i]).ok(root) && d <= t[i].depth
        <= d by {
        assert(t.contains(t[i]));
        let k = choose|k: int| 0 <= k < all.len() && all[k] == t[i];
    }
}

/// A node of `s` at depth `d` has its identifier among those at depth `d`.
proof fn lemma_at_depth_member(s: Seq<KNode>, d: int, i: int)
    requires
        0 <= i < s.len(),
        s[i].depth == d,
    ensures
        has_id(at_depth(s, d), s[i].id),
    decreases s.len(),
{
    let p = s.drop_last();
    if i < s.len() - 1 {
        assert(p[i] == s[i]);
        lemma_at_depth_member(p, d, i);
        let j = choose|j: int| 0 <= j < at_depth(p, d).len() && (#[trigger] at_depth(p, d)[j]).id == s[i].id;
        if s.last().depth == d {
            assert(at_depth(s, d)[j] == at_depth(p, d)[j]);
        }
    } else {
        let a = at_depth(s, d);
        assert(a[a.len() - 1] == s[i]);
    }
}

/// A bucket of nodes. The root bucket holds every node deeper than the other
/// buckets.
#[derive(Debug, Clone)]
struct KBucket {
    active: Vec<KNode>,
    cache: Vec<KNode>,
    config: Config,
    is_root: bool,
}

impl View for KBucket {
    type V = BucketView;

    closed spec fn view(&self) -> BucketView {
        BucketView {
            active: self.active@,
            cache: self.cache@,
            config: self.config,
            is_root: self.is_root,
        }
    }
}

/// The nodes that were removed in a tick, and the nodes that need to be pinged.
#[derive(Debug, Clone, PartialEq, Default)]
pub struct TickIDs {
    pub deleted: Vec<NodeID>,
    pub ping: Vec<NodeID>,
}

impl TickIDs {
    pub fn new() -> (r: TickIDs)
        ensures
            r.deleted@ == Seq::<NodeID>::empty(),
            r.ping@ == Seq::<NodeID>::empty(),
    {
        TickIDs { deleted: Vec::new(), ping: Vec::new() }
    }

    /// Appends the identifiers of `other`.
    pub fn extend(&mut self, other: TickIDs)
        ensures
            final(self).deleted@ == old(self).deleted@ + other.deleted@,
            final(self).ping@ == old(self).ping@ + other.ping@,
    {
        push_ids(&mut self.deleted, &other.deleted);
        push_ids(&mut self.ping, &other.ping);
    }
}

impl KBucket {
    fn new(config: Config) -> (r: KBucket)
        ensures
            r@ == (BucketView { active: Seq::empty(), cache: Seq::empty(), config, is_root: false }),
    {
        KBucket { active: Vec::new(), cache: Vec::new(), config, is_root: false }
    }

    fn new_root(config: Config) -> (r: KBucket)
        ensures
            r@ == (BucketView { active: Seq::empty(), cache: Seq::empty(), config, is_root: true }),
    {
        KBucket { active: Vec::new(), cache: Vec::new(), config, is_root: true }
    }

    fn add_node(&mut self, node: KNode)
        ensures
            final(self)@ == old(self)@.add_node(node),
    {
        if self.is_root {
            self.active.push(node);
        } else if self.active.len() < self.config.k {
            self.active.push(node);
        } else if self.cache.len() < self.config.k {
            self.cache.push(node);
        }
    }

    fn add_nodes(&mut self, nodes: Vec<KNode>)
        ensures
            final(self)@ == old(self)@.add_nodes(nodes@),
    {
        let mut i: usize = 0;
        while i < nodes.len()
            invariant
                0 <= i <= nodes.len(),
                self@ == old(self)@.add_nodes(nodes@.take(i as int)),
            decreases nodes.len() - i,
        {
            proof {
                lemma_prefix_step(nodes@, i as int);
            }
            self.add_node(nodes[i]);
            i = i + 1;
        }
        proof {
            assert(nodes@.take(nodes.len() as int) =~= nodes@);
        }
    }

    fn remove_node(&mut self, id: &NodeID)
        ensures
            final(self)@ == old(self)@.remove_node(*id),
    {
        proof {
            lemma_find_id_some(self.active@, *id);
            lemma_find_id_some(self.cache@, *id);
        }
        if let Some(pos) = find_id_exec(&self.active, id) {
            self.active.remove(pos);
            self.cache_to_active();
        } else if let Some(pos) = find_id_exec(&self.cache, id) {
            self.cache.remove(pos);
        }
    }

    fn cache_to_active(&mut self)
        ensures
            final(self)@ == old(self)@.cache_to_active(),
    {
        while self.active.len() < self.config.k && self.cache.len() > 0
            invariant
                self@.cache_to_active() == old(self)@.cache_to_active(),
            decreases self.cache.len(),
        {
            let ghost v = self@;
            let mut node = self.cache.pop().unwrap();
            node.reset();
            self.active.push(node);
            proof {
                assert(self@ == (BucketView {
                    active: v.active.push(v.cache.last().reset_spec()),
                    cache: v.cache.drop_last(),
                    ..v
                }));
            }
        }
    }

    fn remove_all_nodes_at_depth(&mut self, depth: usize) -> (r: Vec<KNode>)
        requires
            old(self)@.size() <= usize::MAX,
            old(self)@.size() >= 2 * old(self).config.k,
        ensures
            (final(self)@, r@) == old(self)@.remove_all_nodes_at_depth(depth as int),
    {
        let mut nodes: Vec<KNode> = Vec::new();
        at_depth_push(&mut nodes, &self.active, depth);
        at_depth_push(&mut nodes, &self.cache, depth);
        proof {
            lemma_at_depth_concat(self.active@, self.cache@, depth as int);
            lemma_at_depth(self.active@ + self.cache@, depth as int);
            assert(nodes@ == at_depth(self.active@ + self.cache@, depth as int));
        }
        let left = self.active.len() + self.cache.len() - nodes.len();
        if left < self.config.k {
            let mut kept: Vec<KNode> = Vec::new();
            let mut i: usize = 0;
            while i < nodes.len()
                invariant
                    0 <= i <= nodes.len(),
                    left < self.config.k <= nodes.len(),
                    kept@ == nodes@.take(if i < left { i as int } else { left as int }) + (if i
                        <= self.config.k {
                        Seq::<KNode>::empty()
                    } else {
                        nodes@.subrange(self.config.k as int, i as int)
                    }),
                decreases nodes.len() - i,
            {
                if i < left || i >= self.config.k {
                    kept.push(nodes[i]);
                }
                proof {
                    if i < left {
                        assert(nodes@.take(i + 1) =~= nodes@.take(i as int).push(nodes@[i as int]));
                    } else if i >= self.config.k {
                        assert(nodes@.subrange(self.config.k as int, i + 1) =~= (if i
                            <= self.config.k {
                            Seq::<KNode>::empty()
                        } else {
                            nodes@.subrange(self.config.k as int, i as int)
                        }).push(nodes@[i as int]));
                    }
                }
                i = i + 1;
            }
            proof {
                assert(kept@ =~= nodes@.take(left as int) + nodes@.skip(self.config.k as int));
            }
            nodes = kept;
        }
        self.active = without_ids_exec(&self.active, &nodes);
        self.cache = without_ids_exec(&self.cache, &nodes);
        nodes
    }

    fn get_active_ids(&self, depth: usize) -> (r: Vec<NodeID>)
        ensures
            r@ == ids_at_depth(self.active@, depth as int),
    {
        ids_at_depth_exec(&self.active, depth)
    }

    // Rust range expressions:
    // 0..k nodes: wanting
    // k..=2k nodes: stable
    // 2k+1.. nodes: overflowing
    fn status(&mut self) -> (r: BucketStatus)
        requires
            old(self).config.valid(),
            old(self)@.size() <= usize::MAX,
        ensures
            r == old(self)@.status(),
            *final(self) == *old(self),
    {
        let nodes = self.active.len() + self.cache.len();
        if nodes >= 2 * self.config.k {
            // Check if we're in the edge-case of having too few different nodes.
            if self.overflow_imbalance() {
                BucketStatus::Stable
            } else {
                BucketStatus::Overflowing
            }
        } else if nodes < self.config.k {
            BucketStatus::Wanting
        } else {
            BucketStatus::Stable
        }
    }

    fn overflow_imbalance(&self) -> (r: bool)
        requires
            self@.size() <= usize::MAX,
        ensures
            r == self@.imbalanced(),
    {
        let mut depths: Vec<KNode> = Vec::new();
        let mut i: usize = 0;
        while i < self.active.len()
            invariant
                0 <= i <= self.active.len(),
                depths@ == self.active@.take(i as int),
            decreases self.active.len() - i,
        {
            proof {
                lemma_prefix_step(self.active@, i as int);
            }
            depths.push(self.active[i]);
            i = i + 1;
        }
        let mut j: usize = 0;
        while j < self.cache.len()
            invariant
                0 <= j <= self.cache.len(),
                i == self.active.len(),
                depths@ == self.active@.take(i as int) + self.cache@.take(j as int),
            decreases self.cache.len() - j,
        {
            proof {
                assert(self.active@.take(i as int) + self.cache@.take(j + 1) =~= (self.active@.take(
                    i as int,
                ) + self.cache@.take(j as int)).push(self.cache@[j as int]));
            }
            depths.push(self.cache[j]);
            j = j + 1;
        }
        proof {
            assert(depths@ =~= self.active@ + self.cache@);
        }
        if depths.len() == 0 {
            return false;
        }
        let first = min_depth_exec(&depths);
        let mut at: Vec<KNode> = Vec::new();
        at_depth_push(&mut at, &depths, first);
        proof {
            assert(at@ =~= at_depth(depths@, first as int));
            lemma_at_depth(depths@, first as int);
        }
        depths.len() - at.len() < self.config.k
    }

    fn tick(&mut self) -> (r: TickIDs)
        requires
            old(self)@.tickable(),
            old(self).config.ping_interval > 0,
        ensures
            (final(self)@, r.deleted@, r.ping@) == old(self)@.tick(),
    {
        let interval = self.config.ping_interval;
        let mut delete_ids: Vec<NodeID> = Vec::new();
        let ghost t = ticked_all(self.active@);
        let ghost old_active = self.active@;
        let mut i: usize = 0;
        while i < self.active.len()
            invariant
                0 <= i <= self.active.len(),
                self.active@.len() == old_active.len(),
                t == ticked_all(old_active),
                nodes_tickable(old_active),
                forall|j: int| 0 <= j < i ==> self.active@[j] == t[j],
                forall|j: int| i <= j < self.active@.len() ==> self.active@[j] == old_active[j],
                delete_ids@ == timeout_ids(t.take(i as int), self.config.ping_timeout),
                self.config == old(self).config,
                self.cache == old(self).cache,
                self.is_root == old(self).is_root,
            decreases self.active.len() - i,
        {
            proof {
                lemma_prefix_step(t, i as int);
            }
            let mut node = self.active[i];
            node.tick();
            self.active.set(i, node);
            if node.ticks_last >= self.config.ping_timeout {
                delete_ids.push(node.id);
            }
            i = i + 1;
        }
        proof {
            assert(self.active@ =~= t);
            assert(t.take(t.len() as int) =~= t);
        }
        let ghost b1 = self@;
        let mut k: usize = 0;
        while k < delete_ids.len()
            invariant
                0 <= k <= delete_ids.len(),
                self@ == b1.remove_ids(delete_ids@.take(k as int)),
            decreases delete_ids.len() - k,
        {
            proof {
                lemma_prefix_step(delete_ids@, k as int);
            }
            let id = delete_ids[k];
            self.remove_node(&id);
            k = k + 1;
        }
        proof {
            assert(delete_ids@.take(delete_ids.len() as int) =~= delete_ids@);
        }
        let mut ping: Vec<NodeID> = Vec::new();
        let mut p: usize = 0;
        while p < self.active.len()
            invariant
                0 <= p <= self.active.len(),
                ping@ == ping_ids(self.active@.take(p as int), interval),
                interval == old(self).config.ping_interval,
                interval > 0,
            decreases self.active.len() - p,
        {
            proof {
                lemma_prefix_step(self.active@, p as int);
            }
            let kn = self.active[p];
            if kn.ticks_last > 0 && kn.ticks_last % interval == 0 {
                ping.push(kn.id);
            }
            p = p + 1;
        }
        proof {
            assert(self.active@.take(self.active.len() as int) =~= self.active@);
        }
        TickIDs { deleted: delete_ids, ping }
    }

    fn node_active(&mut self, id: &NodeID) -> (r: bool)
        ensures
            (final(self)@, r) == old(self)@.node_active(*id),
    {
        if let Some(i) = find_id_exec(&self.active, id) {
            proof {
                lemma_find_id_some(self.active@, *id);
            }
            let mut kn = self.active[i];
            kn.active();
            self.active.set(i, kn);
            return true;
        }
        if let Some(p) = find_id_exec(&self.cache, id) {
            proof {
                lemma_find_id_some(self.cache@, *id);
            }
            let mut kn = self.cache[p];
            kn.active();
            self.cache.set(p, kn);
            return true;
        }
        false
    }

    fn has_node_id(&self, id: &NodeID) -> (r: bool)
        ensures
            r == (has_id(self.active@, *id) || has_id(self.cache@, *id)),
    {
        let a = find_id_exec(&self.active, id);
        let c = find_id_exec(&self.cache, id);
        proof {
            lemma_find_id_some(self.active@, *id);
            lemma_find_id_some(self.cache@, *id);
        }
        a.is_some() || c.is_some()
    }
}

// ---------------------------------------------------------------------------
// The routing table
// ---------------------------------------------------------------------------

/// A node other than the root lies at a depth below 256.
proof fn lemma_depth_bound(root: NodeID, id: NodeID)
    ensures
        0 <= depth_of(root, id) <= 256,
        id != root ==> depth_of(root, id) < 256,
{
    lemma_first_difference_spec(root, id, 0);
    if depth_of(root, id) == 256 {
        lemma_no_difference_equal(root, id);
    }
}

/// The contents of a routing table: its buckets, its root bucket, the root node and
/// the configuration.
pub struct KademliaView {
    pub buckets: Seq<BucketView>,
    pub root_bucket: BucketView,
    pub root: NodeID,
    pub config: Config,
}

pub open spec fn sum_sizes(bs: Seq<BucketView>) -> nat
    decreases bs.len(),
{
    if bs.len() == 0 {
        0
    } else {
        sum_sizes(bs.drop_last()) + bs.last().size()
    }
}

/// The identifiers of the active nodes of the buckets, bucket by bucket.
pub open spec fn active_ids(bs: Seq<BucketView>) -> Seq<NodeID>
    decreases bs.len(),
{
    if bs.len() == 0 {
        Seq::empty()
    } else {
        active_ids(bs.drop_last()) + ids_of(bs.last().active)
    }
}

/// Ticks every bucket in order: the new buckets, and the removed and pinged nodes,
/// bucket by bucket.
pub open spec fn tick_buckets(bs: Seq<BucketView>) -> (Seq<BucketView>, Seq<NodeID>, Seq<NodeID>)
    decreases bs.len(),
{
    if bs.len() == 0 {
        (Seq::empty(), Seq::empty(), Seq::empty())
    } else {
        let (b2, d, p) = tick_buckets(bs.drop_last());
        let (b, d1, p1) = bs.last().tick();
        (b2.push(b), d + d1, p + p1)
    }
}

/// The node as it is stored when first seen.
pub open spec fn new_knode(root: NodeID, id: NodeID) -> KNode {
    KNode { id, depth: depth_of(root, id) as usize, ticks_active: 0, ticks_last: 0 }
}

pub open spec fn empty_bucket(config: Config) -> BucketView {
    BucketView { active: Seq::empty(), cache: Seq::empty(), config, is_root: false }
}

impl KademliaView {
    pub open spec fn total(self) -> nat {
        sum_sizes(self.buckets) + self.root_bucket.size()
    }

    /// Bucket `i` holds only nodes at depth `i`, the root bucket only nodes at least
    /// as deep as the number of buckets and other than the root; every node's
    /// stored depth is its depth from the root; buckets other than the root bucket
    /// hold at most `k` active and `k` cached nodes; and the node count fits in a
    /// `usize`.
    pub open spec fn wf(self) -> bool {
        &&& self.config.valid()
        &&& self.buckets.len() <= 256
        &&& forall|i: int|
            0 <= i < self.buckets.len() ==> {
                &&& (#[trigger] self.buckets[i]).wf(self.root, i, i)
                &&& !self.buckets[i].is_root
                &&& self.buckets[i].config == self.config
            }
        &&& self.root_bucket.wf(self.root, self.buckets.len() as int, 255)
        &&& self.root_bucket.is_root
        &&& self.root_bucket.config == self.config
        &&& self.total() <= usize::MAX
    }

    /// Every active node can be ticked once more without overflow.
    pub open spec fn tickable(self) -> bool {
        &&& forall|i: int| 0 <= i < self.buckets.len() ==> (#[trigger] self.buckets[i]).tickable()
        &&& self.root_bucket.tickable()
    }

    /// Some bucket holds a node with identifier `id`.
    pub open spec fn has_node(self, id: NodeID) -> bool {
        ||| exists|i: int|
            0 <= i < self.buckets.len() && (has_id((#[trigger] self.buckets[i]).active, id)
                || has_id(self.buckets[i].cache, id))
        ||| has_id(self.root_bucket.active, id)
        ||| has_id(self.root_bucket.cache, id)
    }

    pub open spec fn with_bucket(self, i: int, b: BucketView) -> KademliaView {
        KademliaView { buckets: self.buckets.update(i, b), ..self }
    }

    pub open spec fn with_root(self, b: BucketView) -> KademliaView {
        KademliaView { root_bucket: b, ..self }
    }

    /// One split of the root bucket: the nodes at the depth of the next bucket move
    /// to a new bucket.
    pub open spec fn overflow_step(self) -> KademliaView {
        let (r, taken) = self.root_bucket.remove_all_nodes_at_depth(self.buckets.len() as int);
        let b = empty_bucket(self.config).add_nodes(taken);
        KademliaView { buckets: self.buckets.push(b), root_bucket: r.cache_to_active(), ..self }
    }

    /// Splits the root bucket while it overflows.
    pub open spec fn rebalance_overflow(self) -> KademliaView
        decreases 256 - self.buckets.len(),
    {
        if self.root_bucket.status() == BucketStatus::Overflowing && self.buckets.len() < 256 {
            self.overflow_step().rebalance_overflow()
        } else {
            self
        }
    }

    /// One merge of the deepest bucket into the root bucket.
    pub open spec fn wanting_step(self) -> KademliaView {
        let b = self.buckets.last();
        let r = self.root_bucket.add_nodes(b.active).add_nodes(b.cache).cache_to_active();
        KademliaView { buckets: self.buckets.drop_last(), root_bucket: r, ..self }
    }

    /// Merges the deepest buckets into the root bucket while it lacks nodes.
    pub open spec fn rebalance_wanting(self) -> KademliaView
        decreases self.buckets.len(),
    {
        if self.root_bucket.status() == BucketStatus::Wanting && self.buckets.len() > 0 {
            self.wanting_step().rebalance_wanting()
        } else {
            self
        }
    }

    pub open spec fn add_node(self, id: NodeID) -> KademliaView {
        if id == self.root || self.has_node(id) {
            self
        } else {
            let n = new_knode(self.root, id);
            if (n.depth as int) < self.buckets.len() {
                self.with_bucket(n.depth as int, self.buckets[n.depth as int].add_node(n))
            } else {
                let r = self.root_bucket.add_node(n);
                if r.status() == BucketStatus::Overflowing {
                    self.with_root(r).rebalance_overflow()
                } else {
                    self.with_root(r)
                }
            }
        }
    }

    pub open spec fn add_nodes(self, ids: Seq<NodeID>) -> KademliaView
        decreases ids.len(),
    {
        if ids.len() == 0 {
            self
        } else {
            self.add_nodes(ids.drop_last()).add_node(ids.last())
        }
    }

    pub open spec fn remove_node(self, id: NodeID) -> KademliaView {
        let d = depth_of(self.root, id);
        if d < self.buckets.len() {
            self.with_bucket(d, self.buckets[d].remove_node(id))
        } else {
            let r = self.root_bucket.remove_node(id);
            if r.status() == BucketStatus::Wanting {
                self.with_root(r).rebalance_wanting()
            } else {
                self.with_root(r)
            }
        }
    }

    /// The active nodes of the root bucket at the depths from `depth` down to `lo`:
    /// the first non-empty set.
    pub open spec fn root_scan(self, depth: int, lo: int) -> Option<Seq<NodeID>>
        decreases depth - lo + 1,
    {
        if depth < lo {
            None
        } else if ids_at_depth(self.root_bucket.active, depth).len() > 0 {
            Some(ids_at_depth(self.root_bucket.active, depth))
        } else {
            self.root_scan(depth - 1, lo)
        }
    }

    /// The active nodes of bucket `depth`, if it exists and has some.
    pub open spec fn bucket_ids(self, depth: int) -> Option<Seq<NodeID>> {
        if 0 <= depth < self.buckets.len() && self.buckets[depth].active.len() > 0 {
            Some(ids_of(self.buckets[depth].active))
        } else {
            None
        }
    }

    /// The active nodes of the first non-empty bucket from `depth` down to 0.
    pub open spec fn scan_down(self, depth: int) -> Option<Seq<NodeID>>
        decreases depth + 1,
    {
        if depth < 0 {
            None
        } else {
            match self.bucket_ids(depth) {
                Some(v) => Some(v),
                None => self.scan_down(depth - 1),
            }
        }
    }

    /// The active nodes of the first non-empty bucket from `from` up to the last.
    pub open spec fn scan_up(self, from: int) -> Option<Seq<NodeID>>
        decreases self.buckets.len() - from,
    {
        if from >= self.buckets.len() {
            None
        } else {
            match self.bucket_ids(from) {
                Some(v) => Some(v),
                None => self.scan_up(from + 1),
            }
        }
    }

    /// The nodes to send a message for `id` to: the nodes of the root bucket at the
    /// depth of `id` or the nearest depth above it, else those of the bucket of
    /// that depth or the nearest non-empty one further away, else those of the
    /// nearest non-empty closer bucket.
    pub open spec fn nearest_nodes(self, id: NodeID) -> Seq<NodeID> {
        if id == self.root {
            Seq::empty()
        } else {
            let d = depth_of(self.root, id);
            match self.root_scan(d, self.buckets.len() as int) {
                Some(v) => v,
                None => match self.scan_down(d) {
                    Some(v) => v,
                    None => match self.scan_up(d + 1) {
                        Some(v) => v,
                        None => Seq::empty(),
                    },
                },
            }
        }
    }

    /// Marks `id` as seen: in its bucket if it is there, else in the root bucket.
    pub open spec fn node_active(self, id: NodeID) -> KademliaView {
        let d = depth_of(self.root, id);
        if d < self.buckets.len() && self.buckets[d].node_active(id).1 {
            self.with_bucket(d, self.buckets[d].node_active(id).0)
        } else {
            self.with_root(self.root_bucket.node_active(id).0)
        }
    }

    /// One tick of all buckets: the new table, the removed nodes and the nodes to
    /// ping.
    pub open spec fn tick(self) -> (KademliaView, Seq<NodeID>, Seq<NodeID>) {
        let (bs, d, p) = tick_buckets(self.buckets);
        let (r, d1, p1) = self.root_bucket.tick();
        (KademliaView { buckets: bs, root_bucket: r, ..self }, d + d1, p + p1)
    }

    pub open spec fn active_nodes(self) -> Seq<NodeID> {
        active_ids(self.buckets) + ids_of(self.root_bucket.active)
    }

    pub open spec fn bucket_nodes(self) -> Seq<Seq<NodeID>> {
        self.buckets.map_values(|b: BucketView| ids_of(b.active)).push(
            ids_of(self.root_bucket.active),
        )
    }

    pub open spec fn bucket_caches(self) -> Seq<Seq<NodeID>> {
        self.buckets.map_values(|b: BucketView| ids_of(b.cache)).push(
            ids_of(self.root_bucket.cache),
        )
    }
}

// Lemmas on the routing table.

proof fn lemma_sum_sizes_update(bs: Seq<BucketView>, i: int, b: BucketView)
    requires
        0 <= i < bs.len(),
    ensures
        sum_sizes(bs.update(i, b)) + bs[i].size() == sum_sizes(bs) + b.size(),
        bs[i].size() <= sum_sizes(bs),
    decreases bs.len(),
{
    let p = bs.drop_last();
    if i < bs.len() - 1 {
        lemma_sum_sizes_update(p, i, b);
        assert(bs.update(i, b).drop_last() =~= p.update(i, b));
    } else {
        assert(bs.update(i, b).drop_last() =~= p);
    }
}

proof fn lemma_sum_sizes_push(bs: Seq<BucketView>, b: BucketView)
    ensures
        sum_sizes(bs.push(b)) == sum_sizes(bs) + b.size(),
{
    assert(bs.push(b).drop_last() =~= bs);
}

proof fn lemma_with_bucket_wf(v: KademliaView, i: int, b: BucketView)
    requires
        v.wf(),
        0 <= i < v.buckets.len(),
        b.wf(v.root, i, i),
        !b.is_root,
        b.config == v.config,
        b.size() <= v.buckets[i].size() + (usize::MAX - v.total()),
    ensures
        v.with_bucket(i, b).wf(),
        v.with_bucket(i, b).total() + v.buckets[i].size() == v.total() + b.size(),
{
    lemma_sum_sizes_update(v.buckets, i, b);
    let w = v.with_bucket(i, b);
    assert forall|j: int| 0 <= j < w.buckets.len() implies {
        &&& (#[trigger] w.buckets[j]).wf(w.root, j, j)
        &&& !w.buckets[j].is_root
        &&& w.buckets[j].config == w.config
    } by {
        if j != i {
            assert(w.buckets[j] == v.buckets[j]);
        }
    }
}

proof fn lemma_overflow_step(v: KademliaView)
    requires
        v.wf(),
        v.root_bucket.status() == BucketStatus::Overflowing,
    ensures
        v.buckets.len() < 256,
        v.overflow_step().wf(),
        v.overflow_step().total() <= v.total(),
        v.overflow_step().root == v.root,
        v.overflow_step().config == v.config,
        v.overflow_step().buckets.len() == v.buckets.len() + 1,
        v.rebalance_overflow() == v.overflow_step().rebalance_overflow(),
{
    let len = v.buckets.len() as int;
    let rb = v.root_bucket;
    assert(rb.size() >= 2);
    if rb.active.len() > 0 {
        assert(rb.active[0].ok(v.root));
    } else {
        assert(rb.cache[0].ok(v.root));
    }
    assert(len < 256);
    let (r, taken) = rb.remove_all_nodes_at_depth(len);
    lemma_remove_all_overflowing(rb, v.root, len);
    lemma_cache_to_active_wf(r, v.root, len + 1, 255);
    let e = empty_bucket(v.config);
    lemma_add_nodes_wf(e, taken, v.root, len, len);
    let b = e.add_nodes(taken);
    // The new bucket keeps at most 2k of the nodes taken out.
    assert(b.size() <= 2 * v.config.k);
    assert(2 * v.config.k <= rb.size());
    let w = v.overflow_step();
    lemma_sum_sizes_push(v.buckets, b);
    assert(b.size() <= taken.len());
    lemma_taken_size(rb, len);
    assert forall|i: int| 0 <= i < w.buckets.len() implies {
        &&& (#[trigger] w.buckets[i]).wf(w.root, i, i)
        &&& !w.buckets[i].is_root
        &&& w.buckets[i].config == w.config
    } by {
        if i < len {
            assert(w.buckets[i] == v.buckets[i]);
        }
    }
    lemma_range_widen(r.cache_to_active().active, v.root, len + 1, 255, len + 1, 255);
}

/// The nodes taken out of a bucket and the nodes left add up to at most its size.
proof fn lemma_taken_size(b: BucketView, d: int)
    requires
        b.nodes_to_remove(d) == at_depth(b.active + b.cache, d),
    ensures
        b.remove_all_nodes_at_depth(d).0.size() + b.remove_all_nodes_at_depth(d).1.len() <= b.size(),
{
    let taken = b.nodes_to_remove(d);
    lemma_at_depth_concat(b.active, b.cache, d);
    let aa = at_depth(b.active, d);
    let ac = at_depth(b.cache, d);
    assert forall|x: KNode| #[trigger] aa.contains(x) implies has_id(taken, x.id) by {
        let i = choose|i: int| 0 <= i < aa.len() && aa[i] == x;
        assert(taken[i] == x);
    }
    assert forall|x: KNode| #[trigger] ac.contains(x) implies has_id(taken, x.id) by {
        let i = choose|i: int| 0 <= i < ac.len() && ac[i] == x;
        assert(taken[aa.len() + i] == x);
    }
    lemma_without_ids_split(b.active, taken, d);
    lemma_without_ids_split(b.cache, taken, d);
}

/// Taking out the nodes at depth `d` leaves at most the nodes at other depths.
proof fn lemma_without_ids_split(s: Seq<KNode>, taken: Seq<KNode>, d: int)
    requires
        forall|x: KNode| #[trigger] at_depth(s, d).contains(x) ==> has_id(taken, x.id),
    ensures
        without_ids(s, taken).len() + at_depth(s, d).len() <= s.len(),
    decreases s.len(),
{
    if s.len() > 0 {
        let p = s.drop_last();
        assert forall|x: KNode| #[trigger] at_depth(p, d).contains(x) implies has_id(taken, x.id) by {
            let i = choose|i: int| 0 <= i < at_depth(p, d).len() && at_depth(p, d)[i] == x;
            assert(at_depth(s, d)[i] == x);
            assert(at_depth(s, d).contains(x));
        }
        lemma_without_ids_split(p, taken, d);
        if s.last().depth == d {
            let a = at_depth(s, d);
            assert(a[a.len() - 1] == s.last());
            assert(a.contains(s.last()));
        }
    }
}

proof fn lemma_rebalance_overflow_wf(v: KademliaView)
    requires
        v.wf(),
    ensures
        v.rebalance_overflow().wf(),
        v.rebalance_overflow().total() <= v.total(),
        v.rebalance_overflow().root == v.root,
        v.rebalance_overflow().config == v.config,
    decreases 256 - v.buckets.len(),
{
    if v.root_bucket.status() == BucketStatus::Overflowing {
        lemma_overflow_step(v);
        lemma_rebalance_overflow_wf(v.overflow_step());
    }
}

proof fn lemma_wanting_step(v: KademliaView)
    requires
        v.wf(),
        v.buckets.len() > 0,
    ensures
        v.wanting_step().wf(),
        v.wanting_step().total() <= v.total(),
        v.wanting_step().root == v.root,
        v.wanting_step().config == v.config,
        v.root_bucket.status() == BucketStatus::Wanting ==> v.rebalance_wanting()
            == v.wanting_step().rebalance_wanting(),
{
    let len = v.buckets.len() as int;
    let b = v.buckets.last();
    assert(b.wf(v.root, len - 1, len - 1));
    lemma_range_widen(b.active, v.root, len - 1, len - 1, len - 1, 255);
    lemma_range_widen(b.cache, v.root, len - 1, len - 1, len - 1, 255);
    lemma_range_widen(v.root_bucket.active, v.root, len, 255, len - 1, 255);
    lemma_range_widen(v.root_bucket.cache, v.root, len, 255, len - 1, 255);
    lemma_add_nodes_wf(v.root_bucket, b.active, v.root, len - 1, 255);
    let r1 = v.root_bucket.add_nodes(b.active);
    lemma_add_nodes_wf(r1, b.cache, v.root, len - 1, 255);
    let r2 = r1.add_nodes(b.cache);
    lemma_cache_to_active_wf(r2, v.root, len - 1, 255);
    let w = v.wanting_step();
    assert(v.buckets =~= v.buckets.drop_last().push(b));
    lemma_sum_sizes_push(v.buckets.drop_last(), b);
    assert forall|i: int| 0 <= i < w.buckets.len() implies {
        &&& (#[trigger] w.buckets[i]).wf(w.root, i, i)
        &&& !w.buckets[i].is_root
        &&& w.buckets[i].config == w.config
    } by {
        assert(w.buckets[i] == v.buckets[i]);
    }
}

proof fn lemma_rebalance_wanting_wf(v: KademliaView)
    requires
        v.wf(),
    ensures
        v.rebalance_wanting().wf(),
        v.rebalance_wanting().total() <= v.total(),
        v.rebalance_wanting().root == v.root,
        v.rebalance_wanting().config == v.config,
    decreases v.buckets.len(),
{
    if v.root_bucket.status() == BucketStatus::Wanting && v.buckets.len() > 0 {
        lemma_wanting_step(v);
        lemma_rebalance_wanting_wf(v.wanting_step());
    }
}

proof fn lemma_add_node_wf_kad(v: KademliaView, id: NodeID)
    requires
        v.wf(),
        v.total() < usize::MAX,
    ensures
        v.add_node(id).wf(),
        v.add_node(id).total() <= v.total() + 1,
        v.add_node(id).root == v.root,
        v.add_node(id).config == v.config,
{
    if !(id == v.root || v.has_node(id)) {
        let n = new_knode(v.root, id);
        lemma_depth_bound(v.root, id);
        if (n.depth as int) < v.buckets.len() {
            let d = n.depth as int;
            lemma_add_node_wf(v.buckets[d], n, v.root, d, d);
            lemma_with_bucket_wf(v, d, v.buckets[d].add_node(n));
        } else {
            lemma_add_node_wf(v.root_bucket, n, v.root, v.buckets.len() as int, 255);
            let r = v.root_bucket.add_node(n);
            if r.status() == BucketStatus::Overflowing {
                lemma_rebalance_overflow_wf(v.with_root(r));
            }
        }
    }
}

proof fn lemma_remove_node_wf_kad(v: KademliaView, id: NodeID)
    requires
        v.wf(),
    ensures
        v.remove_node(id).wf(),
        v.remove_node(id).total() <= v.total(),
        v.remove_node(id).root == v.root,
        v.remove_node(id).config == v.config,
{
    let d = depth_of(v.root, id);
    lemma_depth_bound(v.root, id);
    if d < v.buckets.len() {
        lemma_remove_node_wf(v.buckets[d], id, v.root, d, d);
        lemma_with_bucket_wf(v, d, v.buckets[d].remove_node(id));
    } else {
        lemma_remove_node_wf(v.root_bucket, id, v.root, v.buckets.len() as int, 255);
        let r = v.root_bucket.remove_node(id);
        if r.status() == BucketStatus::Wanting {
            lemma_rebalance_wanting_wf(v.with_root(r));
        }
    }
}

proof fn lemma_node_active_wf_kad(v: KademliaView, id: NodeID)
    requires
        v.wf(),
    ensures
        v.node_active(id).wf(),
        v.node_active(id).total() == v.total(),
{
    let d = depth_of(v.root, id);
    lemma_depth_bound(v.root, id);
    if d < v.buckets.len() && v.buckets[d].node_active(id).1 {
        lemma_node_active_wf(v.buckets[d], id, v.root, d, d);
        lemma_with_bucket_wf(v, d, v.buckets[d].node_active(id).0);
    } else {
        lemma_node_active_wf(v.root_bucket, id, v.root, v.buckets.len() as int, 255);
    }
}

proof fn lemma_tick_buckets(bs: Seq<BucketView>, root: NodeID, config: Config)
    requires
        forall|i: int|
            0 <= i < bs.len() ==> {
                &&& (#[trigger] bs[i]).wf(root, i, i)
                &&& !bs[i].is_root
                &&& bs[i].config == config
                &&& bs[i].tickable()
            },
    ensures
        tick_buckets(bs).0.len() == bs.len(),
        forall|i: int|
            0 <= i < bs.len() ==> {
                &&& (#[trigger] tick_buckets(bs).0[i]).wf(root, i, i)
                &&& !tick_buckets(bs).0[i].is_root
                &&& tick_buckets(bs).0[i].config == config
                &&& tick_buckets(bs).0[i] == bs[i].tick().0
            },
        sum_sizes(tick_buckets(bs).0) <= sum_sizes(bs),
    decreases bs.len(),
{
    if bs.len() > 0 {
        let p = bs.drop_last();
        lemma_tick_buckets(p, root, config);
        let l = bs.len() - 1;
        lemma_tick_wf(bs[l], root, l, l);
        let (b2, d, pp) = tick_buckets(p);
        lemma_sum_sizes_push(b2, bs.last().tick().0);
        assert forall|i: int| 0 <= i < bs.len() implies {
            &&& (#[trigger] tick_buckets(bs).0[i]).wf(root, i, i)
            &&& !tick_buckets(bs).0[i].is_root
            &&& tick_buckets(bs).0[i].config == config
            &&& tick_buckets(bs).0[i] == bs[i].tick().0
        } by {
            if i < l {
                assert(tick_buckets(bs).0[i] == b2[i]);
                assert(p[i] == bs[i]);
            }
        }
    }
}

proof fn lemma_tick_wf_kad(v: KademliaView)
    requires
        v.wf(),
        v.tickable(),
    ensures
        v.tick().0.wf(),
        v.tick().0.total() <= v.total(),
{
    lemma_tick_buckets(v.buckets, v.root, v.config);
    lemma_tick_wf(v.root_bucket, v.root, v.buckets.len() as int, 255);
}

/// A Kademlia routing table for the node `root`.
#[derive(Debug, Clone)]
pub struct Kademlia {
    // All buckets starting with a distance of 0..depth-1 0s followed by at least
    // one 1.
    buckets: Vec<KBucket>,
    // The home of the root bucket.
    root_bucket: KBucket,
    // The root node of this Kademlia instance
    pub root: NodeID,
    // Configuration for the buckets
    config: Config,
}

impl View for Kademlia {
    type V = KademliaView;

    closed spec fn view(&self) -> KademliaView {
        KademliaView {
            buckets: self.buckets@.map_values(|b: KBucket| b@),
            root_bucket: self.root_bucket@,
            root: self.root,
            config: self.config,
        }
    }
}

impl Kademlia {
    pub fn new(root: NodeID, config: Config) -> (r: Kademlia)
        requires
            config.valid(),
        ensures
            r@ == (KademliaView {
                buckets: Seq::empty(),
                root_bucket: BucketView {
                    active: Seq::empty(),
                    cache: Seq::empty(),
                    config,
                    is_root: true,
                },
                root,
                config,
            }),
            r@.wf(),
    {
        let r = Kademlia { buckets: Vec::new(), root_bucket: KBucket::new_root(config), root, config };
        proof {
            assert(r@.buckets =~= Seq::<BucketView>::empty());
        }
        r
    }

    pub fn add_node(&mut self, id: NodeID)
        requires
            old(self)@.wf(),
            old(self)@.total() < usize::MAX,
        ensures
            final(self)@ == old(self)@.add_node(id),
            final(self)@.wf(),
    {
        proof {
            lemma_add_node_wf_kad(self@, id);
        }
        if id.same(&self.root) || self.has_node_id(&id) {
            return;
        }
        let node = KNode::new(&self.root, id);
        if node.depth < self.buckets.len() {
            let ghost old_v = self@;
            self.buckets[node.depth].add_node(node);
            proof {
                assert(self@.buckets =~= old_v.buckets.update(
                    node.depth as int,
                    old_v.buckets[node.depth as int].add_node(node),
                ));
            }
        } else {
            self.root_bucket.add_node(node);
            proof {
                lemma_depth_bound(self.root, id);
                lemma_add_node_wf(old(self)@.root_bucket, node, self.root, self.buckets.len() as int, 255);
            }
            if self.root_bucket.status() == BucketStatus::Overflowing {
                self.rebalance_overflow();
            }
        }
    }

    pub fn add_nodes(&mut self, ids: Vec<NodeID>)
        requires
            old(self)@.wf(),
            old(self)@.total() + ids.len() <= usize::MAX,
        ensures
            final(self)@ == old(self)@.add_nodes(ids@),
            final(self)@.wf(),
    {
        let mut i: usize = 0;
        while i < ids.len()
            invariant
                0 <= i <= ids.len(),
                self@ == old(self)@.add_nodes(ids@.take(i as int)),
                self@.wf(),
                self@.total() <= old(self)@.total() + i,
                old(self)@.total() + ids.len() <= usize::MAX,
            decreases ids.len() - i,
        {
            proof {
                lemma_prefix_step(ids@, i as int);
                lemma_add_node_wf_kad(self@, ids@[i as int]);
            }
            self.add_node(ids[i]);
            i = i + 1;
        }
        proof {
            assert(ids@.take(ids.len() as int) =~= ids@);
        }
    }

    pub fn remove_node(&mut self, id: &NodeID)
        requires
            old(self)@.wf(),
        ensures
            final(self)@ == old(self)@.remove_node(*id),
            final(self)@.wf(),
    {
        proof {
            lemma_remove_node_wf_kad(self@, *id);
            lemma_depth_bound(self.root, *id);
        }
        let node = KNode::new(&self.root, *id);
        if node.depth < self.buckets.len() {
            let ghost old_v = self@;
            self.buckets[node.depth].remove_node(id);
            proof {
                assert(self@.buckets =~= old_v.buckets.update(
                    node.depth as int,
                    old_v.buckets[node.depth as int].remove_node(*id),
                ));
            }
        } else {
            let ghost old_v = self@;
            self.root_bucket.remove_node(id);
            proof {
                lemma_remove_node_wf(old_v.root_bucket, *id, self.root, self.buckets.len() as int, 255);
            }
            if self.root_bucket.status() == BucketStatus::Wanting {
                self.rebalance_wanting();
            }
        }
    }

    /// The nodes to send a message for `id` to: first the active nodes of the root
    /// bucket at the depth of `id` or the nearest depth above it, then the active
    /// nodes of the bucket at that depth or the nearest non-empty one further away,
    /// then those of the nearest closer bucket.
    pub fn nearest_nodes(&self, id: &NodeID) -> (r: Vec<NodeID>)
        requires
            self@.wf(),
        ensures
            r@ == self@.nearest_nodes(*id),
    {
        if id.same(&self.root) {
            return Vec::new();
        }
        let kn = KNode::new(&self.root, *id);
        proof {
            lemma_depth_bound(self.root, *id);
        }
        let lo = self.buckets.len();
        // Start with potential nodes from the root-bucket.
        let mut depth: usize = kn.depth + 1;
        while depth > lo
            invariant
                lo == self.buckets@.len(),
                depth <= kn.depth + 1,
                depth == kn.depth + 1 || lo <= depth,
                kn.depth < 256,
                *id != self.root,
                kn.depth as int == depth_of(self.root, *id),
                self@.root_scan(kn.depth as int, lo as int) == self@.root_scan(depth - 1, lo as int),
            decreases depth,
        {
            depth = depth - 1;
            let nodes = self.root_bucket.get_active_ids(depth);
            if nodes.len() > 0 {
                return nodes;
            }
        }
        // Then search nodes which are at the same depth or further away.
        let mut d: usize = kn.depth + 1;
        while d > 0
            invariant
                d <= kn.depth + 1,
                kn.depth < 256,
                *id != self.root,
                kn.depth as int == depth_of(self.root, *id),
                self@.root_scan(kn.depth as int, self.buckets@.len() as int) is None,
                self@.scan_down(kn.depth as int) == self@.scan_down(d - 1),
            decreases d,
        {
            d = d - 1;
            if let Some(nodes) = self.get_active_bucket_ids(d) {
                return nodes;
            }
        }
        // Then try nodes closer - this will probably fail, but might as well try it.
        let mut up: usize = kn.depth + 1;
        while up < self.buckets.len()
            invariant
                kn.depth + 1 <= up,
                kn.depth < 256,
                *id != self.root,
                kn.depth as int == depth_of(self.root, *id),
                self@.root_scan(kn.depth as int, self.buckets@.len() as int) is None,
                self@.scan_down(kn.depth as int) is None,
                self@.scan_up(kn.depth + 1) == self@.scan_up(up as int),
            decreases self.buckets.len() - up,
        {
            if let Some(nodes) = self.get_active_bucket_ids(up) {
                return nodes;
            }
            up = up + 1;
        }
        // OK, nothing found
        Vec::new()
    }

    /// The active nodes of bucket `depth`, if it exists and has some.
    fn get_active_bucket_ids(&self, depth: usize) -> (r: Option<Vec<NodeID>>)
        ensures
            match r {
                Some(v) => self@.bucket_ids(depth as int) == Some(v@),
                None => self@.bucket_ids(depth as int) is None,
            },
    {
        if depth < self.buckets.len() {
            if self.buckets[depth].active.len() > 0 {
                return Some(ids_exec(&self.buckets[depth].active));
            }
        }
        None
    }

    /// Returns all the active nodes of the kademlia system.
    pub fn active_nodes(&self) -> (r: Vec<NodeID>)
        ensures
            r@ == self@.active_nodes(),
    {
        let mut r: Vec<NodeID> = Vec::new();
        let mut i: usize = 0;
        while i < self.buckets.len()
            invariant
                0 <= i <= self.buckets.len(),
                r@ == active_ids(self@.buckets.take(i as int)),
            decreases self.buckets.len() - i,
        {
            proof {
                lemma_prefix_step(self@.buckets, i as int);
            }
            let ids = ids_exec(&self.buckets[i].active);
            push_ids(&mut r, &ids);
            i = i + 1;
        }
        proof {
            assert(self@.buckets.take(self.buckets.len() as int) =~= self@.buckets);
        }
        let ids = ids_exec(&self.root_bucket.active);
        push_ids(&mut r, &ids);
        r
    }

    /// Returns the active nodes of each bucket, the root bucket last.
    pub fn bucket_nodes(&self) -> (r: Vec<Vec<NodeID>>)
        ensures
            r@.len() == self@.bucket_nodes().len(),
            forall|i: int| 0 <= i < r@.len() ==> (#[trigger] r@[i])@ == self@.bucket_nodes()[i],
    {
        let mut r: Vec<Vec<NodeID>> = Vec::new();
        let mut i: usize = 0;
        while i < self.buckets.len()
            invariant
                0 <= i <= self.buckets.len(),
                r@.len() == i,
                forall|j: int| 0 <= j < i ==> (#[trigger] r@[j])@ == ids_of(self@.buckets[j].active),
            decreases self.buckets.len() - i,
        {
            r.push(ids_exec(&self.buckets[i].active));
            i = i + 1;
        }
        r.push(ids_exec(&self.root_bucket.active));
        r
    }

    /// The nodes waiting to be activated, bucket by bucket, the root bucket last.
    pub fn bucket_caches(&self) -> (r: Vec<Vec<NodeID>>)
        ensures
            r@.len() == self@.bucket_caches().len(),
            forall|i: int| 0 <= i < r@.len() ==> (#[trigger] r@[i])@ == self@.bucket_caches()[i],
    {
        let mut r: Vec<Vec<NodeID>> = Vec::new();
        let mut i: usize = 0;
        while i < self.buckets.len()
            invariant
                0 <= i <= self.buckets.len(),
                r@.len() == i,
                forall|j: int| 0 <= j < i ==> (#[trigger] r@[j])@ == ids_of(self@.buckets[j].cache),
            decreases self.buckets.len() - i,
        {
            r.push(ids_exec(&self.buckets[i].cache));
            i = i + 1;
        }
        r.push(ids_exec(&self.root_bucket.cache));
        r
    }

    /// The system received a message from this node, so its considered
    /// active.
    pub fn node_active(&mut self, id: &NodeID)
        requires
            old(self)@.wf(),
        ensures
            final(self)@ == old(self)@.node_active(*id),
            final(self)@.wf(),
    {
        proof {
            lemma_node_active_wf_kad(self@, *id);
            lemma_depth_bound(self.root, *id);
        }
        let kn = KNode::new(&self.root, *id);
        if kn.depth < self.buckets.len() {
            proof {
                lemma_find_id_some(self@.buckets[kn.depth as int].active, *id);
                lemma_find_id_some(self@.buckets[kn.depth as int].cache, *id);
            }
            if self.buckets[kn.depth].has_node_id(id) {
                let ghost old_v = self@;
                self.buckets[kn.depth].node_active(id);
                proof {
                    assert(self@.buckets =~= old_v.buckets.update(
                        kn.depth as int,
                        old_v.buckets[kn.depth as int].node_active(*id).0,
                    ));
                }
                return;
            }
        }
        self.root_bucket.node_active(id);
    }

    /// Advances the clock by one tick and returns the nodes which were removed,
    /// and the nodes which need to be pinged.
    pub fn tick(&mut self) -> (r: TickIDs)
        requires
            old(self)@.wf(),
            old(self)@.tickable(),
        ensures
            (final(self)@, r.deleted@, r.ping@) == old(self)@.tick(),
            final(self)@.wf(),
    {
        proof {
            lemma_tick_wf_kad(self@);
            lemma_tick_buckets(self@.buckets, self.root, self.config);
        }
        let mut ping_ids = TickIDs::new();
        let ghost old_bs = self@.buckets;
        let mut i: usize = 0;
        while i < self.buckets.len()
            invariant
                0 <= i <= self.buckets.len(),
                self.buckets@.len() == old_bs.len(),
                old_bs == old(self)@.buckets,
                old(self)@.wf(),
                old(self)@.tickable(),
                forall|j: int| 0 <= j < i ==> (#[trigger] self@.buckets[j]) == old_bs[j].tick().0,
                forall|j: int| i <= j < old_bs.len() ==> (#[trigger] self@.buckets[j]) == old_bs[j],
                tick_buckets(old_bs.take(i as int)).1 == ping_ids.deleted@,
                tick_buckets(old_bs.take(i as int)).2 == ping_ids.ping@,
                tick_buckets(old_bs.take(i as int)).0 == self@.buckets.take(i as int),
                self.root_bucket == old(self).root_bucket,
                self.root == old(self).root,
                self.config == old(self).config,
            decreases self.buckets.len() - i,
        {
            proof {
                lemma_prefix_step(old_bs, i as int);
                assert(old_bs[i as int].tickable());
                assert(old_bs[i as int].config.valid());
                assert(self.buckets@[i as int]@ == self@.buckets[i as int]);
            }
            let ghost before = self@.buckets;
            let t = self.buckets[i].tick();
            proof {
                assert(self@.buckets =~= before.update(i as int, old_bs[i as int].tick().0));
                assert(self@.buckets.take(i + 1) =~= before.take(i as int).push(
                    old_bs[i as int].tick().0,
                ));
            }
            ping_ids.extend(t);
            i = i + 1;
        }
        proof {
            assert(old_bs.take(old_bs.len() as int) =~= old_bs);
            assert(self@.buckets.take(old_bs.len() as int) =~= self@.buckets);
        }
        let t = self.root_bucket.tick();
        ping_ids.extend(t);
        ping_ids
    }

    // The root bucket overflows - split it until it has between k and 2k
    // nodes.
    fn rebalance_overflow(&mut self)
        requires
            old(self)@.wf(),
        ensures
            final(self)@ == old(self)@.rebalance_overflow(),
            final(self)@.wf(),
    {
        proof {
            lemma_rebalance_overflow_wf(self@);
        }
        while self.root_bucket.status() == BucketStatus::Overflowing
            invariant
                self@.wf(),
                self@.rebalance_overflow() == old(self)@.rebalance_overflow(),
            decreases 256 - self.buckets.len(),
        {
            proof {
                lemma_overflow_step(self@);
            }
            let ghost v = self@;
            let mut bucket = KBucket::new(self.config);
            let nodes = self.root_bucket.remove_all_nodes_at_depth(self.buckets.len());
            bucket.add_nodes(nodes);
            self.buckets.push(bucket);
            self.root_bucket.cache_to_active();
            proof {
                assert(self@.buckets =~= v.overflow_step().buckets);
                assert(self@ == v.overflow_step());
            }
        }
    }

    // The root bucket is wanting - merge with non-empty upper buckets until
    // it's safe again.
    fn rebalance_wanting(&mut self)
        requires
            old(self)@.wf(),
        ensures
            final(self)@ == old(self)@.rebalance_wanting(),
            final(self)@.wf(),
    {
        proof {
            lemma_rebalance_wanting_wf(self@);
        }
        while self.root_bucket.status() == BucketStatus::Wanting
            invariant
                self@.wf(),
                self@.rebalance_wanting() == old(self)@.rebalance_wanting(),
            decreases self.buckets.len(),
        {
            let ghost v = self@;
            if let Some(bucket) = self.buckets.pop() {
                proof {
                    lemma_wanting_step(v);
                    assert(bucket@ == v.buckets.last());
                }
                self.root_bucket.add_nodes(bucket.active);
                self.root_bucket.add_nodes(bucket.cache);
                self.root_bucket.cache_to_active();
                proof {
                    assert(self@.buckets =~= v.wanting_step().buckets);
                    assert(self@ == v.wanting_step());
                }
            } else {
                return;
            }
        }
    }

    fn has_node_id(&self, id: &NodeID) -> (r: bool)
        ensures
            r == self@.has_node(*id),
    {
        let mut i: usize = 0;
        while i < self.buckets.len()
            invariant
                0 <= i <= self.buckets.len(),
                forall|j: int|
                    0 <= j < i ==> !(has_id((#[trigger] self@.buckets[j]).active, *id) || has_id(
                        self@.buckets[j].cache,
                        *id,
                    )),
            decreases self.buckets.len() - i,
        {
            if self.buckets[i].has_node_id(id) {
                proof {
                    assert(has_id(self@.buckets[i as int].active, *id) || has_id(self@.buckets[i as int].cache, *id));
                }
                return true;
            }
            i = i + 1;
        }
        self.root_bucket.has_node_id(id)
    }
}

// ---------------------------------------------------------------------------
// Properties of the routing table
// ---------------------------------------------------------------------------

proof fn lemma_ids_at_depth_sub(s: Seq<KNode>, d: int, x: NodeID)
    requires
        ids_at_depth(s, d).contains(x),
    ensures
        ids_of(s).contains(x),
{
    lemma_at_depth(s, d);
    let a = at_depth(s, d);
    let i = choose|i: int| 0 <= i < ids_of(a).len() && ids_of(a)[i] == x;
    assert(a.contains(a[i]));
    let j = choose|j: int| 0 <= j < s.len() && s[j] == a[i];
    assert(ids_of(s)[j] == x);
}

proof fn lemma_active_ids_contains(bs: Seq<BucketView>, j: int, x: NodeID)
    requires
        0 <= j < bs.len(),
        ids_of(bs[j].active).contains(x),
    ensures
        active_ids(bs).contains(x),
    decreases bs.len(),
{
    let p = bs.drop_last();
    let a = active_ids(p);
    if j < bs.len() - 1 {
        assert(p[j] == bs[j]);
        lemma_active_ids_contains(p, j, x);
        let i = choose|i: int| 0 <= i < a.len() && a[i] == x;
        assert(active_ids(bs)[i] == x);
    } else {
        let ids = ids_of(bs.last().active);
        let i = choose|i: int| 0 <= i < ids.len() && ids[i] == x;
        assert(active_ids(bs)[a.len() + i] == x);
    }
}

proof fn lemma_root_scan_sub(v: KademliaView, depth: int, lo: int, x: NodeID)
    requires
        v.root_scan(depth, lo) matches Some(r) && r.contains(x),
    ensures
        ids_of(v.root_bucket.active).contains(x),
    decreases depth - lo + 1,
{
    if depth >= lo {
        if ids_at_depth(v.root_bucket.active, depth).len() > 0 {
            lemma_ids_at_depth_sub(v.root_bucket.active, depth, x);
        } else {
            lemma_root_scan_sub(v, depth - 1, lo, x);
        }
    }
}

proof fn lemma_scan_down_sub(v: KademliaView, depth: int, x: NodeID)
    requires
        v.scan_down(depth) matches Some(r) && r.contains(x),
    ensures
        active_ids(v.buckets).contains(x),
    decreases depth + 1,
{
    if depth >= 0 {
        match v.bucket_ids(depth) {
            Some(b) => lemma_active_ids_contains(v.buckets, depth, x),
            None => lemma_scan_down_sub(v, depth - 1, x),
        }
    }
}

proof fn lemma_scan_up_sub(v: KademliaView, from: int, x: NodeID)
    requires
        from >= 0,
        v.scan_up(from) matches Some(r) && r.contains(x),
    ensures
        active_ids(v.buckets).contains(x),
    decreases v.buckets.len() - from,
{
    if from < v.buckets.len() {
        match v.bucket_ids(from) {
            Some(b) => lemma_active_ids_contains(v.buckets, from, x),
            None => lemma_scan_up_sub(v, from + 1, x),
        }
    }
}

/// The nodes a message is sent to are active nodes of the routing table.
pub proof fn lemma_nearest_nodes_active(v: KademliaView, id: NodeID, x: NodeID)
    requires
        v.nearest_nodes(id).contains(x),
    ensures
        v.active_nodes().contains(x),
{
    let d = depth_of(v.root, id);
    lemma_depth_bound(v.root, id);
    let a = active_ids(v.buckets);
    let ra = ids_of(v.root_bucket.active);
    if v.root_scan(d, v.buckets.len() as int) is Some {
        lemma_root_scan_sub(v, d, v.buckets.len() as int, x);
        let i = choose|i: int| 0 <= i < ra.len() && ra[i] == x;
        assert(v.active_nodes()[a.len() + i] == x);
    } else {
        if v.scan_down(d) is Some {
            lemma_scan_down_sub(v, d, x);
        } else {
            lemma_scan_up_sub(v, d + 1, x);
        }
        let i = choose|i: int| 0 <= i < a.len() && a[i] == x;
        assert(v.active_nodes()[i] == x);
    }
}

/// A well-formed routing table never holds its own root node.
pub proof fn lemma_root_not_stored(v: KademliaView)
    requires
        v.wf(),
    ensures
        !v.has_node(v.root),
{
    lemma_depth_bound(v.root, v.root);
    lemma_first_difference_spec(v.root, v.root, 0);
    assert(depth_of(v.root, v.root) == 256);
    assert forall|i: int| 0 <= i < v.buckets.len() implies !(has_id((#[trigger] v.buckets[i]).active,
        v.root) || has_id(v.buckets[i].cache, v.root)) by {
        let b = v.buckets[i];
        assert(b.wf(v.root, i, i));
        if has_id(b.active, v.root) {
            let j = choose|j: int| 0 <= j < b.active.len() && (#[trigger] b.active[j]).id == v.root;
            assert(b.active[j].ok(v.root));
        }
        if has_id(b.cache, v.root) {
            let j = choose|j: int| 0 <= j < b.cache.len() && (#[trigger] b.cache[j]).id == v.root;
            assert(b.cache[j].ok(v.root));
        }
    }
    let r = v.root_bucket;
    if has_id(r.active, v.root) {
        let j = choose|j: int| 0 <= j < r.active.len() && (#[trigger] r.active[j]).id == v.root;
        assert(r.active[j].ok(v.root));
    }
    if has_id(r.cache, v.root) {
        let j = choose|j: int| 0 <= j < r.cache.len() && (#[trigger] r.cache[j]).id == v.root;
        assert(r.cache[j].ok(v.root));
    }
}

/// Adding the root or a node the table already holds leaves the table unchanged.
pub proof fn lemma_add_node_known(v: KademliaView, id: NodeID)
    requires
        id == v.root || v.has_node(id),
    ensures
        v.add_node(id) == v,
{
}

} // verus!
