use vstd::prelude::*;

use crate::nodeid::{first_difference, first_difference_from, first_differing_bit, lemma_first_difference_spec, NodeID};

verus! {

broadcast use vstd::array::group_array_axioms;

/// Configuration of the buckets of a Kademlia instance.
#[derive(Debug, Clone, Copy, PartialEq, Eq, Structural)]
pub struct Config {
    pub k: usize,
    pub ping_interval: u32,
    pub ping_timeout: u32,
}

impl Config {
    /// A configuration the routing table can work with: at least one node per
    /// bucket, `2 * k` representable, and a non-zero ping interval.
    pub open spec fn valid(self) -> bool {
        &&& 1 <= self.k
        &&& self.k <= usize::MAX / 2
        &&& self.ping_interval > 0
    }
}

impl Default for Config {
    fn default() -> (r: Self)
        ensures
            r == (Config { k: 2, ping_interval: 10, ping_timeout: 30 }),
    {
        Config { k: 2, ping_interval: 10, ping_timeout: 30 }
    }
}

/// The depth of `id` as seen from `root`: the index of the first bit in which they
/// differ, or 255 if they are equal.
pub open spec fn depth_of(root: NodeID, id: NodeID) -> int {
    let f = first_difference(root, id);
    if f >= 256 {
        255
    } else {
        f
    }
}

proof fn lemma_first_difference_sym_self(a: NodeID, b: NodeID, i: int)
    requires
        0 <= i <= 256,
    ensures
        first_difference_from(a, b, i) == first_difference_from(b, a, i),
        first_difference_from(a, a, i) == 256,
    decreases 256 - i,
{
    if i < 256 {
        lemma_first_difference_sym_self(a, b, i + 1);
    }
}

/// The depth of an identifier relative to a root is the number of leading bits they
/// share, capped at 255: it lies in 0..=255, is the same both ways, and is 255 for
/// the root itself and for an identifier that differs from it in the last bit only.
pub proof fn lemma_depth_laws(root: NodeID, id: NodeID)
    ensures
        0 <= depth_of(root, id) <= 255,
        depth_of(root, id) == depth_of(id, root),
        depth_of(root, root) == 255,
        first_difference(root, id) >= 255 ==> depth_of(root, id) == 255,
        first_difference(root, id) < 255 ==> depth_of(root, id) == first_difference(root, id),
{
    lemma_first_difference_spec(root, id, 0);
    lemma_first_difference_sym_self(root, id, 0);
}

/// A node stored in a bucket, with its depth relative to the root and its tick
/// counters.
#[derive(Debug, Clone, Copy)]
pub struct KNode {
    pub id: NodeID,
    pub depth: usize,
    pub ticks_active: u32,
    pub ticks_last: u32,
}

impl PartialEq for KNode {
    fn eq(&self, other: &Self) -> (r: bool) {
        self.id.same(&other.id)
    }
}

impl vstd::std_specs::cmp::PartialEqSpecImpl for KNode {
    open spec fn obeys_eq_spec() -> bool {
        true
    }

    open spec fn eq_spec(&self, other: &Self) -> bool {
        self.id == other.id
    }
}

impl KNode {
    /// The node after one tick.
    pub open spec fn ticked(self) -> KNode {
        KNode {
            ticks_active: (self.ticks_active + 1) as u32,
            ticks_last: (self.ticks_last + 1) as u32,
            ..self
        }
    }

    /// A node whose stored depth is its depth from `root`, and whose last-seen
    /// counter does not exceed its age.
    pub open spec fn ok(self, root: NodeID) -> bool {
        &&& self.depth == depth_of(root, self.id)
        &&& self.ticks_last <= self.ticks_active
    }

    pub fn new(root: &NodeID, id: NodeID) -> (r: KNode)
        ensures
            r == (KNode { id, depth: depth_of(*root, id) as usize, ticks_active: 0, ticks_last: 0 }),
            r.ok(*root),
    {
        KNode { id, depth: Self::get_depth(root, id), ticks_active: 0, ticks_last: 0 }
    }

    pub fn reset(&mut self)
        ensures
            *final(self) == (KNode { ticks_active: 0, ticks_last: 0, ..*old(self) }),
    {
        self.ticks_active = 0;
        self.ticks_last = 0;
    }

    /// Returns the index of the first bit in which `root` and `id` differ, or 255 if
    /// they are equal.
    pub fn get_depth(root: &NodeID, id: NodeID) -> (r: usize)
        ensures
            r == depth_of(*root, id),
            r < 256,
    {
        let f = first_differing_bit(root, &id);
        if f >= 256 {
            255
        } else {
            f
        }
    }

    fn tick(&mut self)
        requires
            old(self).ticks_active < u32::MAX,
            old(self).ticks_last < u32::MAX,
        ensures
            *final(self) == old(self).ticked(),
    {
        self.ticks_active = self.ticks_active + 1;
        self.ticks_last = self.ticks_last + 1;
    }

    fn active(&mut self)
        ensures
            *final(self) == (KNode { ticks_last: 0, ..*old(self) }),
    {
        self.ticks_last = 0;
    }
}

// ---------------------------------------------------------------------------
// Sequences of nodes
// ---------------------------------------------------------------------------

/// The identifiers of the nodes, in order.
pub open spec fn ids_of(s: Seq<KNode>) -> Seq<NodeID> {
    s.map_values(|n: KNode| n.id)
}

/// The identifiers of the nodes at depth `d`, in order.
pub open spec fn ids_at_depth(s: Seq<KNode>, d: int) -> Seq<NodeID>
    decreases s.len(),
{
    if s.len() == 0 {
        Seq::empty()
    } else if s.last().depth == d {
        ids_at_depth(s.drop_last(), d).push(s.last().id)
    } else {
        ids_at_depth(s.drop_last(), d)
    }
}

/// The number of nodes at depth at most `d`.
pub open spec fn count_le(s: Seq<KNode>, d: int) -> nat
    decreases s.len(),
{
    if s.len() == 0 {
        0
    } else {
        count_le(s.drop_last(), d) + if s.last().depth <= d {
            1nat
        } else {
            0nat
        }
    }
}

/// The number of nodes at depth `d`.
pub open spec fn count_at(s: Seq<KNode>, d: int) -> nat
    decreases s.len(),
{
    if s.len() == 0 {
        0
    } else {
        count_at(s.drop_last(), d) + if s.last().depth == d {
            1nat
        } else {
            0nat
        }
    }
}

/// The smallest depth of a non-empty sequence of nodes.
pub open spec fn min_depth(s: Seq<KNode>) -> int
    decreases s.len(),
{
    if s.len() <= 1 {
        s[0].depth as int
    } else {
        let m = min_depth(s.drop_last());
        if (s.last().depth as int) < m {
            s.last().depth as int
        } else {
            m
        }
    }
}

/// The nodes are ordered by non-decreasing depth.
pub open spec fn sorted_by_depth(s: Seq<KNode>) -> bool {
    forall|i: int, j: int| 0 <= i <= j < s.len() ==> #[trigger] s[i].depth <= #[trigger] s[j].depth
}

/// Inserting `n` after all nodes of depth at most `n.depth`: what a stable sort by
/// depth makes of a sorted sequence with `n` appended.
pub open spec fn insert_sorted(s: Seq<KNode>, n: KNode) -> Seq<KNode> {
    s.insert(count_le(s, n.depth as int) as int, n)
}

/// The nodes whose identifier is not `id`, in order.
pub open spec fn without_id(s: Seq<KNode>, id: NodeID) -> Seq<KNode>
    decreases s.len(),
{
    if s.len() == 0 {
        Seq::empty()
    } else if s.last().id == id {
        without_id(s.drop_last(), id)
    } else {
        without_id(s.drop_last(), id).push(s.last())
    }
}

/// Splits off the first `n` nodes at depth `d`: the first component holds them in
/// order, the second all other nodes in order.
pub open spec fn split_depth(s: Seq<KNode>, d: int, n: nat) -> (Seq<KNode>, Seq<KNode>)
    decreases s.len(),
{
    if s.len() == 0 {
        (Seq::empty(), Seq::empty())
    } else {
        let (t, r) = split_depth(s.drop_last(), d, n);
        if s.last().depth == d && t.len() < n {
            (t.push(s.last()), r)
        } else {
            (t, r.push(s.last()))
        }
    }
}

/// The index of the first node with identifier `id`.
pub open spec fn find_id(s: Seq<KNode>, id: NodeID) -> Option<int>
    decreases s.len(),
{
    if s.len() == 0 {
        None
    } else {
        match find_id(s.drop_last(), id) {
            Some(i) => Some(i),
            None => if s.last().id == id {
                Some(s.len() - 1)
            } else {
                None
            },
        }
    }
}

/// Some node has identifier `id`.
pub open spec fn has_id(s: Seq<KNode>, id: NodeID) -> bool {
    exists|i: int| 0 <= i < s.len() && (#[trigger] s[i]).id == id
}

/// Every node was ticked once.
pub open spec fn ticked_all(s: Seq<KNode>) -> Seq<KNode> {
    s.map_values(|n: KNode| n.ticked())
}

/// Identifiers of the nodes whose last-seen counter is a multiple of `interval`.
pub open spec fn ping_ids(s: Seq<KNode>, interval: u32) -> Seq<NodeID>
    decreases s.len(),
{
    if s.len() == 0 {
        Seq::empty()
    } else if s.last().ticks_last % interval == 0 {
        ping_ids(s.drop_last(), interval).push(s.last().id)
    } else {
        ping_ids(s.drop_last(), interval)
    }
}

/// Identifiers of the nodes whose last-seen counter reached `timeout`.
pub open spec fn timeout_ids(s: Seq<KNode>, timeout: u32) -> Seq<NodeID>
    decreases s.len(),
{
    if s.len() == 0 {
        Seq::empty()
    } else if s.last().ticks_last >= timeout {
        timeout_ids(s.drop_last(), timeout).push(s.last().id)
    } else {
        timeout_ids(s.drop_last(), timeout)
    }
}

/// All nodes are well-formed for `root` and have a depth in `[lo, hi]`.
pub open spec fn nodes_in_range(s: Seq<KNode>, root: NodeID, lo: int, hi: int) -> bool {
    forall|i: int| 0 <= i < s.len() ==> #[trigger] s[i].ok(root) && lo <= s[i].depth <= hi
}

/// All nodes can be ticked once more without overflow.
pub open spec fn nodes_tickable(s: Seq<KNode>) -> bool {
    forall|i: int|
        0 <= i < s.len() ==> (#[trigger] s[i]).ticks_active < u32::MAX && s[i].ticks_last < u32::MAX
}

// ---------------------------------------------------------------------------
// Lemmas on sequences of nodes
// ---------------------------------------------------------------------------

proof fn lemma_prefix_step<T>(s: Seq<T>, i: int)
    requires
        0 <= i < s.len(),
    ensures
        s.take(i + 1).drop_last() == s.take(i),
        s.take(i + 1).last() == s[i],
        s.take(i + 1).len() == i + 1,
{
    assert(s.take(i + 1).drop_last() =~= s.take(i));
}

proof fn lemma_count_le_bounds(s: Seq<KNode>, d: int)
    ensures
        count_le(s, d) <= s.len(),
    decreases s.len(),
{
    if s.len() > 0 {
        lemma_count_le_bounds(s.drop_last(), d);
    }
}

/// In a sorted sequence, the nodes of depth at most `d` form a prefix.
proof fn lemma_count_le_sorted(s: Seq<KNode>, d: int)
    requires
        sorted_by_depth(s),
    ensures
        count_le(s, d) <= s.len(),
        forall|i: int| 0 <= i < count_le(s, d) ==> #[trigger] s[i].depth <= d,
        forall|i: int| count_le(s, d) <= i < s.len() ==> #[trigger] s[i].depth > d,
    decreases s.len(),
{
    if s.len() > 0 {
        let p = s.drop_last();
        assert(sorted_by_depth(p));
        lemma_count_le_sorted(p, d);
        let c = count_le(p, d);
        if s.last().depth <= d {
            assert forall|i: int| 0 <= i < s.len() implies #[trigger] s[i].depth <= d by {
                assert(s[i].depth <= s[s.len() - 1].depth);
            }
            if c < p.len() {
                assert(p[c as int].depth > d);
                assert(s[c as int].depth <= d);
            }
        } else {
            assert forall|i: int| 0 <= i < c implies #[trigger] s[i].depth <= d by {
                assert(s[i] == p[i]);
            }
            assert forall|i: int| c <= i < s.len() implies #[trigger] s[i].depth > d by {
                if i < p.len() {
                    assert(s[i] == p[i]);
                }
            }
        }
    }
}

proof fn lemma_insert_sorted(s: Seq<KNode>, n: KNode)
    requires
        sorted_by_depth(s),
    ensures
        sorted_by_depth(insert_sorted(s, n)),
        insert_sorted(s, n).len() == s.len() + 1,
        forall|x: KNode| #[trigger] insert_sorted(s, n).contains(x) ==> s.contains(x) || x == n,
{
    lemma_count_le_sorted(s, n.depth as int);
    let c = count_le(s, n.depth as int) as int;
    let r = insert_sorted(s, n);
    assert forall|i: int, j: int| 0 <= i <= j < r.len() implies #[trigger] r[i].depth
        <= #[trigger] r[j].depth by {
        if i < c && j < c {
        } else if i < c && j == c {
        } else if i < c && j > c {
            assert(r[j] == s[j - 1]);
        } else if i == c && j == c {
        } else if i == c {
            assert(r[j] == s[j - 1]);
        } else {
            assert(r[i] == s[i - 1]);
            assert(r[j] == s[j - 1]);
        }
    }
    assert forall|x: KNode| #[trigger] r.contains(x) implies s.contains(x) || x == n by {
        let i = choose|i: int| 0 <= i < r.len() && r[i] == x;
        if i < c {
            assert(s[i] == x);
        } else if i > c {
            assert(s[i - 1] == x);
        }
    }
}

proof fn lemma_without_id(s: Seq<KNode>, id: NodeID)
    ensures
        forall|x: KNode| #[trigger] without_id(s, id).contains(x) ==> s.contains(x) && x.id != id,
        without_id(s, id).len() <= s.len(),
        sorted_by_depth(s) ==> sorted_by_depth(without_id(s, id)),
        !has_id(without_id(s, id), id),
        has_id(s, id) || without_id(s, id) == s,
    decreases s.len(),
{
    if s.len() > 0 {
        let p = s.drop_last();
        lemma_without_id(p, id);
        let w = without_id(p, id);
        assert forall|x: KNode| #[trigger] without_id(s, id).contains(x) implies s.contains(x)
            && x.id != id by {
            if w.contains(x) {
                let i = choose|i: int| 0 <= i < p.len() && p[i] == x;
                assert(s[i] == x);
            } else {
                assert(x == s.last());
            }
        }
        if sorted_by_depth(s) {
            assert(sorted_by_depth(p));
            if s.last().id != id {
                let r = w.push(s.last());
                assert forall|i: int, j: int| 0 <= i <= j < r.len() implies #[trigger] r[i].depth
                    <= #[trigger] r[j].depth by {
                    if j == r.len() - 1 && i < j {
                        assert(w.contains(r[i]));
                        let k = choose|k: int| 0 <= k < p.len() && p[k] == r[i];
                        assert(s[k] == r[i]);
                    }
                }
            }
        }
        if !has_id(s, id) {
            assert(!has_id(p, id)) by {
                if has_id(p, id) {
                    let i = choose|i: int| 0 <= i < p.len() && (#[trigger] p[i]).id == id;
                    assert(s[i].id == id);
                }
            }
            assert(s.last().id != id) by {
                assert(s[s.len() - 1].id != id);
            }
            assert(without_id(s, id) =~= s);
        }
    }
}

proof fn lemma_split_depth(s: Seq<KNode>, d: int, n: nat)
    ensures
        forall|x: KNode| #[trigger] split_depth(s, d, n).0.contains(x) ==> s.contains(x) && x.depth == d,
        forall|x: KNode| #[trigger] split_depth(s, d, n).1.contains(x) ==> s.contains(x),
        split_depth(s, d, n).0.len() <= n,
        split_depth(s, d, n).0.len() + split_depth(s, d, n).1.len() == s.len(),
        split_depth(s, d, n).0.len() == n || count_at(split_depth(s, d, n).1, d) == 0,
        sorted_by_depth(s) ==> sorted_by_depth(split_depth(s, d, n).1),
    decreases s.len(),
{
    if s.len() > 0 {
        let p = s.drop_last();
        lemma_split_depth(p, d, n);
        let (t, r) = split_depth(p, d, n);
        assert forall|x: KNode| #[trigger] split_depth(s, d, n).0.contains(x) implies s.contains(x)
            && x.depth == d by {
            if t.contains(x) {
                let i = choose|i: int| 0 <= i < p.len() && p[i] == x;
                assert(s[i] == x);
            }
        }
        assert forall|x: KNode| #[trigger] split_depth(s, d, n).1.contains(x) implies s.contains(
            x,
        ) by {
            if r.contains(x) {
                let i = choose|i: int| 0 <= i < p.len() && p[i] == x;
                assert(s[i] == x);
            } else {
                assert(x == s.last());
            }
        }
        let r2 = split_depth(s, d, n).1;
        if !(s.last().depth == d && t.len() < n) {
            assert(r2.drop_last() =~= r);
            if t.len() < n {
                assert(r2.last().depth != d);
            }
        }
        if sorted_by_depth(s) {
            assert(sorted_by_depth(p));
            if !(s.last().depth == d && t.len() < n) {
                assert forall|i: int, j: int| 0 <= i <= j < r2.len() implies #[trigger] r2[i].depth
                    <= #[trigger] r2[j].depth by {
                    if j == r2.len() - 1 && i < j {
                        assert(r.contains(r2[i]));
                        let k = choose|k: int| 0 <= k < p.len() && p[k] == r2[i];
                        assert(s[k] == r2[i]);
                    }
                }
            }
        }
    }
}

proof fn lemma_find_id_prefix(s: Seq<KNode>, id: NodeID, k: int)
    requires
        0 <= k <= s.len(),
        find_id(s.take(k), id) is Some,
    ensures
        find_id(s, id) == find_id(s.take(k), id),
    decreases s.len() - k,
{
    if k < s.len() {
        lemma_prefix_step(s, k);
        lemma_find_id_prefix(s, id, k + 1);
    } else {
        assert(s.take(k) =~= s);
    }
}

proof fn lemma_find_id_none(s: Seq<KNode>, id: NodeID)
    requires
        forall|i: int| 0 <= i < s.len() ==> (#[trigger] s[i]).id != id,
    ensures
        find_id(s, id) is None,
    decreases s.len(),
{
    if s.len() > 0 {
        let p = s.drop_last();
        assert forall|i: int| 0 <= i < p.len() implies (#[trigger] p[i]).id != id by {
            assert(s[i].id != id);
        }
        lemma_find_id_none(p, id);
        assert(s[s.len() - 1].id != id);
    }
}

proof fn lemma_find_id_some(s: Seq<KNode>, id: NodeID)
    ensures
        find_id(s, id) matches Some(i) ==> 0 <= i < s.len() && s[i].id == id && forall|j: int|
            0 <= j < i ==> (#[trigger] s[j]).id != id,
        find_id(s, id) is None ==> !has_id(s, id),
    decreases s.len(),
{
    if s.len() > 0 {
        let p = s.drop_last();
        lemma_find_id_some(p, id);
        if find_id(s, id) is None {
            assert forall|i: int| 0 <= i < s.len() implies (#[trigger] s[i]).id != id by {
                if i < p.len() {
                    assert(s[i] == p[i]);
                    assert(!has_id(p, id));
                    if s[i].id == id {
                        assert(p[i].id == id);
                    }
                }
            }
        }
        match find_id(p, id) {
            Some(i) => {
                assert forall|j: int| 0 <= j < i implies (#[trigger] s[j]).id != id by {
                    assert(s[j] == p[j]);
                }
            },
            None => {
                assert forall|j: int| 0 <= j < p.len() implies (#[trigger] s[j]).id != id by {
                    assert(s[j] == p[j]);
                    if s[j].id == id {
                        assert(has_id(p, id));
                    }
                }
            },
        }
    }
}

// ---------------------------------------------------------------------------
// Executable helpers on vectors of nodes
// ---------------------------------------------------------------------------

fn count_le_exec(s: &Vec<KNode>, d: usize) -> (r: usize)
    ensures
        r == count_le(s@, d as int),
{
    let mut c: usize = 0;
    let mut i: usize = 0;
    while i < s.len()
        invariant
            0 <= i <= s.len(),
            c == count_le(s@.take(i as int), d as int),
            c <= i,
        decreases s.len() - i,
    {
        proof {
            lemma_prefix_step(s@, i as int);
        }
        if s[i].depth <= d {
            c = c + 1;
        }
        i = i + 1;
    }
    proof {
        assert(s@.take(s.len() as int) =~= s@);
    }
    c
}

fn insert_sorted_exec(s: &mut Vec<KNode>, n: KNode)
    ensures
        final(s)@ == insert_sorted(old(s)@, n),
{
    let pos = count_le_exec(s, n.depth);
    proof {
        lemma_count_le_bounds(s@, n.depth as int);
    }
    s.insert(pos, n);
}

fn without_id_exec(s: &Vec<KNode>, id: &NodeID) -> (r: Vec<KNode>)
    ensures
        r@ == without_id(s@, *id),
{
    let mut r: Vec<KNode> = Vec::new();
    let mut i: usize = 0;
    while i < s.len()
        invariant
            0 <= i <= s.len(),
            r@ == without_id(s@.take(i as int), *id),
        decreases s.len() - i,
    {
        proof {
            lemma_prefix_step(s@, i as int);
        }
        if !s[i].id.same(id) {
            r.push(s[i]);
        }
        i = i + 1;
    }
    proof {
        assert(s@.take(s.len() as int) =~= s@);
    }
    r
}

fn split_depth_exec(s: &Vec<KNode>, d: usize, n: usize) -> (r: (Vec<KNode>, Vec<KNode>))
    ensures
        (r.0@, r.1@) == split_depth(s@, d as int, n as nat),
{
    let mut t: Vec<KNode> = Vec::new();
    let mut rest: Vec<KNode> = Vec::new();
    let mut i: usize = 0;
    while i < s.len()
        invariant
            0 <= i <= s.len(),
            (t@, rest@) == split_depth(s@.take(i as int), d as int, n as nat),
        decreases s.len() - i,
    {
        proof {
            lemma_prefix_step(s@, i as int);
        }
        let x = s[i];
        if x.depth == d && t.len() < n {
            t.push(x);
        } else {
            rest.push(x);
        }
        i = i + 1;
    }
    proof {
        assert(s@.take(s.len() as int) =~= s@);
    }
    (t, rest)
}

fn find_id_exec(s: &Vec<KNode>, id: &NodeID) -> (r: Option<usize>)
    ensures
        r matches Some(i) ==> find_id(s@, *id) == Some(i as int),
        r is None ==> find_id(s@, *id) is None,
{
    let mut i: usize = 0;
    while i < s.len()
        invariant
            0 <= i <= s.len(),
            find_id(s@.take(i as int), *id) is None,
        decreases s.len() - i,
    {
        proof {
            lemma_prefix_step(s@, i as int);
        }
        if s[i].id.same(id) {
            proof {
                lemma_find_id_prefix(s@, *id, i + 1);
            }
            return Some(i);
        }
        i = i + 1;
    }
    proof {
        assert(s@.take(s.len() as int) =~= s@);
    }
    None
}

fn ids_at_depth_exec(s: &Vec<KNode>, d: usize) -> (r: Vec<NodeID>)
    ensures
        r@ == ids_at_depth(s@, d as int),
{
    let mut r: Vec<NodeID> = Vec::new();
    let mut i: usize = 0;
    while i < s.len()
        invariant
            0 <= i <= s.len(),
            r@ == ids_at_depth(s@.take(i as int), d as int),
        decreases s.len() - i,
    {
        proof {
            lemma_prefix_step(s@, i as int);
        }
        if s[i].depth == d {
            r.push(s[i].id);
        }
        i = i + 1;
    }
    proof {
        assert(s@.take(s.len() as int) =~= s@);
    }
    r
}

fn ids_exec(s: &Vec<KNode>) -> (r: Vec<NodeID>)
    ensures
        r@ == ids_of(s@),
{
    let mut r: Vec<NodeID> = Vec::new();
    let mut i: usize = 0;
    while i < s.len()
        invariant
            0 <= i <= s.len(),
            r@ == ids_of(s@.take(i as int)),
        decreases s.len() - i,
    {
        proof {
            assert(ids_of(s@.take(i + 1)) =~= ids_of(s@.take(i as int)).push(s@[i as int].id));
        }
        r.push(s[i].id);
        i = i + 1;
    }
    proof {
        assert(s@.take(s.len() as int) =~= s@);
    }
    r
}


proof fn lemma_range_subset(s1: Seq<KNode>, s2: Seq<KNode>, root: NodeID, lo: int, hi: int)
    requires
        nodes_in_range(s1, root, lo, hi),
        forall|x: KNode| #[trigger] s2.contains(x) ==> s1.contains(x),
    ensures
        nodes_in_range(s2, root, lo, hi),
{
    assert forall|i: int| 0 <= i < s2.len() implies #[trigger] s2[i].ok(root) && lo <= s2[i].depth
        <= hi by {
        assert(s2.contains(s2[i]));
        let j = choose|j: int| 0 <= j < s1.len() && s1[j] == s2[i];
        assert(s1[j].ok(root));
    }
}

proof fn lemma_range_push(s: Seq<KNode>, n: KNode, root: NodeID, lo: int, hi: int)
    requires
        nodes_in_range(s, root, lo, hi),
        n.ok(root),
        lo <= n.depth <= hi,
    ensures
        nodes_in_range(s.push(n), root, lo, hi),
{
    assert forall|i: int| 0 <= i < s.push(n).len() implies #[trigger] s.push(n)[i].ok(root) && lo
        <= s.push(n)[i].depth <= hi by {
        if i < s.len() {
            assert(s.push(n)[i] == s[i]);
        }
    }
}

proof fn lemma_count_at_bounds(s: Seq<KNode>, d: int)
    ensures
        count_at(s, d) <= s.len(),
    decreases s.len(),
{
    if s.len() > 0 {
        lemma_count_at_bounds(s.drop_last(), d);
    }
}

// ---------------------------------------------------------------------------
// Buckets
// ---------------------------------------------------------------------------

/// How full a bucket is.
#[derive(Debug, Clone, Copy, PartialEq, Eq, Structural)]
pub enum BucketStatus {
    // #nodes > 2k
    Overflowing,
    // k <= #nodes <= 2k
    Stable,
    // #nodes < k
    Wanting,
}

/// The contents of a bucket: its active nodes, its cached nodes waiting to become
/// active, its configuration and whether it is the root bucket.
pub struct BucketView {
    pub active: Seq<KNode>,
    pub cache: Seq<KNode>,
    pub config: Config,
    pub is_root: bool,
}

impl BucketView {
    pub open spec fn size(self) -> nat {
        self.active.len() + self.cache.len()
    }

    /// A bucket whose nodes are well-formed for `root` with depths in `[lo, hi]`,
    /// whose active nodes are sorted by depth and, unless it is the root bucket,
    /// holds at most `k` active and `2k` cached nodes.
    pub open spec fn wf(self, root: NodeID, lo: int, hi: int) -> bool {
        &&& self.config.valid()
        &&& nodes_in_range(self.active, root, lo, hi)
        &&& nodes_in_range(self.cache, root, lo, hi)
        &&& sorted_by_depth(self.active)
        &&& !self.is_root ==> self.active.len() <= self.config.k && self.cache.len() <= 2
            * self.config.k
    }

    pub open spec fn add_node(self, n: KNode) -> BucketView {
        if self.is_root || self.cache.len() < 2 * self.config.k {
            BucketView { cache: self.cache.push(n), ..self }
        } else {
            self
        }
    }

    pub open spec fn add_node_active(self, n: KNode) -> BucketView {
        if self.is_root || self.active.len() < self.config.k {
            BucketView { active: insert_sorted(self.active, n), ..self }
        } else if self.cache.len() < self.config.k {
            BucketView { cache: self.cache.push(n), ..self }
        } else {
            self
        }
    }

    pub open spec fn add_nodes(self, ns: Seq<KNode>) -> BucketView
        decreases ns.len(),
    {
        if ns.len() == 0 {
            self
        } else {
            self.add_nodes(ns.drop_last()).add_node(ns.last())
        }
    }

    pub open spec fn add_nodes_active(self, ns: Seq<KNode>) -> BucketView
        decreases ns.len(),
    {
        if ns.len() == 0 {
            self
        } else {
            self.add_nodes_active(ns.drop_last()).add_node_active(ns.last())
        }
    }

    pub open spec fn remove_node(self, id: NodeID) -> BucketView {
        BucketView { active: without_id(self.active, id), cache: without_id(self.cache, id), ..self }
    }

    pub open spec fn remove_ids(self, ids: Seq<NodeID>) -> BucketView
        decreases ids.len(),
    {
        if ids.len() == 0 {
            self
        } else {
            self.remove_ids(ids.drop_last()).remove_node(ids.last())
        }
    }

    /// The number of nodes that may be taken out while keeping `k` nodes.
    pub open spec fn spare(self) -> nat {
        if self.size() >= self.config.k {
            (self.size() - self.config.k) as nat
        } else {
            0
        }
    }

    /// Takes out up to `spare()` nodes at depth `d`, cached ones first: returns the
    /// remaining bucket, the taken active nodes and the taken cached nodes.
    pub open spec fn remove_all_nodes_at_depth(self, d: int) -> (BucketView, Seq<KNode>, Seq<KNode>) {
        let (tc, rc) = split_depth(self.cache, d, self.spare());
        let (ta, ra) = split_depth(self.active, d, (self.spare() - tc.len()) as nat);
        (BucketView { active: ra, cache: rc, ..self }, ta, tc)
    }

    /// Fewer than `k` nodes are deeper than the shallowest ones.
    pub open spec fn imbalanced(self) -> bool {
        let all = self.active + self.cache;
        all.len() > 0 && all.len() - count_at(all, min_depth(all)) < self.config.k
    }

    pub open spec fn status(self) -> BucketStatus {
        if self.size() >= 2 * self.config.k {
            if self.imbalanced() {
                BucketStatus::Stable
            } else {
                BucketStatus::Overflowing
            }
        } else if self.size() < self.config.k {
            BucketStatus::Wanting
        } else {
            BucketStatus::Stable
        }
    }

    /// Marks the node `id` as seen: an active node gets its last-seen counter reset;
    /// a cached one is reset and moved to the active nodes if there is room (then
    /// the result is `true`), else to the end of the cache.
    pub open spec fn node_active(self, id: NodeID) -> (BucketView, bool) {
        match find_id(self.active, id) {
            Some(i) => (
                BucketView {
                    active: self.active.update(i, KNode { ticks_last: 0, ..self.active[i] }),
                    ..self
                },
                false,
            ),
            None => match find_id(self.cache, id) {
                Some(p) => {
                    let kn = KNode { ticks_last: 0, ..self.cache[p] };
                    if self.is_root || self.active.len() < self.config.k {
                        (
                            BucketView {
                                active: insert_sorted(self.active, kn),
                                cache: self.cache.remove(p),
                                ..self
                            },
                            true,
                        )
                    } else {
                        (BucketView { cache: self.cache.remove(p).push(kn), ..self }, false)
                    }
                },
                None => (self, false),
            },
        }
    }

    /// Ticks all active nodes: returns the new bucket, the nodes that timed out and
    /// the nodes to ping.
    pub open spec fn tick_active(self) -> (BucketView, Seq<NodeID>, Seq<NodeID>) {
        let t = ticked_all(self.active);
        (
            BucketView { active: t, ..self },
            timeout_ids(t, self.config.ping_timeout),
            ping_ids(t, self.config.ping_interval),
        )
    }

    /// How many cached nodes are looked at in a tick.
    pub open spec fn fillup(self) -> int {
        let f = if self.is_root {
            self.cache.len() as int
        } else {
            2 * (self.config.k - self.active.len())
        };
        if f < self.cache.len() {
            f
        } else {
            self.cache.len() as int
        }
    }

    /// Ticks the first cached nodes, pinging those whose counter is a multiple of
    /// the interval before the tick: returns the new bucket, the nodes that timed
    /// out and the nodes to ping.
    pub open spec fn tick_cache(self) -> (BucketView, Seq<NodeID>, Seq<NodeID>) {
        let pre = self.cache.take(self.fillup());
        let t = ticked_all(pre);
        (
            BucketView { cache: t + self.cache.skip(self.fillup()), ..self },
            timeout_ids(t, self.config.ping_timeout),
            ping_ids(pre, self.config.ping_interval),
        )
    }

    /// One tick of the bucket: the new bucket without the timed out nodes, the timed
    /// out nodes, and the nodes to ping.
    pub open spec fn tick(self) -> (BucketView, Seq<NodeID>, Seq<NodeID>) {
        let (b1, d1, p1) = self.tick_active();
        let (b2, d2, p2) = b1.tick_cache();
        (b2.remove_ids(d1 + d2), d1 + d2, p1 + p2)
    }

    pub open spec fn tickable(self) -> bool {
        nodes_tickable(self.active) && nodes_tickable(self.cache)
    }
}

// Lemmas: the bucket operations keep buckets well-formed.

proof fn lemma_add_node_wf(b: BucketView, n: KNode, root: NodeID, lo: int, hi: int)
    requires
        b.wf(root, lo, hi),
        n.ok(root),
        lo <= n.depth <= hi,
    ensures
        b.add_node(n).wf(root, lo, hi),
        b.add_node(n).size() <= b.size() + 1,
        b.add_node(n).config == b.config,
        b.add_node(n).is_root == b.is_root,
{
    lemma_range_push(b.cache, n, root, lo, hi);
}

proof fn lemma_add_node_active_wf(b: BucketView, n: KNode, root: NodeID, lo: int, hi: int)
    requires
        b.wf(root, lo, hi),
        n.ok(root),
        lo <= n.depth <= hi,
    ensures
        b.add_node_active(n).wf(root, lo, hi),
        b.add_node_active(n).size() <= b.size() + 1,
        b.add_node_active(n).config == b.config,
        b.add_node_active(n).is_root == b.is_root,
{
    lemma_range_push(b.cache, n, root, lo, hi);
    lemma_insert_sorted(b.active, n);
    lemma_range_push(b.active, n, root, lo, hi);
    assert forall|x: KNode| #[trigger] insert_sorted(b.active, n).contains(x) implies b.active.push(
        n,
    ).contains(x) by {
        if x == n {
            assert(b.active.push(n)[b.active.len() as int] == n);
        } else {
            let j = choose|j: int| 0 <= j < b.active.len() && b.active[j] == x;
            assert(b.active.push(n)[j] == x);
        }
    }
    lemma_range_subset(b.active.push(n), insert_sorted(b.active, n), root, lo, hi);
}

proof fn lemma_add_nodes_wf(b: BucketView, ns: Seq<KNode>, root: NodeID, lo: int, hi: int)
    requires
        b.wf(root, lo, hi),
        nodes_in_range(ns, root, lo, hi),
    ensures
        b.add_nodes(ns).wf(root, lo, hi),
        b.add_nodes(ns).size() <= b.size() + ns.len(),
        b.add_nodes(ns).config == b.config,
        b.add_nodes(ns).is_root == b.is_root,
    decreases ns.len(),
{
    if ns.len() > 0 {
        let p = ns.drop_last();
        assert(nodes_in_range(p, root, lo, hi)) by {
            assert forall|i: int| 0 <= i < p.len() implies #[trigger] p[i].ok(root) && lo
                <= p[i].depth <= hi by {
                assert(p[i] == ns[i]);
            }
        }
        lemma_add_nodes_wf(b, p, root, lo, hi);
        assert(ns[ns.len() - 1].ok(root));
        lemma_add_node_wf(b.add_nodes(p), ns.last(), root, lo, hi);
    }
}

proof fn lemma_add_nodes_active_wf(b: BucketView, ns: Seq<KNode>, root: NodeID, lo: int, hi: int)
    requires
        b.wf(root, lo, hi),
        nodes_in_range(ns, root, lo, hi),
    ensures
        b.add_nodes_active(ns).wf(root, lo, hi),
        b.add_nodes_active(ns).size() <= b.size() + ns.len(),
        b.add_nodes_active(ns).config == b.config,
        b.add_nodes_active(ns).is_root == b.is_root,
    decreases ns.len(),
{
    if ns.len() > 0 {
        let p = ns.drop_last();
        assert(nodes_in_range(p, root, lo, hi)) by {
            assert forall|i: int| 0 <= i < p.len() implies #[trigger] p[i].ok(root) && lo
                <= p[i].depth <= hi by {
                assert(p[i] == ns[i]);
            }
        }
        lemma_add_nodes_active_wf(b, p, root, lo, hi);
        assert(ns[ns.len() - 1].ok(root));
        lemma_add_node_active_wf(b.add_nodes_active(p), ns.last(), root, lo, hi);
    }
}

proof fn lemma_remove_node_wf(b: BucketView, id: NodeID, root: NodeID, lo: int, hi: int)
    requires
        b.wf(root, lo, hi),
    ensures
        b.remove_node(id).wf(root, lo, hi),
        b.remove_node(id).size() <= b.size(),
        b.remove_node(id).config == b.config,
        b.remove_node(id).is_root == b.is_root,
{
    lemma_without_id(b.active, id);
    lemma_without_id(b.cache, id);
    lemma_range_subset(b.active, without_id(b.active, id), root, lo, hi);
    lemma_range_subset(b.cache, without_id(b.cache, id), root, lo, hi);
}

proof fn lemma_remove_ids_wf(b: BucketView, ids: Seq<NodeID>, root: NodeID, lo: int, hi: int)
    requires
        b.wf(root, lo, hi),
    ensures
        b.remove_ids(ids).wf(root, lo, hi),
        b.remove_ids(ids).size() <= b.size(),
        b.remove_ids(ids).config == b.config,
        b.remove_ids(ids).is_root == b.is_root,
    decreases ids.len(),
{
    if ids.len() > 0 {
        lemma_remove_ids_wf(b, ids.drop_last(), root, lo, hi);
        lemma_remove_node_wf(b.remove_ids(ids.drop_last()), ids.last(), root, lo, hi);
    }
}

proof fn lemma_remove_all_wf(b: BucketView, d: int, root: NodeID, lo: int, hi: int)
    requires
        b.wf(root, lo, hi),
    ensures
        b.remove_all_nodes_at_depth(d).0.wf(root, lo, hi),
        b.remove_all_nodes_at_depth(d).0.config == b.config,
        b.remove_all_nodes_at_depth(d).0.is_root == b.is_root,
        b.remove_all_nodes_at_depth(d).0.size() + b.remove_all_nodes_at_depth(d).1.len()
            + b.remove_all_nodes_at_depth(d).2.len() == b.size(),
        nodes_in_range(b.remove_all_nodes_at_depth(d).1, root, d, d),
        nodes_in_range(b.remove_all_nodes_at_depth(d).2, root, d, d),
{
    let sp = b.spare();
    lemma_split_depth(b.cache, d, sp);
    let (tc, rc) = split_depth(b.cache, d, sp);
    lemma_split_depth(b.active, d, (sp - tc.len()) as nat);
    let (ta, ra) = split_depth(b.active, d, (sp - tc.len()) as nat);
    lemma_range_subset(b.cache, rc, root, lo, hi);
    lemma_range_subset(b.active, ra, root, lo, hi);
    lemma_range_subset(b.cache, tc, root, lo, hi);
    lemma_range_subset(b.active, ta, root, lo, hi);
    assert forall|i: int| 0 <= i < tc.len() implies #[trigger] tc[i].ok(root) && d <= tc[i].depth
        <= d by {
        assert(tc.contains(tc[i]));
    }
    assert forall|i: int| 0 <= i < ta.len() implies #[trigger] ta[i].ok(root) && d <= ta[i].depth
        <= d by {
        assert(ta.contains(ta[i]));
    }
}

proof fn lemma_node_active_wf(b: BucketView, id: NodeID, root: NodeID, lo: int, hi: int)
    requires
        b.wf(root, lo, hi),
    ensures
        b.node_active(id).0.wf(root, lo, hi),
        b.node_active(id).0.config == b.config,
        b.node_active(id).0.is_root == b.is_root,
        b.node_active(id).0.size() == b.size(),
{
    lemma_find_id_some(b.active, id);
    lemma_find_id_some(b.cache, id);
    lemma_count_le_bounds(b.active, 0);
    match find_id(b.active, id) {
        Some(i) => {
            let a2 = b.active.update(i, KNode { ticks_last: 0, ..b.active[i] });
            assert(b.active[i].ok(root));
            assert forall|j: int| 0 <= j < a2.len() implies #[trigger] a2[j].ok(root) && lo
                <= a2[j].depth <= hi by {
                if j != i {
                    assert(a2[j] == b.active[j]);
                }
            }
            assert forall|x: int, y: int| 0 <= x <= y < a2.len() implies #[trigger] a2[x].depth
                <= #[trigger] a2[y].depth by {
                assert(a2[x].depth == b.active[x].depth);
                assert(a2[y].depth == b.active[y].depth);
            }
        },
        None => match find_id(b.cache, id) {
            Some(p) => {
                let kn = KNode { ticks_last: 0, ..b.cache[p] };
                assert(b.cache[p].ok(root));
                let c2 = b.cache.remove(p);
                assert forall|x: KNode| #[trigger] c2.contains(x) implies b.cache.contains(x) by {
                    let j = choose|j: int| 0 <= j < c2.len() && c2[j] == x;
                    if j < p {
                        assert(b.cache[j] == x);
                    } else {
                        assert(b.cache[j + 1] == x);
                    }
                }
                lemma_range_subset(b.cache, c2, root, lo, hi);
                lemma_count_le_bounds(b.active, kn.depth as int);
                if b.is_root || b.active.len() < b.config.k {
                    lemma_add_node_active_wf(BucketView { cache: c2, ..b }, kn, root, lo, hi);
                } else {
                    lemma_range_push(c2, kn, root, lo, hi);
                }
            },
            None => {},
        },
    }
}

proof fn lemma_ticked_range(s: Seq<KNode>, root: NodeID, lo: int, hi: int)
    requires
        nodes_in_range(s, root, lo, hi),
        nodes_tickable(s),
    ensures
        nodes_in_range(ticked_all(s), root, lo, hi),
        sorted_by_depth(s) ==> sorted_by_depth(ticked_all(s)),
{
    assert forall|i: int| 0 <= i < ticked_all(s).len() implies #[trigger] ticked_all(s)[i].ok(root)
        && lo <= ticked_all(s)[i].depth <= hi by {
        assert(s[i].ok(root));
        assert(s[i].ticks_active < u32::MAX);
    }
    if sorted_by_depth(s) {
        let t = ticked_all(s);
        assert forall|x: int, y: int| 0 <= x <= y < t.len() implies #[trigger] t[x].depth
            <= #[trigger] t[y].depth by {
            assert(t[x].depth == s[x].depth);
            assert(t[y].depth == s[y].depth);
        }
    }
}

proof fn lemma_tick_wf(b: BucketView, root: NodeID, lo: int, hi: int)
    requires
        b.wf(root, lo, hi),
        b.tickable(),
    ensures
        b.tick().0.wf(root, lo, hi),
        b.tick().0.config == b.config,
        b.tick().0.is_root == b.is_root,
        b.tick().0.size() <= b.size(),
{
    let (b1, d1, p1) = b.tick_active();
    lemma_ticked_range(b.active, root, lo, hi);
    assert(b1.wf(root, lo, hi));
    let f = b1.fillup();
    assert(0 <= f <= b1.cache.len());
    let pre = b1.cache.take(f);
    assert(nodes_in_range(pre, root, lo, hi)) by {
        assert forall|i: int| 0 <= i < pre.len() implies #[trigger] pre[i].ok(root) && lo
            <= pre[i].depth <= hi by {
            assert(pre[i] == b1.cache[i]);
        }
    }
    assert(nodes_tickable(pre)) by {
        assert forall|i: int| 0 <= i < pre.len() implies (#[trigger] pre[i]).ticks_active
            < u32::MAX && pre[i].ticks_last < u32::MAX by {
            assert(pre[i] == b1.cache[i]);
        }
    }
    lemma_ticked_range(pre, root, lo, hi);
    let (b2, d2, p2) = b1.tick_cache();
    let c2 = ticked_all(pre) + b1.cache.skip(f);
    assert(nodes_in_range(c2, root, lo, hi)) by {
        assert forall|i: int| 0 <= i < c2.len() implies #[trigger] c2[i].ok(root) && lo
            <= c2[i].depth <= hi by {
            if i < f {
                assert(c2[i] == ticked_all(pre)[i]);
            } else {
                assert(c2[i] == b1.cache[i]);
            }
        }
    }
    assert(b2.wf(root, lo, hi));
    lemma_remove_ids_wf(b2, d1 + d2, root, lo, hi);
}

/// A bucket of nodes. The root bucket holds every node deeper than the other
/// buckets.
#[derive(Debug, Clone)]
struct KBucket {
    active: Vec<KNode>,
    cache: Vec<KNode>,
    config: Config,
    is_root: bool,
}

impl View for KBucket {
    type V = BucketView;

    closed spec fn view(&self) -> BucketView {
        BucketView {
            active: self.active@,
            cache: self.cache@,
            config: self.config,
            is_root: self.is_root,
        }
    }
}

fn concat_exec(a: &Vec<KNode>, b: &Vec<KNode>) -> (r: Vec<KNode>)
    requires
        a.len() + b.len() <= usize::MAX,
    ensures
        r@ == a@ + b@,
{
    let mut r: Vec<KNode> = Vec::new();
    let mut i: usize = 0;
    while i < a.len()
        invariant
            0 <= i <= a.len(),
            r@ == a@.take(i as int),
        decreases a.len() - i,
    {
        proof {
            lemma_prefix_step(a@, i as int);
        }
        r.push(a[i]);
        i = i + 1;
    }
    let mut j: usize = 0;
    while j < b.len()
        invariant
            0 <= j <= b.len(),
            r@ == a@ + b@.take(j as int),
        decreases b.len() - j,
    {
        proof {
            assert(a@ + b@.take(j + 1) =~= (a@ + b@.take(j as int)).push(b@[j as int]));
        }
        r.push(b[j]);
        j = j + 1;
    }
    proof {
        assert(a@ =~= a@.take(a.len() as int));
        assert(b@.take(b.len() as int) =~= b@);
    }
    r
}

fn min_depth_exec(s: &Vec<KNode>) -> (r: usize)
    requires
        s.len() > 0,
    ensures
        r == min_depth(s@),
{
    let mut m: usize = s[0].depth;
    let mut i: usize = 1;
    proof {
        assert(s@.take(1).len() == 1);
        assert(s@.take(1)[0] == s@[0]);
    }
    while i < s.len()
        invariant
            1 <= i <= s.len(),
            m == min_depth(s@.take(i as int)),
        decreases s.len() - i,
    {
        proof {
            lemma_prefix_step(s@, i as int);
        }
        if s[i].depth < m {
            m = s[i].depth;
        }
        i = i + 1;
    }
    proof {
        assert(s@.take(s.len() as int) =~= s@);
    }
    m
}

fn count_at_exec(s: &Vec<KNode>, d: usize) -> (r: usize)
    ensures
        r == count_at(s@, d as int),
{
    let mut c: usize = 0;
    let mut i: usize = 0;
    while i < s.len()
        invariant
            0 <= i <= s.len(),
            c == count_at(s@.take(i as int), d as int),
            c <= i,
        decreases s.len() - i,
    {
        proof {
            lemma_prefix_step(s@, i as int);
        }
        if s[i].depth == d {
            c = c + 1;
        }
        i = i + 1;
    }
    proof {
        assert(s@.take(s.len() as int) =~= s@);
    }
    c
}

fn push_ids(v: &mut Vec<NodeID>, other: &Vec<NodeID>)
    ensures
        final(v)@ == old(v)@ + other@,
{
    let mut i: usize = 0;
    while i < other.len()
        invariant
            0 <= i <= other.len(),
            v@ == old(v)@ + other@.take(i as int),
        decreases other.len() - i,
    {
        proof {
            assert(old(v)@ + other@.take(i + 1) =~= (old(v)@ + other@.take(i as int)).push(
                other@[i as int],
            ));
        }
        v.push(other[i]);
        i = i + 1;
    }
    proof {
        assert(other@.take(other.len() as int) =~= other@);
    }
}

/// The nodes that were removed in a tick, and the nodes that need to be pinged.
#[derive(Debug, Clone, PartialEq, Default)]
pub struct TickIDs {
    pub deleted: Vec<NodeID>,
    pub ping: Vec<NodeID>,
}

impl TickIDs {
    pub fn new() -> (r: TickIDs)
        ensures
            r.deleted@ == Seq::<NodeID>::empty(),
            r.ping@ == Seq::<NodeID>::empty(),
    {
        TickIDs { deleted: Vec::new(), ping: Vec::new() }
    }

    /// Appends the identifiers of `other`.
    pub fn extend(&mut self, other: TickIDs)
        ensures
            final(self).deleted@ == old(self).deleted@ + other.deleted@,
            final(self).ping@ == old(self).ping@ + other.ping@,
    {
        push_ids(&mut self.deleted, &other.deleted);
        push_ids(&mut self.ping, &other.ping);
    }
}

impl KBucket {
    fn new(config: Config) -> (r: KBucket)
        ensures
            r@ == (BucketView { active: Seq::empty(), cache: Seq::empty(), config, is_root: false }),
    {
        KBucket { active: Vec::new(), cache: Vec::new(), config, is_root: false }
    }

    fn new_root(config: Config) -> (r: KBucket)
        ensures
            r@ == (BucketView { active: Seq::empty(), cache: Seq::empty(), config, is_root: true }),
    {
        KBucket { active: Vec::new(), cache: Vec::new(), config, is_root: true }
    }

    fn add_node(&mut self, node: KNode)
        requires
            old(self).config.valid(),
        ensures
            final(self)@ == old(self)@.add_node(node),
    {
        if self.is_root || self.cache.len() < 2 * self.config.k {
            self.cache.push(node);
        }
    }

    fn add_nodes(&mut self, nodes: Vec<KNode>)
        requires
            old(self).config.valid(),
        ensures
            final(self)@ == old(self)@.add_nodes(nodes@),
            final(self).config == old(self).config,
    {
        let mut i: usize = 0;
        while i < nodes.len()
            invariant
                0 <= i <= nodes.len(),
                self@ == old(self)@.add_nodes(nodes@.take(i as int)),
                self.config == old(self).config,
                old(self).config.valid(),
            decreases nodes.len() - i,
        {
            proof {
                lemma_prefix_step(nodes@, i as int);
            }
            self.add_node(nodes[i]);
            i = i + 1;
        }
        proof {
            assert(nodes@.take(nodes.len() as int) =~= nodes@);
        }
    }

    fn add_node_active(&mut self, node: KNode)
        ensures
            final(self)@ == old(self)@.add_node_active(node),
            final(self).config == old(self).config,
            final(self).is_root == old(self).is_root,
    {
        if self.is_root || self.active.len() < self.config.k {
            insert_sorted_exec(&mut self.active, node);
        } else if self.cache.len() < self.config.k {
            self.cache.push(node);
        }
    }

    fn add_nodes_active(&mut self, nodes: Vec<KNode>)
        ensures
            final(self)@ == old(self)@.add_nodes_active(nodes@),
            final(self).config == old(self).config,
            final(self).is_root == old(self).is_root,
    {
        let mut i: usize = 0;
        while i < nodes.len()
            invariant
                0 <= i <= nodes.len(),
                self@ == old(self)@.add_nodes_active(nodes@.take(i as int)),
                self.config == old(self).config,
                self.is_root == old(self).is_root,
            decreases nodes.len() - i,
        {
            proof {
                lemma_prefix_step(nodes@, i as int);
            }
            self.add_node_active(nodes[i]);
            i = i + 1;
        }
        proof {
            assert(nodes@.take(nodes.len() as int) =~= nodes@);
        }
    }

    fn remove_node(&mut self, id: &NodeID)
        ensures
            final(self)@ == old(self)@.remove_node(*id),
    {
        self.active = without_id_exec(&self.active, id);
        self.cache = without_id_exec(&self.cache, id);
    }

    // Removes the node at depth, but avoids draining the
    // node lists below config.k nodes.
    // It may still happen that all active nodes get drained, and only
    // cached nodes remain.
    fn remove_all_nodes_at_depth(&mut self, depth: usize) -> (r: (Vec<KNode>, Vec<KNode>))
        requires
            old(self)@.size() <= usize::MAX,
        ensures
            (final(self)@, r.0@, r.1@) == old(self)@.remove_all_nodes_at_depth(depth as int),
    {
        let total = self.cache.len() + self.active.len();
        let max_nodes: usize = if total >= self.config.k {
            total - self.config.k
        } else {
            0
        };
        let (cache, rest_cache) = split_depth_exec(&self.cache, depth, max_nodes);
        proof {
            lemma_split_depth(self.cache@, depth as int, max_nodes as nat);
        }
        let (active, rest_active) = split_depth_exec(&self.active, depth, max_nodes - cache.len());
        self.cache = rest_cache;
        self.active = rest_active;
        (active, cache)
    }

    fn get_active_ids(&self, depth: usize) -> (r: Vec<NodeID>)
        ensures
            r@ == ids_at_depth(self.active@, depth as int),
    {
        ids_at_depth_exec(&self.active, depth)
    }

    fn last_depth(&self) -> (r: Option<usize>)
        ensures
            r == (if self.active@.len() > 0 {
                Some(self.active@.last().depth)
            } else {
                None
            }),
    {
        if self.active.len() > 0 {
            Some(self.active[self.active.len() - 1].depth)
        } else {
            None
        }
    }

    // Rust range expressions:
    // 0..k nodes: wanting
    // k..=2k nodes: stable
    // 2k+1.. nodes: overflowing
    fn status(&mut self) -> (r: BucketStatus)
        requires
            old(self).config.valid(),
            old(self)@.size() <= usize::MAX,
        ensures
            r == old(self)@.status(),
            *final(self) == *old(self),
    {
        let nodes = self.active.len() + self.cache.len();
        if nodes >= 2 * self.config.k {
            // Check if we're in the edge-case of having too few different nodes.
            if self.overflow_imbalance() {
                BucketStatus::Stable
            } else {
                BucketStatus::Overflowing
            }
        } else if nodes < self.config.k {
            BucketStatus::Wanting
        } else {
            BucketStatus::Stable
        }
    }

    fn overflow_imbalance(&self) -> (r: bool)
        requires
            self@.size() <= usize::MAX,
        ensures
            r == self@.imbalanced(),
    {
        let depths = concat_exec(&self.active, &self.cache);
        if depths.len() == 0 {
            return false;
        }
        let first = min_depth_exec(&depths);
        let first_nbr = count_at_exec(&depths, first);
        proof {
            lemma_count_at_bounds(depths@, first as int);
        }
        depths.len() - first_nbr < self.config.k
    }

    fn tick(&mut self) -> (r: TickIDs)
        requires
            old(self)@.tickable(),
            old(self)@.config.valid(),
            !old(self).is_root ==> old(self).active.len() <= old(self).config.k,
        ensures
            (final(self)@, r.deleted@, r.ping@) == old(self)@.tick(),
    {
        let mut ticks = self.tick_active();
        let tc = self.tick_cache();
        ticks.extend(tc);
        let mut i: usize = 0;
        let ghost b2 = self@;
        while i < ticks.deleted.len()
            invariant
                0 <= i <= ticks.deleted.len(),
                self@ == b2.remove_ids(ticks.deleted@.take(i as int)),
            decreases ticks.deleted.len() - i,
        {
            proof {
                lemma_prefix_step(ticks.deleted@, i as int);
            }
            let id = ticks.deleted[i];
            self.remove_node(&id);
            i = i + 1;
        }
        proof {
            assert(ticks.deleted@.take(ticks.deleted.len() as int) =~= ticks.deleted@);
        }
        ticks
    }

    fn tick_active(&mut self) -> (r: TickIDs)
        requires
            nodes_tickable(old(self).active@),
            old(self).config.valid(),
        ensures
            (final(self)@, r.deleted@, r.ping@) == old(self)@.tick_active(),
    {
        let mut tick_ids = TickIDs::new();
        let ghost t = ticked_all(self.active@);
        let ghost old_active = self.active@;
        // Active nodes get only pinged when they were active for ping_interval.
        let mut i: usize = 0;
        while i < self.active.len()
            invariant
                0 <= i <= self.active.len(),
                self.active@.len() == old_active.len(),
                t == ticked_all(old_active),
                nodes_tickable(old_active),
                forall|j: int| 0 <= j < i ==> self.active@[j] == t[j],
                forall|j: int| i <= j < self.active@.len() ==> self.active@[j] == old_active[j],
                tick_ids.ping@ == ping_ids(t.take(i as int), self.config.ping_interval),
                tick_ids.deleted@ == timeout_ids(t.take(i as int), self.config.ping_timeout),
                self.config == old(self).config,
                self.cache == old(self).cache,
                self.is_root == old(self).is_root,
                self.config.valid(),
            decreases self.active.len() - i,
        {
            proof {
                lemma_prefix_step(t, i as int);
            }
            let mut node = self.active[i];
            node.tick();
            self.active.set(i, node);
            if node.ticks_last % self.config.ping_interval == 0 {
                tick_ids.ping.push(node.id);
            }
            if node.ticks_last >= self.config.ping_timeout {
                tick_ids.deleted.push(node.id);
            }
            i = i + 1;
        }
        proof {
            assert(self.active@ =~= t);
            assert(t.take(t.len() as int) =~= t);
        }
        tick_ids
    }

    fn tick_cache(&mut self) -> (r: TickIDs)
        requires
            nodes_tickable(old(self).cache@),
            old(self).config.valid(),
            !old(self).is_root ==> old(self).active.len() <= old(self).config.k,
        ensures
            (final(self)@, r.deleted@, r.ping@) == old(self)@.tick_cache(),
    {
        let mut tick_ids = TickIDs::new();
        // Cached nodes get pinged directly.
        // Up to twice the missig nodes get pinged to fill up self.active.
        let fillup_nodes = if self.is_root {
            self.cache.len()
        } else {
            2 * (self.config.k - self.active.len())
        };
        let n = if fillup_nodes < self.cache.len() {
            fillup_nodes
        } else {
            self.cache.len()
        };
        let ghost old_cache = self.cache@;
        let ghost pre = old_cache.take(n as int);
        let ghost t = ticked_all(pre);
        let mut i: usize = 0;
        while i < n
            invariant
                0 <= i <= n,
                n <= old_cache.len(),
                self.cache@.len() == old_cache.len(),
                pre == old_cache.take(n as int),
                t == ticked_all(pre),
                nodes_tickable(old_cache),
                forall|j: int| 0 <= j < i ==> self.cache@[j] == t[j],
                forall|j: int| i <= j < self.cache@.len() ==> self.cache@[j] == old_cache[j],
                tick_ids.ping@ == ping_ids(pre.take(i as int), self.config.ping_interval),
                tick_ids.deleted@ == timeout_ids(t.take(i as int), self.config.ping_timeout),
                self.config == old(self).config,
                self.active == old(self).active,
                self.is_root == old(self).is_root,
                self.config.valid(),
            decreases n - i,
        {
            proof {
                lemma_prefix_step(t, i as int);
                lemma_prefix_step(pre, i as int);
            }
            let mut node = self.cache[i];
            if node.ticks_last % self.config.ping_interval == 0 {
                tick_ids.ping.push(node.id);
            }
            node.tick();
            self.cache.set(i, node);
            if node.ticks_last >= self.config.ping_timeout {
                tick_ids.deleted.push(node.id);
            }
            i = i + 1;
        }
        proof {
            assert(self.cache@ =~= t + old_cache.skip(n as int));
            assert(t.take(t.len() as int) =~= t);
            assert(pre.take(pre.len() as int) =~= pre);
        }
        tick_ids
    }

    fn node_active(&mut self, id: &NodeID) -> (r: bool)
        ensures
            (final(self)@, r) == old(self)@.node_active(*id),
    {
        let fa = find_id_exec(&self.active, id);
        proof {
            lemma_find_id_some(self.active@, *id);
        }
        if let Some(i) = fa {
            let mut kn = self.active[i];
            kn.active();
            self.active.set(i, kn);
        } else if let Some(pos) = find_id_exec(&self.cache, id) {
            proof {
                lemma_find_id_some(self.cache@, *id);
            }
            let mut kn = self.cache.remove(pos);
            kn.active();
            if self.is_root || self.active.len() < self.config.k {
                insert_sorted_exec(&mut self.active, kn);
                return true;
            } else {
                self.cache.push(kn);
            }
        }
        false
    }

    fn has_node_id(&self, id: &NodeID) -> (r: bool)
        ensures
            r == (has_id(self.active@, *id) || has_id(self.cache@, *id)),
    {
        let a = find_id_exec(&self.active, id);
        let c = find_id_exec(&self.cache, id);
        proof {
            lemma_find_id_some(self.active@, *id);
            lemma_find_id_some(self.cache@, *id);
        }
        a.is_some() || c.is_some()
    }
}


// ---------------------------------------------------------------------------
// More lemmas on depths and counts
// ---------------------------------------------------------------------------

proof fn lemma_min_depth(s: Seq<KNode>)
    requires
        s.len() > 0,
    ensures
        forall|i: int| 0 <= i < s.len() ==> min_depth(s) <= #[trigger] s[i].depth,
        exists|i: int| 0 <= i < s.len() && min_depth(s) == #[trigger] s[i].depth,
    decreases s.len(),
{
    if s.len() > 1 {
        let p = s.drop_last();
        lemma_min_depth(p);
        assert forall|i: int| 0 <= i < s.len() implies min_depth(s) <= #[trigger] s[i].depth by {
            if i < p.len() {
                assert(s[i] == p[i]);
            }
        }
        let j = choose|j: int| 0 <= j < p.len() && min_depth(p) == #[trigger] p[j].depth;
        if (s.last().depth as int) < min_depth(p) {
            assert(min_depth(s) == s[s.len() - 1].depth);
        } else {
            assert(min_depth(s) == s[j].depth);
        }
    } else {
        assert(min_depth(s) == s[0].depth);
    }
}

proof fn lemma_count_at_zero(s: Seq<KNode>, d: int)
    ensures
        count_at(s, d) == 0 <==> forall|i: int| 0 <= i < s.len() ==> (#[trigger] s[i]).depth != d,
    decreases s.len(),
{
    if s.len() > 0 {
        let p = s.drop_last();
        lemma_count_at_zero(p, d);
        if count_at(s, d) == 0 {
            assert forall|i: int| 0 <= i < s.len() implies (#[trigger] s[i]).depth != d by {
                if i < p.len() {
                    assert(s[i] == p[i]);
                }
            }
        }
        if forall|i: int| 0 <= i < s.len() ==> (#[trigger] s[i]).depth != d {
            assert forall|i: int| 0 <= i < p.len() implies (#[trigger] p[i]).depth != d by {
                assert(s[i] == p[i]);
            }
            assert(s[s.len() - 1].depth != d);
        }
    }
}

proof fn lemma_count_at_concat(a: Seq<KNode>, b: Seq<KNode>, d: int)
    ensures
        count_at(a + b, d) == count_at(a, d) + count_at(b, d),
    decreases b.len(),
{
    if b.len() > 0 {
        lemma_count_at_concat(a, b.drop_last(), d);
        assert((a + b).drop_last() =~= a + b.drop_last());
    } else {
        assert(a + b =~= a);
    }
}

proof fn lemma_count_at_split(s: Seq<KNode>, d: int, n: nat)
    ensures
        count_at(s, d) == split_depth(s, d, n).0.len() + count_at(split_depth(s, d, n).1, d),
    decreases s.len(),
{
    if s.len() > 0 {
        lemma_count_at_split(s.drop_last(), d, n);
        let (t, r) = split_depth(s.drop_last(), d, n);
        if !(s.last().depth == d && t.len() < n) {
            assert(r.push(s.last()).drop_last() =~= r);
        }
    }
}

proof fn lemma_range_raise(s: Seq<KNode>, root: NodeID, d: int)
    requires
        nodes_in_range(s, root, d, 255),
        count_at(s, d) == 0,
    ensures
        nodes_in_range(s, root, d + 1, 255),
{
    lemma_count_at_zero(s, d);
    assert forall|i: int| 0 <= i < s.len() implies #[trigger] s[i].ok(root) && d + 1 <= s[i].depth
        <= 255 by {
        assert(s[i].depth != d);
        assert(s[i].ok(root));
        assert(d <= s[i].depth);
    }
}

proof fn lemma_range_widen(s: Seq<KNode>, root: NodeID, lo: int, hi: int, lo2: int, hi2: int)
    requires
        nodes_in_range(s, root, lo, hi),
        lo2 <= lo,
        hi <= hi2,
    ensures
        nodes_in_range(s, root, lo2, hi2),
{
    assert forall|i: int| 0 <= i < s.len() implies #[trigger] s[i].ok(root) && lo2 <= s[i].depth
        <= hi2 by {
        assert(s[i].ok(root));
    }
}

/// Lowering the depth bound keeps a bucket well-formed.
proof fn lemma_wf_widen(b: BucketView, root: NodeID, lo: int, hi: int, lo2: int)
    requires
        b.wf(root, lo, hi),
        lo2 <= lo,
    ensures
        b.wf(root, lo2, hi),
{
}

/// Removing the nodes at depth `d` from an overflowing bucket whose nodes are at
/// least as deep as `d` leaves only deeper nodes.
proof fn lemma_remove_all_overflowing(b: BucketView, root: NodeID, d: int)
    requires
        b.wf(root, d, 255),
        b.status() == BucketStatus::Overflowing,
    ensures
        b.remove_all_nodes_at_depth(d).0.wf(root, d + 1, 255),
{
    let all = b.active + b.cache;
    lemma_remove_all_wf(b, d, root, d, 255);
    let sp = b.spare();
    assert(all.len() > 0);
    lemma_min_depth(all);
    lemma_count_at_concat(b.active, b.cache, d);
    let m = min_depth(all);
    let j = choose|j: int| 0 <= j < all.len() && m == #[trigger] all[j].depth;
    assert(m >= d) by {
        if j < b.active.len() {
            assert(all[j] == b.active[j]);
            assert(b.active[j].ok(root));
        } else {
            assert(all[j] == b.cache[j - b.active.len()]);
            assert(b.cache[j - b.active.len()].ok(root));
        }
    }
    if m > d {
        assert forall|i: int| 0 <= i < all.len() implies (#[trigger] all[i]).depth != d by {}
        lemma_count_at_zero(all, d);
    }
    assert(count_at(all, d) <= sp);
    let (tc, rc) = split_depth(b.cache, d, sp);
    lemma_split_depth(b.cache, d, sp);
    lemma_count_at_split(b.cache, d, sp);
    let n2 = (sp - tc.len()) as nat;
    let (ta, ra) = split_depth(b.active, d, n2);
    lemma_split_depth(b.active, d, n2);
    lemma_count_at_split(b.active, d, n2);
    assert(count_at(rc, d) == 0 && count_at(ra, d) == 0);
    let r = b.remove_all_nodes_at_depth(d).0;
    assert(r.active == ra && r.cache == rc);
    assert(r.wf(root, d, 255));
    lemma_range_raise(ra, root, d);
    lemma_range_raise(rc, root, d);
    assert(r.wf(root, d + 1, 255));
}

// ---------------------------------------------------------------------------
// The routing table
// ---------------------------------------------------------------------------

/// The contents of a routing table: its buckets, its root bucket, the root node and
/// the configuration.
pub struct KademliaView {
    pub buckets: Seq<BucketView>,
    pub root_bucket: BucketView,
    pub root: NodeID,
    pub config: Config,
}

pub open spec fn sum_sizes(bs: Seq<BucketView>) -> nat
    decreases bs.len(),
{
    if bs.len() == 0 {
        0
    } else {
        sum_sizes(bs.drop_last()) + bs.last().size()
    }
}

/// The identifiers of the active nodes of the buckets, bucket by bucket.
pub open spec fn active_ids(bs: Seq<BucketView>) -> Seq<NodeID>
    decreases bs.len(),
{
    if bs.len() == 0 {
        Seq::empty()
    } else {
        active_ids(bs.drop_last()) + ids_of(bs.last().active)
    }
}

/// The identifiers of the cached nodes of the buckets, bucket by bucket.
pub open spec fn cache_ids(bs: Seq<BucketView>) -> Seq<NodeID>
    decreases bs.len(),
{
    if bs.len() == 0 {
        Seq::empty()
    } else {
        cache_ids(bs.drop_last()) + ids_of(bs.last().cache)
    }
}

/// Ticks every bucket in order: the new buckets, and the timed out and pinged
/// nodes, bucket by bucket.
pub open spec fn tick_buckets(bs: Seq<BucketView>) -> (Seq<BucketView>, Seq<NodeID>, Seq<NodeID>)
    decreases bs.len(),
{
    if bs.len() == 0 {
        (Seq::empty(), Seq::empty(), Seq::empty())
    } else {
        let (b2, d, p) = tick_buckets(bs.drop_last());
        let (b, d1, p1) = bs.last().tick();
        (b2.push(b), d + d1, p + p1)
    }
}

/// The node as it is stored when first seen.
pub open spec fn new_knode(root: NodeID, id: NodeID) -> KNode {
    KNode { id, depth: depth_of(root, id) as usize, ticks_active: 0, ticks_last: 0 }
}

pub open spec fn empty_bucket(config: Config) -> BucketView {
    BucketView { active: Seq::empty(), cache: Seq::empty(), config, is_root: false }
}

impl KademliaView {
    pub open spec fn total(self) -> nat {
        sum_sizes(self.buckets) + self.root_bucket.size()
    }

    /// Bucket `i` holds only nodes at depth `i`, the root bucket only nodes at least
    /// as deep as the number of buckets; every node's stored depth is its depth
    /// from the root; active nodes are sorted by depth; buckets other than the root
    /// bucket hold at most `k` active and `2k` cached nodes; and the node count
    /// fits in a `usize`.
    pub open spec fn wf(self) -> bool {
        &&& self.config.valid()
        &&& self.buckets.len() <= 256
        &&& forall|i: int|
            0 <= i < self.buckets.len() ==> {
                &&& (#[trigger] self.buckets[i]).wf(self.root, i, i)
                &&& !self.buckets[i].is_root
                &&& self.buckets[i].config == self.config
            }
        &&& self.root_bucket.wf(self.root, self.buckets.len() as int, 255)
        &&& self.root_bucket.is_root
        &&& self.root_bucket.config == self.config
        &&& self.total() <= usize::MAX
    }

    /// Every stored node can be ticked once more without overflow.
    pub open spec fn tickable(self) -> bool {
        &&& forall|i: int| 0 <= i < self.buckets.len() ==> (#[trigger] self.buckets[i]).tickable()
        &&& self.root_bucket.tickable()
    }

    /// Some bucket holds a node with identifier `id`.
    pub open spec fn has_node(self, id: NodeID) -> bool {
        ||| exists|i: int|
            0 <= i < self.buckets.len() && (has_id((#[trigger] self.buckets[i]).active, id)
                || has_id(self.buckets[i].cache, id))
        ||| has_id(self.root_bucket.active, id)
        ||| has_id(self.root_bucket.cache, id)
    }

    pub open spec fn with_bucket(self, i: int, b: BucketView) -> KademliaView {
        KademliaView { buckets: self.buckets.update(i, b), ..self }
    }

    pub open spec fn with_root(self, b: BucketView) -> KademliaView {
        KademliaView { root_bucket: b, ..self }
    }

    /// Splits the root bucket while it overflows: the nodes at the depth of the next
    /// bucket move to a new bucket.
    pub open spec fn rebalance_overflow(self) -> KademliaView
        decreases 256 - self.buckets.len(),
    {
        if self.root_bucket.status() == BucketStatus::Overflowing && self.buckets.len() < 256 {
            let (r, ta, tc) = self.root_bucket.remove_all_nodes_at_depth(self.buckets.len() as int);
            let b = empty_bucket(self.config).add_nodes_active(ta).add_nodes(tc);
            KademliaView { buckets: self.buckets.push(b), root_bucket: r, ..self }.rebalance_overflow()
        } else {
            self
        }
    }

    /// Merges the deepest buckets into the root bucket while it lacks nodes.
    pub open spec fn rebalance_wanting(self) -> KademliaView
        decreases self.buckets.len(),
    {
        if self.root_bucket.status() == BucketStatus::Wanting && self.buckets.len() > 0 {
            let b = self.buckets.last();
            let r = self.root_bucket.add_nodes_active(b.active).add_nodes(b.cache);
            KademliaView { buckets: self.buckets.drop_last(), root_bucket: r, ..self }.rebalance_wanting()
        } else {
            self
        }
    }

    pub open spec fn add_node(self, id: NodeID) -> KademliaView {
        if id == self.root || self.has_node(id) {
            self
        } else {
            let n = new_knode(self.root, id);
            if (n.depth as int) < self.buckets.len() {
                self.with_bucket(n.depth as int, self.buckets[n.depth as int].add_node(n))
            } else {
                let r = self.root_bucket.add_node(n);
                if r.status() == BucketStatus::Overflowing {
                    self.with_root(r).rebalance_overflow()
                } else {
                    self.with_root(r)
                }
            }
        }
    }

    pub open spec fn add_nodes(self, ids: Seq<NodeID>) -> KademliaView
        decreases ids.len(),
    {
        if ids.len() == 0 {
            self
        } else {
            self.add_nodes(ids.drop_last()).add_node(ids.last())
        }
    }

    pub open spec fn add_node_active(self, id: NodeID) -> KademliaView {
        let n = new_knode(self.root, id);
        if (n.depth as int) < self.buckets.len() {
            self.with_bucket(n.depth as int, self.buckets[n.depth as int].add_node_active(n))
        } else {
            let r = self.root_bucket.add_node_active(n);
            if r.status() == BucketStatus::Overflowing {
                self.with_root(r).rebalance_overflow()
            } else {
                self.with_root(r)
            }
        }
    }

    pub open spec fn add_nodes_active(self, ids: Seq<NodeID>) -> KademliaView
        decreases ids.len(),
    {
        if ids.len() == 0 {
            self
        } else {
            self.add_nodes_active(ids.drop_last()).add_node_active(ids.last())
        }
    }

    pub open spec fn node_disconnected(self, id: NodeID) -> KademliaView {
        let d = depth_of(self.root, id);
        if d < self.buckets.len() {
            let v = self.with_bucket(d, self.buckets[d].remove_node(id));
            if v.root_bucket.status() == BucketStatus::Wanting {
                v.rebalance_wanting()
            } else {
                v
            }
        } else {
            self
        }
    }

    pub open spec fn remove_node(self, id: NodeID) -> KademliaView {
        let d = depth_of(self.root, id);
        if d < self.buckets.len() {
            self.with_bucket(d, self.buckets[d].remove_node(id))
        } else {
            let r = self.root_bucket.remove_node(id);
            if r.status() == BucketStatus::Wanting {
                self.with_root(r).rebalance_wanting()
            } else {
                self.with_root(r)
            }
        }
    }

    /// The active nodes at depth `d`.
    pub open spec fn nodes_depth(self, d: int) -> Seq<NodeID> {
        if d < self.buckets.len() {
            ids_at_depth(self.buckets[d].active, d)
        } else {
            ids_at_depth(self.root_bucket.active, d)
        }
    }

    /// The first non-empty set of active nodes at a depth in `[from, to)`.
    pub open spec fn scan_depths(self, from: int, to: int) -> Seq<NodeID>
        decreases to - from,
    {
        if from >= to {
            Seq::empty()
        } else if self.nodes_depth(from).len() > 0 {
            self.nodes_depth(from)
        } else {
            self.scan_depths(from + 1, to)
        }
    }

    pub open spec fn route_closest(self, dst: NodeID, last: Option<NodeID>) -> Seq<NodeID> {
        let depth = depth_of(self.root, dst);
        match last {
            Some(l) => {
                let depth_last = if depth_of(self.root, l) > depth {
                    depth_of(self.root, l)
                } else {
                    depth
                };
                let depth_root_last = if self.root_bucket.active.len() > 0 {
                    self.root_bucket.active.last().depth as int
                } else {
                    depth_last
                };
                if self.nodes_depth(depth).len() > 0 {
                    self.nodes_depth(depth)
                } else {
                    self.scan_depths(depth_last + 1, depth_root_last)
                }
            },
            None => self.nodes_depth(depth),
        }
    }

    pub open spec fn node_active(self, id: NodeID) -> (KademliaView, bool) {
        let d = depth_of(self.root, id);
        if d < self.buckets.len() {
            let (b, r) = self.buckets[d].node_active(id);
            (self.with_bucket(d, b), r)
        } else {
            let (b, r) = self.root_bucket.node_active(id);
            (self.with_root(b), r)
        }
    }

    /// One tick of all buckets: the new table, the removed nodes and the nodes to
    /// ping.
    pub open spec fn tick(self) -> (KademliaView, Seq<NodeID>, Seq<NodeID>) {
        let (bs, d, p) = tick_buckets(self.buckets);
        let (r, d1, p1) = self.root_bucket.tick();
        (KademliaView { buckets: bs, root_bucket: r, ..self }, d + d1, p + p1)
    }

    pub open spec fn active_nodes(self) -> Seq<NodeID> {
        active_ids(self.buckets) + ids_of(self.root_bucket.active)
    }

    pub open spec fn cache_nodes(self) -> Seq<NodeID> {
        cache_ids(self.buckets) + ids_of(self.root_bucket.cache)
    }

    pub open spec fn bucket_nodes(self) -> Seq<Seq<NodeID>> {
        self.buckets.map_values(|b: BucketView| ids_of(b.active)).push(
            ids_of(self.root_bucket.active),
        )
    }

    pub open spec fn bucket_caches(self) -> Seq<Seq<NodeID>> {
        self.buckets.map_values(|b: BucketView| ids_of(b.cache)).push(
            ids_of(self.root_bucket.cache),
        )
    }
}

// Lemmas on the routing table.

proof fn lemma_sum_sizes_update(bs: Seq<BucketView>, i: int, b: BucketView)
    requires
        0 <= i < bs.len(),
    ensures
        sum_sizes(bs.update(i, b)) + bs[i].size() == sum_sizes(bs) + b.size(),
        bs[i].size() <= sum_sizes(bs),
    decreases bs.len(),
{
    let p = bs.drop_last();
    if i < bs.len() - 1 {
        lemma_sum_sizes_update(p, i, b);
        assert(bs.update(i, b).drop_last() =~= p.update(i, b));
    } else {
        assert(bs.update(i, b).drop_last() =~= p);
    }
}

proof fn lemma_sum_sizes_push(bs: Seq<BucketView>, b: BucketView)
    ensures
        sum_sizes(bs.push(b)) == sum_sizes(bs) + b.size(),
{
    assert(bs.push(b).drop_last() =~= bs);
}

proof fn lemma_with_bucket_wf(v: KademliaView, i: int, b: BucketView)
    requires
        v.wf(),
        0 <= i < v.buckets.len(),
        b.wf(v.root, i, i),
        !b.is_root,
        b.config == v.config,
        b.size() <= v.buckets[i].size(),
    ensures
        v.with_bucket(i, b).wf(),
        v.with_bucket(i, b).total() <= v.total(),
{
    lemma_sum_sizes_update(v.buckets, i, b);
    let w = v.with_bucket(i, b);
    assert forall|j: int| 0 <= j < w.buckets.len() implies {
        &&& (#[trigger] w.buckets[j]).wf(w.root, j, j)
        &&& !w.buckets[j].is_root
        &&& w.buckets[j].config == w.config
    } by {
        if j != i {
            assert(w.buckets[j] == v.buckets[j]);
        }
    }
}

impl KademliaView {
    /// One split of the root bucket: the nodes at the depth of the next bucket move
    /// to a new bucket.
    pub open spec fn overflow_step(self) -> KademliaView {
        let (r, ta, tc) = self.root_bucket.remove_all_nodes_at_depth(self.buckets.len() as int);
        let b = empty_bucket(self.config).add_nodes_active(ta).add_nodes(tc);
        KademliaView { buckets: self.buckets.push(b), root_bucket: r, ..self }
    }

    /// One merge of the deepest bucket into the root bucket.
    pub open spec fn wanting_step(self) -> KademliaView {
        let b = self.buckets.last();
        let r = self.root_bucket.add_nodes_active(b.active).add_nodes(b.cache);
        KademliaView { buckets: self.buckets.drop_last(), root_bucket: r, ..self }
    }
}

proof fn lemma_overflow_step(v: KademliaView)
    requires
        v.wf(),
        v.root_bucket.status() == BucketStatus::Overflowing,
    ensures
        v.buckets.len() < 256,
        v.overflow_step().wf(),
        v.overflow_step().total() <= v.total(),
        v.overflow_step().root == v.root,
        v.overflow_step().config == v.config,
        v.overflow_step().buckets.len() == v.buckets.len() + 1,
        v.rebalance_overflow() == v.overflow_step().rebalance_overflow(),
{
    let len = v.buckets.len() as int;
    let rb = v.root_bucket;
    assert(rb.size() >= 2);
    if rb.active.len() > 0 {
        assert(rb.active[0].ok(v.root));
    } else {
        assert(rb.cache[0].ok(v.root));
    }
    assert(len < 256);
    let (r, ta, tc) = rb.remove_all_nodes_at_depth(len);
    lemma_remove_all_wf(rb, len, v.root, len, 255);
    lemma_remove_all_overflowing(rb, v.root, len);
    let e = empty_bucket(v.config);
    lemma_add_nodes_active_wf(e, ta, v.root, len, len);
    let e1 = e.add_nodes_active(ta);
    lemma_add_nodes_wf(e1, tc, v.root, len, len);
    let b = e1.add_nodes(tc);
    let w = v.overflow_step();
    lemma_sum_sizes_push(v.buckets, b);
    assert forall|i: int| 0 <= i < w.buckets.len() implies {
        &&& (#[trigger] w.buckets[i]).wf(w.root, i, i)
        &&& !w.buckets[i].is_root
        &&& w.buckets[i].config == w.config
    } by {
        if i < len {
            assert(w.buckets[i] == v.buckets[i]);
        }
    }
}

proof fn lemma_rebalance_overflow_wf(v: KademliaView)
    requires
        v.wf(),
    ensures
        v.rebalance_overflow().wf(),
        v.rebalance_overflow().total() <= v.total(),
        v.rebalance_overflow().root == v.root,
        v.rebalance_overflow().config == v.config,
        v.rebalance_overflow().root_bucket.status() != BucketStatus::Overflowing,
    decreases 256 - v.buckets.len(),
{
    if v.root_bucket.status() == BucketStatus::Overflowing {
        lemma_overflow_step(v);
        lemma_rebalance_overflow_wf(v.overflow_step());
    }
}

proof fn lemma_wanting_step(v: KademliaView)
    requires
        v.wf(),
        v.buckets.len() > 0,
    ensures
        v.wanting_step().wf(),
        v.wanting_step().total() <= v.total(),
        v.wanting_step().root == v.root,
        v.wanting_step().config == v.config,
        v.root_bucket.status() == BucketStatus::Wanting ==> v.rebalance_wanting()
            == v.wanting_step().rebalance_wanting(),
{
    let len = v.buckets.len() as int;
    let b = v.buckets.last();
    assert(b.wf(v.root, len - 1, len - 1));
    lemma_range_widen(b.active, v.root, len - 1, len - 1, len - 1, 255);
    lemma_range_widen(b.cache, v.root, len - 1, len - 1, len - 1, 255);
    lemma_wf_widen(v.root_bucket, v.root, len, 255, len - 1);
    lemma_add_nodes_active_wf(v.root_bucket, b.active, v.root, len - 1, 255);
    let r1 = v.root_bucket.add_nodes_active(b.active);
    lemma_add_nodes_wf(r1, b.cache, v.root, len - 1, 255);
    let w = v.wanting_step();
    assert(v.buckets =~= v.buckets.drop_last().push(b));
    lemma_sum_sizes_push(v.buckets.drop_last(), b);
    assert forall|i: int| 0 <= i < w.buckets.len() implies {
        &&& (#[trigger] w.buckets[i]).wf(w.root, i, i)
        &&& !w.buckets[i].is_root
        &&& w.buckets[i].config == w.config
    } by {
        assert(w.buckets[i] == v.buckets[i]);
    }
}

proof fn lemma_rebalance_wanting_wf(v: KademliaView)
    requires
        v.wf(),
    ensures
        v.rebalance_wanting().wf(),
        v.rebalance_wanting().total() <= v.total(),
        v.rebalance_wanting().root == v.root,
        v.rebalance_wanting().config == v.config,
    decreases v.buckets.len(),
{
    if v.root_bucket.status() == BucketStatus::Wanting && v.buckets.len() > 0 {
        lemma_wanting_step(v);
        lemma_rebalance_wanting_wf(v.wanting_step());
    }
}

proof fn lemma_add_node_wf_kad(v: KademliaView, id: NodeID)
    requires
        v.wf(),
        v.total() < usize::MAX,
    ensures
        v.add_node(id).wf(),
        v.add_node(id).total() <= v.total() + 1,
        v.add_node(id).root == v.root,
        v.add_node(id).config == v.config,
{
    if !(id == v.root || v.has_node(id)) {
        let n = new_knode(v.root, id);
        lemma_first_difference_spec(v.root, id, 0);
        if (n.depth as int) < v.buckets.len() {
            let d = n.depth as int;
            lemma_add_node_wf(v.buckets[d], n, v.root, d, d);
            lemma_sum_sizes_update(v.buckets, d, v.buckets[d].add_node(n));
            let w = v.with_bucket(d, v.buckets[d].add_node(n));
            assert forall|j: int| 0 <= j < w.buckets.len() implies {
                &&& (#[trigger] w.buckets[j]).wf(w.root, j, j)
                &&& !w.buckets[j].is_root
                &&& w.buckets[j].config == w.config
            } by {
                if j != d {
                    assert(w.buckets[j] == v.buckets[j]);
                }
            }
        } else {
            lemma_add_node_wf(v.root_bucket, n, v.root, v.buckets.len() as int, 255);
            let r = v.root_bucket.add_node(n);
            if r.status() == BucketStatus::Overflowing {
                lemma_rebalance_overflow_wf(v.with_root(r));
            }
        }
    }
}

proof fn lemma_add_node_active_wf_kad(v: KademliaView, id: NodeID)
    requires
        v.wf(),
        v.total() < usize::MAX,
    ensures
        v.add_node_active(id).wf(),
        v.add_node_active(id).total() <= v.total() + 1,
        v.add_node_active(id).root == v.root,
        v.add_node_active(id).config == v.config,
{
    let n = new_knode(v.root, id);
    lemma_first_difference_spec(v.root, id, 0);
    if (n.depth as int) < v.buckets.len() {
        let d = n.depth as int;
        lemma_add_node_active_wf(v.buckets[d], n, v.root, d, d);
        lemma_sum_sizes_update(v.buckets, d, v.buckets[d].add_node_active(n));
        let w = v.with_bucket(d, v.buckets[d].add_node_active(n));
        assert forall|j: int| 0 <= j < w.buckets.len() implies {
            &&& (#[trigger] w.buckets[j]).wf(w.root, j, j)
            &&& !w.buckets[j].is_root
            &&& w.buckets[j].config == w.config
        } by {
            if j != d {
                assert(w.buckets[j] == v.buckets[j]);
            }
        }
    } else {
        lemma_add_node_active_wf(v.root_bucket, n, v.root, v.buckets.len() as int, 255);
        let r = v.root_bucket.add_node_active(n);
        if r.status() == BucketStatus::Overflowing {
            lemma_rebalance_overflow_wf(v.with_root(r));
        }
    }
}

proof fn lemma_remove_node_wf_kad(v: KademliaView, id: NodeID)
    requires
        v.wf(),
    ensures
        v.remove_node(id).wf(),
        v.remove_node(id).total() <= v.total(),
        v.node_disconnected(id).wf(),
        v.node_disconnected(id).total() <= v.total(),
{
    let d = depth_of(v.root, id);
    lemma_first_difference_spec(v.root, id, 0);
    if d < v.buckets.len() {
        lemma_remove_node_wf(v.buckets[d], id, v.root, d, d);
        lemma_with_bucket_wf(v, d, v.buckets[d].remove_node(id));
        let w = v.with_bucket(d, v.buckets[d].remove_node(id));
        if w.root_bucket.status() == BucketStatus::Wanting {
            lemma_rebalance_wanting_wf(w);
        }
    } else {
        lemma_remove_node_wf(v.root_bucket, id, v.root, v.buckets.len() as int, 255);
        let r = v.root_bucket.remove_node(id);
        if r.status() == BucketStatus::Wanting {
            lemma_rebalance_wanting_wf(v.with_root(r));
        }
    }
}

proof fn lemma_node_active_wf_kad(v: KademliaView, id: NodeID)
    requires
        v.wf(),
    ensures
        v.node_active(id).0.wf(),
        v.node_active(id).0.total() == v.total(),
{
    let d = depth_of(v.root, id);
    lemma_first_difference_spec(v.root, id, 0);
    if d < v.buckets.len() {
        lemma_node_active_wf(v.buckets[d], id, v.root, d, d);
        lemma_with_bucket_wf(v, d, v.buckets[d].node_active(id).0);
        lemma_sum_sizes_update(v.buckets, d, v.buckets[d].node_active(id).0);
    } else {
        lemma_node_active_wf(v.root_bucket, id, v.root, v.buckets.len() as int, 255);
    }
}

proof fn lemma_tick_buckets(bs: Seq<BucketView>, root: NodeID, config: Config)
    requires
        forall|i: int|
            0 <= i < bs.len() ==> {
                &&& (#[trigger] bs[i]).wf(root, i, i)
                &&& !bs[i].is_root
                &&& bs[i].config == config
                &&& bs[i].tickable()
            },
    ensures
        tick_buckets(bs).0.len() == bs.len(),
        forall|i: int|
            0 <= i < bs.len() ==> {
                &&& (#[trigger] tick_buckets(bs).0[i]).wf(root, i, i)
                &&& !tick_buckets(bs).0[i].is_root
                &&& tick_buckets(bs).0[i].config == config
                &&& tick_buckets(bs).0[i] == bs[i].tick().0
            },
        sum_sizes(tick_buckets(bs).0) <= sum_sizes(bs),
    decreases bs.len(),
{
    if bs.len() > 0 {
        let p = bs.drop_last();
        lemma_tick_buckets(p, root, config);
        let l = bs.len() - 1;
        lemma_tick_wf(bs[l], root, l, l);
        let (b2, d, pp) = tick_buckets(p);
        lemma_sum_sizes_push(b2, bs.last().tick().0);
        assert forall|i: int| 0 <= i < bs.len() implies {
            &&& (#[trigger] tick_buckets(bs).0[i]).wf(root, i, i)
            &&& !tick_buckets(bs).0[i].is_root
            &&& tick_buckets(bs).0[i].config == config
            &&& tick_buckets(bs).0[i] == bs[i].tick().0
        } by {
            if i < l {
                assert(tick_buckets(bs).0[i] == b2[i]);
                assert(p[i] == bs[i]);
            }
        }
    }
}

proof fn lemma_tick_wf_kad(v: KademliaView)
    requires
        v.wf(),
        v.tickable(),
    ensures
        v.tick().0.wf(),
        v.tick().0.total() <= v.total(),
{
    lemma_tick_buckets(v.buckets, v.root, v.config);
    lemma_tick_wf(v.root_bucket, v.root, v.buckets.len() as int, 255);
}

/// A Kademlia routing table for the node `root`.
#[derive(Debug, Clone)]
pub struct Kademlia {
    // All buckets starting with a distance of 0..depth-1 0s followed by at least
    // one 1.
    buckets: Vec<KBucket>,
    // The home of the root bucket.
    root_bucket: KBucket,
    // The root node of this Kademlia instance
    pub root: NodeID,
    // Configuration for the buckets
    config: Config,
}

impl View for Kademlia {
    type V = KademliaView;

    closed spec fn view(&self) -> KademliaView {
        KademliaView {
            buckets: self.buckets@.map_values(|b: KBucket| b@),
            root_bucket: self.root_bucket@,
            root: self.root,
            config: self.config,
        }
    }
}

impl Kademlia {
    pub fn new(root: NodeID, config: Config) -> (r: Kademlia)
        requires
            config.valid(),
        ensures
            r@ == (KademliaView {
                buckets: Seq::empty(),
                root_bucket: BucketView {
                    active: Seq::empty(),
                    cache: Seq::empty(),
                    config,
                    is_root: true,
                },
                root,
                config,
            }),
            r@.wf(),
    {
        let r = Kademlia { buckets: Vec::new(), root_bucket: KBucket::new_root(config), root, config };
        proof {
            assert(r@.buckets =~= Seq::<BucketView>::empty());
        }
        r
    }

    pub fn add_node(&mut self, id: NodeID)
        requires
            old(self)@.wf(),
            old(self)@.total() < usize::MAX,
        ensures
            final(self)@ == old(self)@.add_node(id),
            final(self)@.wf(),
    {
        proof {
            lemma_add_node_wf_kad(self@, id);
        }
        if id.same(&self.root) || self.has_node_id(&id) {
            return;
        }
        let node = KNode::new(&self.root, id);
        if node.depth < self.buckets.len() {
            let ghost old_v = self@;
            self.buckets[node.depth].add_node(node);
            proof {
                assert(self@.buckets =~= old_v.buckets.update(
                    node.depth as int,
                    old_v.buckets[node.depth as int].add_node(node),
                ));
            }
        } else {
            self.root_bucket.add_node(node);
            proof {
                lemma_add_node_wf(old(self)@.root_bucket, node, self.root, self.buckets.len() as int, 255);
            }
            if self.root_bucket.status() == BucketStatus::Overflowing {
                self.rebalance_overflow();
            }
        }
    }

    pub fn add_nodes(&mut self, ids: Vec<NodeID>)
        requires
            old(self)@.wf(),
            old(self)@.total() + ids.len() <= usize::MAX,
        ensures
            final(self)@ == old(self)@.add_nodes(ids@),
            final(self)@.wf(),
    {
        let mut i: usize = 0;
        while i < ids.len()
            invariant
                0 <= i <= ids.len(),
                self@ == old(self)@.add_nodes(ids@.take(i as int)),
                self@.wf(),
                self@.total() <= old(self)@.total() + i,
                old(self)@.total() + ids.len() <= usize::MAX,
            decreases ids.len() - i,
        {
            proof {
                lemma_prefix_step(ids@, i as int);
                lemma_add_node_wf_kad(self@, ids@[i as int]);
            }
            self.add_node(ids[i]);
            i = i + 1;
        }
        proof {
            assert(ids@.take(ids.len() as int) =~= ids@);
        }
    }

    /// Adds the nodes as if they had just been seen.
    pub fn add_nodes_active(&mut self, ids: Vec<NodeID>)
        requires
            old(self)@.wf(),
            old(self)@.total() + ids.len() <= usize::MAX,
        ensures
            final(self)@ == old(self)@.add_nodes_active(ids@),
            final(self)@.wf(),
    {
        let mut i: usize = 0;
        while i < ids.len()
            invariant
                0 <= i <= ids.len(),
                self@ == old(self)@.add_nodes_active(ids@.take(i as int)),
                self@.wf(),
                self@.total() <= old(self)@.total() + i,
                old(self)@.total() + ids.len() <= usize::MAX,
            decreases ids.len() - i,
        {
            proof {
                lemma_prefix_step(ids@, i as int);
                lemma_add_node_active_wf_kad(self@, ids@[i as int]);
            }
            let node = KNode::new(&self.root, ids[i]);
            if node.depth < self.buckets.len() {
                let ghost old_v = self@;
                self.buckets[node.depth].add_node_active(node);
                proof {
                    assert(self@.buckets =~= old_v.buckets.update(
                        node.depth as int,
                        old_v.buckets[node.depth as int].add_node_active(node),
                    ));
                }
            } else {
                let ghost old_v = self@;
                self.root_bucket.add_node_active(node);
                proof {
                    lemma_add_node_active_wf(old_v.root_bucket, node, self.root, self.buckets.len() as int, 255);
                }
                if self.root_bucket.status() == BucketStatus::Overflowing {
                    self.rebalance_overflow();
                }
            }
            i = i + 1;
        }
        proof {
            assert(ids@.take(ids.len() as int) =~= ids@);
        }
    }

    pub fn node_disconnected(&mut self, id: NodeID)
        requires
            old(self)@.wf(),
        ensures
            final(self)@ == old(self)@.node_disconnected(id),
            final(self)@.wf(),
    {
        proof {
            lemma_remove_node_wf_kad(self@, id);
        }
        let node = KNode::new(&self.root, id);
        if node.depth < self.buckets.len() {
            let ghost old_v = self@;
            self.buckets[node.depth].remove_node(&node.id);
            proof {
                assert(self@.buckets =~= old_v.buckets.update(
                    node.depth as int,
                    old_v.buckets[node.depth as int].remove_node(id),
                ));
                lemma_remove_node_wf(old_v.buckets[node.depth as int], id, self.root, node.depth as int, node.depth as int);
                lemma_with_bucket_wf(old_v, node.depth as int, old_v.buckets[node.depth as int].remove_node(id));
            }
            if self.root_bucket.status() == BucketStatus::Wanting {
                self.rebalance_wanting();
            }
        }
    }

    pub fn remove_node(&mut self, id: &NodeID)
        requires
            old(self)@.wf(),
        ensures
            final(self)@ == old(self)@.remove_node(*id),
            final(self)@.wf(),
    {
        proof {
            lemma_remove_node_wf_kad(self@, *id);
        }
        let node = KNode::new(&self.root, *id);
        if node.depth < self.buckets.len() {
            let ghost old_v = self@;
            self.buckets[node.depth].remove_node(id);
            proof {
                assert(self@.buckets =~= old_v.buckets.update(
                    node.depth as int,
                    old_v.buckets[node.depth as int].remove_node(*id),
                ));
            }
        } else {
            let ghost old_v = self@;
            self.root_bucket.remove_node(id);
            proof {
                lemma_remove_node_wf(old_v.root_bucket, *id, self.root, self.buckets.len() as int, 255);
            }
            if self.root_bucket.status() == BucketStatus::Wanting {
                self.rebalance_wanting();
            }
        }
    }

    /// Returns the next hop to get the message as close to the destination as possible.
    /// If a needed bucket is empty, the closest nodes on the 'wrong' branch will be returned.
    pub fn route_closest(&self, dst: &NodeID, last: Option<&NodeID>) -> (r: Vec<NodeID>)
        requires
            self@.wf(),
        ensures
            r@ == self@.route_closest(
                *dst,
                match last {
                    Some(l) => Some(*l),
                    None => None,
                },
            ),
    {
        let depth = KNode::get_depth(&self.root, *dst);
        match last {
            Some(l) => {
                let dl = KNode::get_depth(&self.root, *l);
                let depth_last = if dl > depth {
                    dl
                } else {
                    depth
                };
                let depth_root_last = match self.root_bucket.last_depth() {
                    Some(d) => d,
                    None => depth_last,
                };
                let ret = self.get_nodes_depth(depth);
                if ret.len() > 0 {
                    return ret;
                }
                let mut d = depth_last + 1;
                assert(self@.route_closest(*dst, Some(*l)) == self@.scan_depths(
                    d as int,
                    depth_root_last as int,
                ));
                while d < depth_root_last
                    invariant
                        self@.route_closest(*dst, Some(*l)) == self@.scan_depths(
                            d as int,
                            depth_root_last as int,
                        ),
                        (match last {
                            Some(x) => Some(*x),
                            None => None,
                        }) == Some(*l),
                        self@.wf(),
                    decreases depth_root_last - d,
                {
                    let ret = self.get_nodes_depth(d);
                    if ret.len() > 0 {
                        return ret;
                    }
                    d = d + 1;
                }
                Vec::new()
            },
            None => self.get_nodes_depth(depth),
        }
    }

    /// Returns the next hop to get the message to the exact destination as possible.
    /// If a needed bucket is empty, an empty vector is returned, and the routing will fail.
    pub fn route_direct(&self, dst: &NodeID) -> (r: Vec<NodeID>)
        requires
            self@.wf(),
        ensures
            r@ == self@.nodes_depth(depth_of(self@.root, *dst)),
    {
        let depth = KNode::get_depth(&self.root, *dst);
        self.get_nodes_depth(depth)
    }

    /// Returns all nodes at a given depth.
    pub fn get_nodes_depth(&self, depth: usize) -> (r: Vec<NodeID>)
        requires
            self@.wf(),
        ensures
            r@ == self@.nodes_depth(depth as int),
    {
        if depth < self.buckets.len() {
            self.buckets[depth].get_active_ids(depth)
        } else {
            self.root_bucket.get_active_ids(depth)
        }
    }

    /// Returns all the active nodes of the kademlia system.
    pub fn active_nodes(&self) -> (r: Vec<NodeID>)
        ensures
            r@ == self@.active_nodes(),
    {
        let mut r: Vec<NodeID> = Vec::new();
        let mut i: usize = 0;
        while i < self.buckets.len()
            invariant
                0 <= i <= self.buckets.len(),
                r@ == active_ids(self@.buckets.take(i as int)),
            decreases self.buckets.len() - i,
        {
            proof {
                lemma_prefix_step(self@.buckets, i as int);
            }
            let ids = ids_exec(&self.buckets[i].active);
            push_ids(&mut r, &ids);
            i = i + 1;
        }
        proof {
            assert(self@.buckets.take(self.buckets.len() as int) =~= self@.buckets);
        }
        let ids = ids_exec(&self.root_bucket.active);
        push_ids(&mut r, &ids);
        r
    }

    /// Returns the active nodes of each bucket, the root bucket last.
    pub fn bucket_nodes(&self) -> (r: Vec<Vec<NodeID>>)
        ensures
            r@.len() == self@.bucket_nodes().len(),
            forall|i: int| 0 <= i < r@.len() ==> (#[trigger] r@[i])@ == self@.bucket_nodes()[i],
    {
        let mut r: Vec<Vec<NodeID>> = Vec::new();
        let mut i: usize = 0;
        while i < self.buckets.len()
            invariant
                0 <= i <= self.buckets.len(),
                r@.len() == i,
                forall|j: int| 0 <= j < i ==> (#[trigger] r@[j])@ == ids_of(self@.buckets[j].active),
            decreases self.buckets.len() - i,
        {
            r.push(ids_exec(&self.buckets[i].active));
            i = i + 1;
        }
        r.push(ids_exec(&self.root_bucket.active));
        r
    }

    /// The nodes waiting to be activated, bucket by bucket, the root bucket last.
    pub fn bucket_caches(&self) -> (r: Vec<Vec<NodeID>>)
        ensures
            r@.len() == self@.bucket_caches().len(),
            forall|i: int| 0 <= i < r@.len() ==> (#[trigger] r@[i])@ == self@.bucket_caches()[i],
    {
        let mut r: Vec<Vec<NodeID>> = Vec::new();
        let mut i: usize = 0;
        while i < self.buckets.len()
            invariant
                0 <= i <= self.buckets.len(),
                r@.len() == i,
                forall|j: int| 0 <= j < i ==> (#[trigger] r@[j])@ == ids_of(self@.buckets[j].cache),
            decreases self.buckets.len() - i,
        {
            r.push(ids_exec(&self.buckets[i].cache));
            i = i + 1;
        }
        r.push(ids_exec(&self.root_bucket.cache));
        r
    }

    /// Returns all the nodes waiting to be activated of the kademlia system.
    pub fn cache_nodes(&self) -> (r: Vec<NodeID>)
        ensures
            r@ == self@.cache_nodes(),
    {
        let mut r: Vec<NodeID> = Vec::new();
        let mut i: usize = 0;
        while i < self.buckets.len()
            invariant
                0 <= i <= self.buckets.len(),
                r@ == cache_ids(self@.buckets.take(i as int)),
            decreases self.buckets.len() - i,
        {
            proof {
                lemma_prefix_step(self@.buckets, i as int);
            }
            let ids = ids_exec(&self.buckets[i].cache);
            push_ids(&mut r, &ids);
            i = i + 1;
        }
        proof {
            assert(self@.buckets.take(self.buckets.len() as int) =~= self@.buckets);
        }
        let ids = ids_exec(&self.root_bucket.cache);
        push_ids(&mut r, &ids);
        r
    }

    /// The system received a message from this node, so its considered
    /// active.
    pub fn node_active(&mut self, id: &NodeID) -> (r: bool)
        requires
            old(self)@.wf(),
        ensures
            (final(self)@, r) == old(self)@.node_active(*id),
            final(self)@.wf(),
    {
        proof {
            lemma_node_active_wf_kad(self@, *id);
        }
        let depth = KNode::get_depth(&self.root, *id);
        if depth < self.buckets.len() {
            let ghost old_v = self@;
            let r = self.buckets[depth].node_active(id);
            proof {
                assert(self@.buckets =~= old_v.buckets.update(
                    depth as int,
                    old_v.buckets[depth as int].node_active(*id).0,
                ));
            }
            r
        } else {
            self.root_bucket.node_active(id)
        }
    }

    /// Advances the clock by one tick and returns the nodes which were removed,
    /// and the nodes which need to be pinged.
    pub fn tick(&mut self) -> (r: TickIDs)
        requires
            old(self)@.wf(),
            old(self)@.tickable(),
        ensures
            (final(self)@, r.deleted@, r.ping@) == old(self)@.tick(),
            final(self)@.wf(),
    {
        proof {
            lemma_tick_wf_kad(self@);
            lemma_tick_buckets(self@.buckets, self.root, self.config);
        }
        let mut ping_ids = TickIDs::new();
        let ghost old_bs = self@.buckets;
        let mut i: usize = 0;
        while i < self.buckets.len()
            invariant
                0 <= i <= self.buckets.len(),
                self.buckets@.len() == old_bs.len(),
                old_bs == old(self)@.buckets,
                old(self)@.wf(),
                old(self)@.tickable(),
                forall|j: int| 0 <= j < i ==> (#[trigger] self@.buckets[j]) == old_bs[j].tick().0,
                forall|j: int| i <= j < old_bs.len() ==> (#[trigger] self@.buckets[j]) == old_bs[j],
                tick_buckets(old_bs.take(i as int)).1 == ping_ids.deleted@,
                tick_buckets(old_bs.take(i as int)).2 == ping_ids.ping@,
                tick_buckets(old_bs.take(i as int)).0 == self@.buckets.take(i as int),
                self.root_bucket == old(self).root_bucket,
                self.root == old(self).root,
                self.config == old(self).config,
            decreases self.buckets.len() - i,
        {
            proof {
                lemma_prefix_step(old_bs, i as int);
                assert(old_bs[i as int].wf(self.root, i as int, i as int));
                assert(old_bs[i as int].tickable());
                assert(self.buckets@[i as int]@ == self@.buckets[i as int]);
            }
            let ghost before = self@.buckets;
            let t = self.buckets[i].tick();
            proof {
                assert(self@.buckets =~= before.update(i as int, old_bs[i as int].tick().0));
                assert(self@.buckets.take(i + 1) =~= before.take(i as int).push(
                    old_bs[i as int].tick().0,
                ));
            }
            ping_ids.extend(t);
            i = i + 1;
        }
        proof {
            assert(old_bs.take(old_bs.len() as int) =~= old_bs);
            assert(self@.buckets.take(old_bs.len() as int) =~= self@.buckets);
        }
        let t = self.root_bucket.tick();
        ping_ids.extend(t);
        ping_ids
    }

    // The root bucket overflows - split it until it has between k and 2k
    // nodes.
    fn rebalance_overflow(&mut self)
        requires
            old(self)@.wf(),
        ensures
            final(self)@ == old(self)@.rebalance_overflow(),
            final(self)@.wf(),
    {
        proof {
            lemma_rebalance_overflow_wf(self@);
        }
        while self.root_bucket.status() == BucketStatus::Overflowing
            invariant
                self@.wf(),
                self@.rebalance_overflow() == old(self)@.rebalance_overflow(),
            decreases 256 - self.buckets.len(),
        {
            proof {
                lemma_overflow_step(self@);
            }
            let ghost v = self@;
            let mut bucket = KBucket::new(self.config);
            let (active, cache) = self.root_bucket.remove_all_nodes_at_depth(self.buckets.len());
            bucket.add_nodes_active(active);
            bucket.add_nodes(cache);
            self.buckets.push(bucket);
            proof {
                assert(self@.buckets =~= v.overflow_step().buckets);
                assert(self@ == v.overflow_step());
            }
        }
    }

    // The root bucket is wanting - merge with non-empty upper buckets until
    // it's safe again.
    fn rebalance_wanting(&mut self)
        requires
            old(self)@.wf(),
        ensures
            final(self)@ == old(self)@.rebalance_wanting(),
            final(self)@.wf(),
    {
        proof {
            lemma_rebalance_wanting_wf(self@);
        }
        while self.root_bucket.status() == BucketStatus::Wanting
            invariant
                self@.wf(),
                self@.rebalance_wanting() == old(self)@.rebalance_wanting(),
            decreases self.buckets.len(),
        {
            let ghost v = self@;
            if let Some(bucket) = self.buckets.pop() {
                proof {
                    lemma_wanting_step(v);
                    assert(bucket@ == v.buckets.last());
                }
                self.root_bucket.add_nodes_active(bucket.active);
                self.root_bucket.add_nodes(bucket.cache);
                proof {
                    assert(self@.buckets =~= v.wanting_step().buckets);
                    assert(self@ == v.wanting_step());
                }
            } else {
                return;
            }
        }
    }

    fn has_node_id(&self, id: &NodeID) -> (r: bool)
        ensures
            r == self@.has_node(*id),
    {
        let mut i: usize = 0;
        while i < self.buckets.len()
            invariant
                0 <= i <= self.buckets.len(),
                forall|j: int|
                    0 <= j < i ==> !(has_id((#[trigger] self@.buckets[j]).active, *id) || has_id(
                        self@.buckets[j].cache,
                        *id,
                    )),
            decreases self.buckets.len() - i,
        {
            if self.buckets[i].has_node_id(id) {
                proof {
                    assert(has_id(self@.buckets[i as int].active, *id) || has_id(self@.buckets[i as int].cache, *id));
                }
                return true;
            }
            i = i + 1;
        }
        self.root_bucket.has_node_id(id)
    }
}


// ---------------------------------------------------------------------------
// Which identifiers a table holds
// ---------------------------------------------------------------------------

/// The bucket holds a node with identifier `x`, active or cached.
pub open spec fn bucket_has(b: BucketView, x: NodeID) -> bool {
    has_id(b.active, x) || has_id(b.cache, x)
}

proof fn lemma_has_id_subset(s1: Seq<KNode>, s2: Seq<KNode>, x: NodeID)
    requires
        forall|n: KNode| #[trigger] s2.contains(n) ==> s1.contains(n),
        has_id(s2, x),
    ensures
        has_id(s1, x),
{
    let i = choose|i: int| 0 <= i < s2.len() && (#[trigger] s2[i]).id == x;
    assert(s2.contains(s2[i]));
    let j = choose|j: int| 0 <= j < s1.len() && s1[j] == s2[i];
    assert(s1[j].id == x);
}

proof fn lemma_has_id_push(s: Seq<KNode>, n: KNode, x: NodeID)
    ensures
        has_id(s.push(n), x) == (has_id(s, x) || n.id == x),
{
    if has_id(s, x) {
        let i = choose|i: int| 0 <= i < s.len() && (#[trigger] s[i]).id == x;
        assert(s.push(n)[i] == s[i]);
    }
    if n.id == x {
        assert(s.push(n)[s.len() as int] == n);
    }
    if has_id(s.push(n), x) {
        let i = choose|i: int| 0 <= i < s.push(n).len() && (#[trigger] s.push(n)[i]).id == x;
        if i < s.len() {
            assert(s[i] == s.push(n)[i]);
        }
    }
}

proof fn lemma_has_id_insert_sorted(s: Seq<KNode>, n: KNode, x: NodeID)
    ensures
        has_id(insert_sorted(s, n), x) == (has_id(s, x) || n.id == x),
{
    lemma_count_le_bounds(s, n.depth as int);
    let c = count_le(s, n.depth as int) as int;
    let r = insert_sorted(s, n);
    if has_id(r, x) {
        let i = choose|i: int| 0 <= i < r.len() && (#[trigger] r[i]).id == x;
        if i < c {
            assert(s[i] == r[i]);
        } else if i > c {
            assert(s[i - 1] == r[i]);
        }
    }
    if has_id(s, x) {
        let i = choose|i: int| 0 <= i < s.len() && (#[trigger] s[i]).id == x;
        if i < c {
            assert(r[i] == s[i]);
        } else {
            assert(r[i + 1] == s[i]);
        }
    }
    if n.id == x {
        assert(r[c] == n);
    }
}

proof fn lemma_bucket_add_node_has(b: BucketView, n: KNode, x: NodeID)
    ensures
        bucket_has(b.add_node(n), x) ==> bucket_has(b, x) || n.id == x,
        bucket_has(b, x) ==> bucket_has(b.add_node(n), x),
        b.is_root ==> (bucket_has(b.add_node(n), x) == (bucket_has(b, x) || n.id == x)),
{
    lemma_has_id_push(b.cache, n, x);
}

proof fn lemma_bucket_add_node_active_has(b: BucketView, n: KNode, x: NodeID)
    ensures
        bucket_has(b.add_node_active(n), x) ==> bucket_has(b, x) || n.id == x,
        bucket_has(b, x) ==> bucket_has(b.add_node_active(n), x),
        b.is_root ==> (bucket_has(b.add_node_active(n), x) == (bucket_has(b, x) || n.id == x)),
{
    lemma_has_id_push(b.cache, n, x);
    lemma_has_id_insert_sorted(b.active, n, x);
}

proof fn lemma_bucket_add_nodes_has(b: BucketView, ns: Seq<KNode>, x: NodeID)
    ensures
        bucket_has(b.add_nodes(ns), x) ==> bucket_has(b, x) || has_id(ns, x),
        bucket_has(b, x) ==> bucket_has(b.add_nodes(ns), x),
        b.is_root ==> (bucket_has(b.add_nodes(ns), x) == (bucket_has(b, x) || has_id(ns, x))),
        b.add_nodes(ns).is_root == b.is_root,
    decreases ns.len(),
{
    if ns.len() > 0 {
        let p = ns.drop_last();
        lemma_bucket_add_nodes_has(b, p, x);
        lemma_bucket_add_node_has(b.add_nodes(p), ns.last(), x);
        assert(ns =~= p.push(ns.last()));
        lemma_has_id_push(p, ns.last(), x);
    }
}

proof fn lemma_bucket_add_nodes_active_has(b: BucketView, ns: Seq<KNode>, x: NodeID)
    ensures
        bucket_has(b.add_nodes_active(ns), x) ==> bucket_has(b, x) || has_id(ns, x),
        bucket_has(b, x) ==> bucket_has(b.add_nodes_active(ns), x),
        b.is_root ==> (bucket_has(b.add_nodes_active(ns), x) == (bucket_has(b, x) || has_id(ns, x))),
        b.add_nodes_active(ns).is_root == b.is_root,
    decreases ns.len(),
{
    if ns.len() > 0 {
        let p = ns.drop_last();
        lemma_bucket_add_nodes_active_has(b, p, x);
        lemma_bucket_add_node_active_has(b.add_nodes_active(p), ns.last(), x);
        assert(ns =~= p.push(ns.last()));
        lemma_has_id_push(p, ns.last(), x);
    }
}

proof fn lemma_bucket_remove_node_has(b: BucketView, id: NodeID, x: NodeID)
    ensures
        bucket_has(b.remove_node(id), x) == (bucket_has(b, x) && x != id),
{
    lemma_without_id(b.active, id);
    lemma_without_id(b.cache, id);
    if bucket_has(b.remove_node(id), x) {
        if has_id(without_id(b.active, id), x) {
            lemma_has_id_subset(b.active, without_id(b.active, id), x);
            let i = choose|i: int|
                0 <= i < without_id(b.active, id).len() && (#[trigger] without_id(b.active, id)[i]).id
                    == x;
            assert(without_id(b.active, id).contains(without_id(b.active, id)[i]));
        } else {
            lemma_has_id_subset(b.cache, without_id(b.cache, id), x);
            let i = choose|i: int|
                0 <= i < without_id(b.cache, id).len() && (#[trigger] without_id(b.cache, id)[i]).id
                    == x;
            assert(without_id(b.cache, id).contains(without_id(b.cache, id)[i]));
        }
    }
    if bucket_has(b, x) && x != id {
        lemma_without_id_keeps(b.active, id, x);
        lemma_without_id_keeps(b.cache, id, x);
    }
}

proof fn lemma_without_id_keeps(s: Seq<KNode>, id: NodeID, x: NodeID)
    requires
        x != id,
    ensures
        has_id(s, x) ==> has_id(without_id(s, id), x),
    decreases s.len(),
{
    if s.len() > 0 {
        let p = s.drop_last();
        lemma_without_id_keeps(p, id, x);
        if has_id(s, x) {
            let i = choose|i: int| 0 <= i < s.len() && (#[trigger] s[i]).id == x;
            if i < p.len() {
                assert(p[i] == s[i]);
                if s.last().id != id {
                    lemma_has_id_push(without_id(p, id), s.last(), x);
                }
            } else {
                lemma_has_id_push(without_id(p, id), s.last(), x);
            }
        }
    }
}

proof fn lemma_bucket_remove_ids_has(b: BucketView, ids: Seq<NodeID>, x: NodeID)
    ensures
        bucket_has(b.remove_ids(ids), x) == (bucket_has(b, x) && !ids.contains(x)),
    decreases ids.len(),
{
    if ids.len() > 0 {
        let p = ids.drop_last();
        lemma_bucket_remove_ids_has(b, p, x);
        lemma_bucket_remove_node_has(b.remove_ids(p), ids.last(), x);
        assert(ids =~= p.push(ids.last()));
        if p.contains(x) {
            let i = choose|i: int| 0 <= i < p.len() && p[i] == x;
            assert(ids[i] == x);
        }
        if ids.contains(x) && !p.contains(x) {
            let i = choose|i: int| 0 <= i < ids.len() && ids[i] == x;
            if i < p.len() {
                assert(p[i] == x);
            }
        }
    }
}

proof fn lemma_bucket_remove_all_has(b: BucketView, d: int, x: NodeID)
    ensures
        bucket_has(b.remove_all_nodes_at_depth(d).0, x) || has_id(b.remove_all_nodes_at_depth(d).1, x)
            || has_id(b.remove_all_nodes_at_depth(d).2, x) ==> bucket_has(b, x),
{
    let sp = b.spare();
    lemma_split_depth(b.cache, d, sp);
    let (tc, rc) = split_depth(b.cache, d, sp);
    lemma_split_depth(b.active, d, (sp - tc.len()) as nat);
    let (ta, ra) = split_depth(b.active, d, (sp - tc.len()) as nat);
    if has_id(tc, x) {
        lemma_has_id_subset(b.cache, tc, x);
    }
    if has_id(rc, x) {
        lemma_has_id_subset(b.cache, rc, x);
    }
    if has_id(ta, x) {
        lemma_has_id_subset(b.active, ta, x);
    }
    if has_id(ra, x) {
        lemma_has_id_subset(b.active, ra, x);
    }
}

proof fn lemma_bucket_tick_has(b: BucketView, x: NodeID)
    requires
        !b.is_root ==> b.active.len() <= b.config.k,
    ensures
        bucket_has(b.tick().0, x) ==> bucket_has(b, x),
        bucket_has(b.tick().0, x) ==> !b.tick().1.contains(x),
{
    let (b1, d1, p1) = b.tick_active();
    let (b2, d2, p2) = b1.tick_cache();
    lemma_bucket_remove_ids_has(b2, d1 + d2, x);
    if bucket_has(b2, x) {
        if has_id(b2.active, x) {
            let i = choose|i: int| 0 <= i < b2.active.len() && (#[trigger] b2.active[i]).id == x;
            assert(b.active[i].id == x);
        } else {
            let f = b1.fillup();
            assert(0 <= f <= b1.cache.len());
            let i = choose|i: int| 0 <= i < b2.cache.len() && (#[trigger] b2.cache[i]).id == x;
            if i < f {
                assert(b2.cache[i] == ticked_all(b1.cache.take(f))[i]);
                assert(b.cache[i].id == x);
            } else {
                assert(b2.cache[i] == b1.cache.skip(f)[i - f]);
                assert(b.cache[i].id == x);
            }
        }
    }
}

/// Every node at a depth of a well-formed bucket carries an identifier of that
/// depth.
proof fn lemma_bucket_has_depth(b: BucketView, root: NodeID, lo: int, hi: int, x: NodeID)
    requires
        b.wf(root, lo, hi),
        bucket_has(b, x),
    ensures
        lo <= depth_of(root, x) <= hi,
{
    if has_id(b.active, x) {
        let i = choose|i: int| 0 <= i < b.active.len() && (#[trigger] b.active[i]).id == x;
        assert(b.active[i].ok(root));
    } else {
        let i = choose|i: int| 0 <= i < b.cache.len() && (#[trigger] b.cache[i]).id == x;
        assert(b.cache[i].ok(root));
    }
}

proof fn lemma_overflow_step_has(v: KademliaView, x: NodeID)
    ensures
        v.overflow_step().has_node(x) ==> v.has_node(x),
{
    let len = v.buckets.len() as int;
    let (r, ta, tc) = v.root_bucket.remove_all_nodes_at_depth(len);
    let e = empty_bucket(v.config);
    lemma_bucket_add_nodes_active_has(e, ta, x);
    lemma_bucket_add_nodes_has(e.add_nodes_active(ta), tc, x);
    lemma_bucket_remove_all_has(v.root_bucket, len, x);
    let w = v.overflow_step();
    if w.has_node(x) {
        if exists|i: int| 0 <= i < w.buckets.len() && bucket_has(#[trigger] w.buckets[i], x) {
            let i = choose|i: int| 0 <= i < w.buckets.len() && bucket_has(#[trigger] w.buckets[i], x);
            if i < len {
                assert(w.buckets[i] == v.buckets[i]);
            }
        }
    }
}

proof fn lemma_rebalance_overflow_has(v: KademliaView, x: NodeID)
    ensures
        v.rebalance_overflow().has_node(x) ==> v.has_node(x),
    decreases 256 - v.buckets.len(),
{
    if v.root_bucket.status() == BucketStatus::Overflowing && v.buckets.len() < 256 {
        lemma_overflow_step_has(v, x);
        lemma_rebalance_overflow_has(v.overflow_step(), x);
    }
}

proof fn lemma_wanting_step_has(v: KademliaView, x: NodeID)
    requires
        v.buckets.len() > 0,
        v.root_bucket.is_root,
    ensures
        v.wanting_step().has_node(x) == v.has_node(x),
{
    let b = v.buckets.last();
    lemma_bucket_add_nodes_active_has(v.root_bucket, b.active, x);
    lemma_bucket_add_nodes_has(v.root_bucket.add_nodes_active(b.active), b.cache, x);
    let w = v.wanting_step();
    let len = v.buckets.len() as int;
    if w.has_node(x) {
        if exists|i: int| 0 <= i < w.buckets.len() && bucket_has(#[trigger] w.buckets[i], x) {
            let i = choose|i: int| 0 <= i < w.buckets.len() && bucket_has(#[trigger] w.buckets[i], x);
            assert(w.buckets[i] == v.buckets[i]);
        }
    }
    if v.has_node(x) {
        if exists|i: int| 0 <= i < v.buckets.len() && bucket_has(#[trigger] v.buckets[i], x) {
            let i = choose|i: int| 0 <= i < v.buckets.len() && bucket_has(#[trigger] v.buckets[i], x);
            if i < len - 1 {
                assert(w.buckets[i] == v.buckets[i]);
            } else {
                assert(b == v.buckets[i]);
            }
        }
    }
}

proof fn lemma_rebalance_wanting_has(v: KademliaView, x: NodeID)
    requires
        v.wf(),
    ensures
        v.rebalance_wanting().has_node(x) == v.has_node(x),
    decreases v.buckets.len(),
{
    if v.root_bucket.status() == BucketStatus::Wanting && v.buckets.len() > 0 {
        lemma_wanting_step(v);
        lemma_wanting_step_has(v, x);
        lemma_rebalance_wanting_has(v.wanting_step(), x);
    }
}

proof fn lemma_with_bucket_has(v: KademliaView, i: int, b: BucketView, x: NodeID)
    requires
        0 <= i < v.buckets.len(),
    ensures
        v.with_bucket(i, b).has_node(x) ==> v.has_node(x) || bucket_has(b, x),
        v.has_node(x) && !bucket_has(v.buckets[i], x) ==> v.with_bucket(i, b).has_node(x),
{
    let w = v.with_bucket(i, b);
    if w.has_node(x) {
        if exists|j: int| 0 <= j < w.buckets.len() && bucket_has(#[trigger] w.buckets[j], x) {
            let j = choose|j: int| 0 <= j < w.buckets.len() && bucket_has(#[trigger] w.buckets[j], x);
            if j != i {
                assert(w.buckets[j] == v.buckets[j]);
            }
        }
    }
    if v.has_node(x) && !bucket_has(v.buckets[i], x) {
        if exists|j: int| 0 <= j < v.buckets.len() && bucket_has(#[trigger] v.buckets[j], x) {
            let j = choose|j: int| 0 <= j < v.buckets.len() && bucket_has(#[trigger] v.buckets[j], x);
            assert(w.buckets[j] == v.buckets[j]);
        }
    }
}

/// In a well-formed table, an identifier can only be stored in the bucket of its
/// depth, or in the root bucket if it is at least as deep as the number of buckets.
pub proof fn lemma_node_placement(v: KademliaView, x: NodeID)
    requires
        v.wf(),
    ensures
        forall|i: int|
            0 <= i < v.buckets.len() && bucket_has(#[trigger] v.buckets[i], x) ==> depth_of(v.root, x)
                == i,
        bucket_has(v.root_bucket, x) ==> depth_of(v.root, x) >= v.buckets.len(),
{
    assert forall|i: int|
        0 <= i < v.buckets.len() && bucket_has(#[trigger] v.buckets[i], x) implies depth_of(
        v.root,
        x,
    ) == i by {
        lemma_bucket_has_depth(v.buckets[i], v.root, i, i, x);
    }
    if bucket_has(v.root_bucket, x) {
        lemma_bucket_has_depth(v.root_bucket, v.root, v.buckets.len() as int, 255, x);
    }
}

// ---------------------------------------------------------------------------
// Laws of the routing table
// ---------------------------------------------------------------------------

/// Adding a node never makes the table hold an identifier other than the added one
/// that it did not hold before.
pub proof fn lemma_add_node_only_adds(v: KademliaView, id: NodeID, x: NodeID)
    requires
        v.wf(),
    ensures
        v.add_node(id).has_node(x) ==> v.has_node(x) || x == id,
{
    if !(id == v.root || v.has_node(id)) {
        let n = new_knode(v.root, id);
        lemma_first_difference_spec(v.root, id, 0);
        if (n.depth as int) < v.buckets.len() {
            let d = n.depth as int;
            lemma_bucket_add_node_has(v.buckets[d], n, x);
            lemma_with_bucket_has(v, d, v.buckets[d].add_node(n), x);
        } else {
            let r = v.root_bucket.add_node(n);
            lemma_bucket_add_node_has(v.root_bucket, n, x);
            if r.status() == BucketStatus::Overflowing {
                lemma_rebalance_overflow_has(v.with_root(r), x);
            }
        }
    }
}

/// Adding a node keeps it in the table when there is room for it: a node already
/// held stays; a new node is held afterwards when the bucket of its depth has room
/// in its cache, or, if it belongs to the root bucket, when adding it does not make
/// the root bucket overflow.
pub proof fn lemma_add_node_kept(v: KademliaView, id: NodeID)
    requires
        v.wf(),
        id != v.root,
    ensures
        v.has_node(id) ==> v.add_node(id).has_node(id),
        depth_of(v.root, id) < v.buckets.len() && v.buckets[depth_of(v.root, id)].cache.len() < 2 * v.config.k
            ==> v.add_node(id).has_node(id),
        depth_of(v.root, id) >= v.buckets.len() && v.root_bucket.add_node(new_knode(v.root, id)).status()
            != BucketStatus::Overflowing ==> v.add_node(id).has_node(id),
{
    if !v.has_node(id) {
        let n = new_knode(v.root, id);
        lemma_first_difference_spec(v.root, id, 0);
        let d = depth_of(v.root, id);
        assert(n.depth as int == d);
        assert(has_id(seq![n], id)) by {
            assert(seq![n][0].id == id);
        }
        if d < v.buckets.len() {
            let b = v.buckets[d];
            if b.cache.len() < 2 * v.config.k {
                assert(!b.is_root);
                lemma_has_id_push(b.cache, n, id);
                assert(has_id(b.cache.push(n), id)) by {
                    assert(b.cache.push(n)[b.cache.len() as int] == n);
                }
                let w = v.add_node(id);
                assert(w.buckets[d] == b.add_node(n));
                assert(bucket_has(w.buckets[d], id));
                assert(has_id(w.buckets[d].cache, id));
            }
        } else {
            let r = v.root_bucket.add_node(n);
            if r.status() != BucketStatus::Overflowing {
                assert(r.cache == v.root_bucket.cache.push(n));
                assert(r.cache[v.root_bucket.cache.len() as int] == n);
                assert(has_id(r.cache, id));
            }
        }
    }
}

/// Adding a node that is the root or already held leaves the table unchanged.
pub proof fn lemma_add_node_known(v: KademliaView, id: NodeID)
    requires
        id == v.root || v.has_node(id),
    ensures
        v.add_node(id) == v,
{
}

/// After removing a node, the table does not hold it anymore.
pub proof fn lemma_remove_node_removes(v: KademliaView, id: NodeID)
    requires
        v.wf(),
    ensures
        !v.remove_node(id).has_node(id),
        forall|x: NodeID| #[trigger] v.remove_node(id).has_node(x) ==> v.has_node(x),
{
    let d = depth_of(v.root, id);
    lemma_first_difference_spec(v.root, id, 0);
    lemma_node_placement(v, id);
    assert forall|x: NodeID| #[trigger] v.remove_node(id).has_node(x) implies v.has_node(x) && x
        != id by {
        if d < v.buckets.len() {
            lemma_bucket_remove_node_has(v.buckets[d], id, x);
            lemma_with_bucket_has(v, d, v.buckets[d].remove_node(id), x);
            if x == id {
                let w = v.with_bucket(d, v.buckets[d].remove_node(id));
                if exists|i: int| 0 <= i < w.buckets.len() && bucket_has(#[trigger] w.buckets[i], x) {
                    let i = choose|i: int|
                        0 <= i < w.buckets.len() && bucket_has(#[trigger] w.buckets[i], x);
                    if i != d {
                        assert(w.buckets[i] == v.buckets[i]);
                    }
                }
            }
        } else {
            let r = v.root_bucket.remove_node(id);
            lemma_bucket_remove_node_has(v.root_bucket, id, x);
            lemma_remove_node_wf(v.root_bucket, id, v.root, v.buckets.len() as int, 255);
            if r.status() == BucketStatus::Wanting {
                lemma_rebalance_wanting_has(v.with_root(r), x);
            }
        }
    }
}

proof fn lemma_timeout_ids_from(s: Seq<KNode>, t: u32, x: NodeID)
    ensures
        timeout_ids(s, t).contains(x) ==> has_id(s, x),
    decreases s.len(),
{
    if s.len() > 0 {
        let p = s.drop_last();
        lemma_timeout_ids_from(p, t, x);
        lemma_has_id_push(p, s.last(), x);
        assert(s =~= p.push(s.last()));
        if s.last().ticks_last >= t {
            let q = timeout_ids(p, t);
            if q.push(s.last().id).contains(x) && !q.contains(x) {
                let i = choose|i: int| 0 <= i < q.push(s.last().id).len() && q.push(s.last().id)[i] == x;
                if i < q.len() {
                    assert(q[i] == x);
                }
            }
        }
    }
}

proof fn lemma_has_id_ticked(s: Seq<KNode>, x: NodeID)
    ensures
        has_id(ticked_all(s), x) == has_id(s, x),
{
    if has_id(ticked_all(s), x) {
        let i = choose|i: int| 0 <= i < ticked_all(s).len() && (#[trigger] ticked_all(s)[i]).id == x;
        assert(s[i].id == x);
    }
    if has_id(s, x) {
        let i = choose|i: int| 0 <= i < s.len() && (#[trigger] s[i]).id == x;
        assert(ticked_all(s)[i].id == x);
    }
}

proof fn lemma_bucket_tick_deleted_has(b: BucketView, x: NodeID)
    requires
        !b.is_root ==> b.active.len() <= b.config.k,
    ensures
        b.tick().1.contains(x) ==> bucket_has(b, x),
{
    let (b1, d1, p1) = b.tick_active();
    let (b2, d2, p2) = b1.tick_cache();
    if (d1 + d2).contains(x) {
        if d1.contains(x) {
            lemma_timeout_ids_from(ticked_all(b.active), b.config.ping_timeout, x);
            lemma_has_id_ticked(b.active, x);
        } else {
            let i = choose|i: int| 0 <= i < (d1 + d2).len() && (d1 + d2)[i] == x;
            assert(d2[i - d1.len()] == x);
            let f = b1.fillup();
            assert(0 <= f <= b1.cache.len());
            let pre = b1.cache.take(f);
            lemma_timeout_ids_from(ticked_all(pre), b.config.ping_timeout, x);
            lemma_has_id_ticked(pre, x);
            let j = choose|j: int| 0 <= j < pre.len() && (#[trigger] pre[j]).id == x;
            assert(b.cache[j].id == x);
        }
    }
}

proof fn lemma_tick_buckets_deleted(bs: Seq<BucketView>, x: NodeID)
    ensures
        tick_buckets(bs).1.contains(x) ==> exists|j: int|
            0 <= j < bs.len() && (#[trigger] bs[j]).tick().1.contains(x),
    decreases bs.len(),
{
    if bs.len() > 0 {
        let p = bs.drop_last();
        lemma_tick_buckets_deleted(p, x);
        let (b2, d, pp) = tick_buckets(p);
        let d1 = bs.last().tick().1;
        if (d + d1).contains(x) {
            let i = choose|i: int| 0 <= i < (d + d1).len() && (d + d1)[i] == x;
            if i < d.len() {
                assert(d[i] == x);
                let j = choose|j: int| 0 <= j < p.len() && (#[trigger] p[j]).tick().1.contains(x);
                assert(bs[j] == p[j]);
            } else {
                assert(d1[i - d.len()] == x);
                assert(bs[bs.len() - 1].tick().1.contains(x));
            }
        }
    }
}

/// A node that timed out in a tick is no longer held by the table.
pub proof fn lemma_tick_removes_deleted(v: KademliaView, x: NodeID)
    requires
        v.wf(),
        v.tickable(),
        v.tick().1.contains(x),
    ensures
        !v.tick().0.has_node(x),
{
    let (bs, d, p) = tick_buckets(v.buckets);
    let (r, d1, p1) = v.root_bucket.tick();
    let w = v.tick().0;
    lemma_tick_buckets(v.buckets, v.root, v.config);
    lemma_node_placement(v, x);
    // Where the timed out node was stored.
    let from_root = d1.contains(x);
    let dep = depth_of(v.root, x);
    if from_root {
        lemma_bucket_tick_deleted_has(v.root_bucket, x);
    } else {
        let i = choose|i: int| 0 <= i < (d + d1).len() && (d + d1)[i] == x;
        if i >= d.len() {
            assert(d1[i - d.len()] == x);
        }
        assert(d[i] == x);
        lemma_tick_buckets_deleted(v.buckets, x);
        let j = choose|j: int| 0 <= j < v.buckets.len() && (#[trigger] v.buckets[j]).tick().1.contains(x);
        lemma_bucket_tick_deleted_has(v.buckets[j], x);
        assert(dep == j);
    }
    lemma_bucket_tick_has(v.root_bucket, x);
    if bucket_has(r, x) {
        assert(bucket_has(v.root_bucket, x));
        if !from_root {
            assert(false);
        }
    }
    assert forall|i: int| 0 <= i < w.buckets.len() implies !bucket_has(#[trigger] w.buckets[i], x) by {
        assert(w.buckets[i] == v.buckets[i].tick().0);
        lemma_bucket_tick_has(v.buckets[i], x);
        if bucket_has(w.buckets[i], x) {
            assert(bucket_has(v.buckets[i], x));
            assert(dep == i);
            if !from_root {
                let j = choose|j: int| 0 <= j < v.buckets.len() && (#[trigger] v.buckets[j]).tick().1.contains(x);
                assert(j == i);
            }
        }
    }
}

/// Every identifier returned for a depth is stored at that depth.
pub proof fn lemma_nodes_depth_sound(v: KademliaView, d: int)
    requires
        v.wf(),
        0 <= d,
    ensures
        forall|i: int|
            0 <= i < v.nodes_depth(d).len() ==> depth_of(v.root, #[trigger] v.nodes_depth(d)[i]) == d,
{
    let lo = if d < v.buckets.len() {
        d
    } else {
        v.buckets.len() as int
    };
    let b = if d < v.buckets.len() {
        v.buckets[d]
    } else {
        v.root_bucket
    };
    assert(b.wf(v.root, lo, 255));
    assert forall|i: int| 0 <= i < b.active.len() implies (#[trigger] b.active[i]).ok(v.root) by {
        assert(b.active[i].ok(v.root));
    }
    lemma_ids_at_depth_sound(b.active, v.root, d);
}

proof fn lemma_ids_at_depth_sound(s: Seq<KNode>, root: NodeID, d: int)
    requires
        forall|i: int| 0 <= i < s.len() ==> (#[trigger] s[i]).ok(root),
    ensures
        forall|i: int|
            0 <= i < ids_at_depth(s, d).len() ==> depth_of(root, #[trigger] ids_at_depth(s, d)[i]) == d,
    decreases s.len(),
{
    if s.len() > 0 {
        let p = s.drop_last();
        assert forall|i: int| 0 <= i < p.len() implies (#[trigger] p[i]).ok(root) by {
            assert(p[i] == s[i]);
        }
        lemma_ids_at_depth_sound(p, root, d);
        assert(s[s.len() - 1].ok(root));
        let q = ids_at_depth(p, d);
        assert forall|i: int|
            0 <= i < ids_at_depth(s, d).len() implies depth_of(root, #[trigger] ids_at_depth(s, d)[i])
            == d by {
            if i < q.len() {
                assert(ids_at_depth(s, d)[i] == q[i]);
            }
        }
    }
}

fn nodes_tickable_exec(v: &Vec<KNode>) -> (r: bool)
    ensures
        r == nodes_tickable(v@),
{
    let mut i: usize = 0;
    while i < v.len()
        invariant
            0 <= i <= v.len(),
            nodes_tickable(v@.take(i as int)),
        decreases v.len() - i,
    {
        if v[i].ticks_active == u32::MAX || v[i].ticks_last == u32::MAX {
            proof {
                assert(!(v@[i as int].ticks_active < u32::MAX && v@[i as int].ticks_last < u32::MAX));
            }
            return false;
        }
        proof {
            assert forall|j: int| 0 <= j < i + 1 implies (#[trigger] v@.take(i + 1)[j]).ticks_active
                < u32::MAX && v@.take(i + 1)[j].ticks_last < u32::MAX by {
                if j < i {
                    assert(v@.take(i + 1)[j] == v@.take(i as int)[j]);
                }
            }
        }
        i = i + 1;
    }
    proof {
        assert(v@.take(v.len() as int) =~= v@);
    }
    true
}

impl KBucket {
    fn is_tickable(&self) -> (r: bool)
        ensures
            r == self@.tickable(),
    {
        nodes_tickable_exec(&self.active) && nodes_tickable_exec(&self.cache)
    }
}

proof fn lemma_sum_sizes_prefix(bs: Seq<BucketView>, i: int)
    requires
        0 <= i <= bs.len(),
    ensures
        sum_sizes(bs.take(i)) <= sum_sizes(bs),
    decreases bs.len(),
{
    if i < bs.len() {
        lemma_sum_sizes_prefix(bs.drop_last(), i);
        assert(bs.drop_last().take(i) =~= bs.take(i));
    } else {
        assert(bs.take(i) =~= bs);
    }
}

impl Kademlia {
    /// The node at the root of this table.
    pub fn root(&self) -> (r: NodeID)
        ensures
            r == self@.root,
    {
        self.root
    }

    /// The number of nodes, active and cached.
    pub fn total(&self) -> (r: usize)
        requires
            self@.wf(),
        ensures
            r == self@.total(),
    {
        let ghost bs = self@.buckets;
        let mut s: usize = 0;
        let mut i: usize = 0;
        while i < self.buckets.len()
            invariant
                0 <= i <= self.buckets.len(),
                bs == self@.buckets,
                self@.wf(),
                s == sum_sizes(bs.take(i as int)),
            decreases self.buckets.len() - i,
        {
            proof {
                assert(bs.take(i + 1).drop_last() =~= bs.take(i as int));
                assert(bs[i as int] == self.buckets@[i as int]@);
                lemma_sum_sizes_prefix(bs, i + 1);
            }
            s = s + self.buckets[i].active.len() + self.buckets[i].cache.len();
            i = i + 1;
        }
        proof {
            assert(bs.take(i as int) =~= bs);
        }
        s + self.root_bucket.active.len() + self.root_bucket.cache.len()
    }

    /// Every node can be ticked once more.
    pub fn tickable(&self) -> (r: bool)
        ensures
            r == self@.tickable(),
    {
        let mut i: usize = 0;
        while i < self.buckets.len()
            invariant
                0 <= i <= self.buckets.len(),
                forall|j: int| 0 <= j < i ==> (#[trigger] self@.buckets[j]).tickable(),
            decreases self.buckets.len() - i,
        {
            proof {
                assert(self@.buckets[i as int] == self.buckets@[i as int]@);
            }
            if !self.buckets[i].is_tickable() {
                return false;
            }
            i = i + 1;
        }
        self.root_bucket.is_tickable()
    }
}

} // verus!
