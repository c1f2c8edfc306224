use crate::nodeid::NodeID;
use vstd::prelude::*;

verus! {

/// The IDs of `ids` other than `our_id`, in their order.
pub open spec fn others(ids: Seq<NodeID>, our_id: NodeID) -> Seq<NodeID> {
    ids.filter(|id: NodeID| id != our_id)
}

/// The node list to keep: all the given nodes but this one.
pub fn node_list(ids: &Vec<NodeID>, our_id: &NodeID) -> (r: Vec<NodeID>)
    ensures
        r@ == others(ids@, *our_id),
{
    let mut r: Vec<NodeID> = Vec::new();
    let mut i: usize = 0;
    while i < ids.len()
        invariant
            0 <= i <= ids.len(),
            r@ == others(ids@.take(i as int), *our_id),
        decreases ids.len() - i,
    {
        proof {
            reveal_with_fuel(Seq::filter, 1);
            assert(ids@.take(i + 1).drop_last() =~= ids@.take(i as int));
        }
        if !ids[i].same(our_id) {
            r.push(ids[i]);
        }
        i = i + 1;
    }
    proof {
        assert(ids@.take(ids.len() as int) =~= ids@);
    }
    r
}

} // verus!
