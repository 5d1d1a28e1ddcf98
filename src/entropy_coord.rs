use vstd::prelude::*;

use crate::vector2::Vector2;

verus! {

/// An entry of the entropy queue: a cell and its entropy when it was queued
/// (in units of 2^-32 bits). Lower entropy is served first.
#[derive(Debug, Clone, Copy, PartialEq, Eq, Structural)]
pub struct EntropyCoord {
    pub entropy: u64,
    pub coord: Vector2,
}

impl EntropyCoord {
    pub fn new(entropy: u64, coord: Vector2) -> (r: EntropyCoord)
        ensures
            r.entropy == entropy,
            r.coord == coord,
    {
        EntropyCoord { entropy, coord }
    }
}

/// Takes an entry of least entropy out of `queue`.
pub fn pop_lowest(queue: &mut Vec<EntropyCoord>) -> (r: Option<EntropyCoord>)
    ensures
        r.is_none() <==> old(queue)@.len() == 0,
        r.is_none() ==> final(queue)@ == old(queue)@,
        r matches Some(e) ==> exists|i: int|
            0 <= i < old(queue)@.len() && e == old(queue)@[i] && final(queue)@ == old(
                queue,
            )@.update(i, old(queue)@.last()).drop_last(),
        r matches Some(e) ==> forall|j: int|
            0 <= j < old(queue)@.len() ==> e.entropy <= #[trigger] old(queue)@[j].entropy,
        r matches Some(e) ==> final(queue)@.to_multiset() == old(queue)@.to_multiset().remove(e),
{
    let n = queue.len();
    if n == 0 {
        return None;
    }
    let mut best: usize = 0;
    let mut i: usize = 1;
    while i < n
        invariant
            n == queue@.len(),
            best < n,
            1 <= i <= n,
            forall|j: int| 0 <= j < i ==> queue@[best as int].entropy <= #[trigger] queue@[j].entropy,
        decreases n - i,
    {
        if queue[i].entropy < queue[best].entropy {
            best = i;
        }
        i = i + 1;
    }
    let ghost before = queue@;
    let e = queue.swap_remove(best);
    proof {
        broadcast use vstd::seq_lib::group_to_multiset_ensures;
        let upd = before.update(best as int, before.last());
        assert(queue@ =~= upd.remove(upd.len() - 1));
        assert(upd.to_multiset() == before.to_multiset().insert(before.last()).remove(e));
        assert(upd[upd.len() - 1] == before.last());
        assert(queue@.to_multiset() =~= before.to_multiset().remove(e));
    }
    Some(e)
}

} // verus!
