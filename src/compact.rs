use vstd::prelude::*;

use crate::arena::MassIndex;
use crate::types::Spring;

verus! {

/// The index that `e` takes once the mass at `mi` is removed.
pub open spec fn shifted(e: MassIndex, mi: MassIndex) -> MassIndex {
    if e.0 > mi.0 {
        MassIndex((e.0 - 1) as u32)
    } else {
        e
    }
}

/// `springs` once the mass at `mi` is removed: the springs attached to it
/// are gone and every other end above it moves down by one.
pub open spec fn detached<U>(springs: Seq<Spring<MassIndex, U>>, mi: MassIndex) -> Seq<Spring<MassIndex, U>>
    decreases springs.len(),
{
    if springs.len() == 0 {
        Seq::empty()
    } else {
        let s = springs.last();
        let rest = detached(springs.drop_last(), mi);
        if s.connects(mi) {
            rest
        } else {
            rest.push(
                Spring {
                    endpoints: [shifted(s.endpoints[0], mi), shifted(s.endpoints[1], mi)],
                    length: s.length,
                    stiffness: s.stiffness,
                },
            )
        }
    }
}

/// `d` is what detaching left of `springs[j]`, and its ends name in `masses` with the
/// mass at `mi` removed the same masses that the ends of `s` named before.
pub open spec fn carried<M, U>(
    masses: Seq<M>,
    mi: MassIndex,
    springs: Seq<Spring<MassIndex, U>>,
    j: int,
    d: Spring<MassIndex, U>,
) -> bool {
    let s = springs[j];
    &&& 0 <= j < springs.len()
    &&& !s.connects(mi)
    &&& d.length == s.length
    &&& d.stiffness == s.stiffness
    &&& d.endpoints[0].0 < masses.len() - 1
    &&& d.endpoints[1].0 < masses.len() - 1
    &&& masses.remove(mi.0 as int)[d.endpoints[0].0 as int] == masses[s.endpoints[0].0 as int]
    &&& masses.remove(mi.0 as int)[d.endpoints[1].0 as int] == masses[s.endpoints[1].0 as int]
}

/// The position in `springs` of the spring that became the `k`-th one of
/// `detached(springs, mi)`.
pub open spec fn origin<U>(springs: Seq<Spring<MassIndex, U>>, mi: MassIndex, k: int) -> int
    decreases springs.len(),
{
    if springs.len() == 0 {
        0
    } else if k < detached(springs.drop_last(), mi).len() {
        origin(springs.drop_last(), mi, k)
    } else {
        springs.len() - 1
    }
}

/// Removing the mass at `mi` and detaching the springs from it keeps every
/// remaining spring joined to the same masses as before.
pub proof fn lemma_detached_keeps_ends<M, U>(masses: Seq<M>, springs: Seq<Spring<MassIndex, U>>, mi: MassIndex)
    requires
        mi.0 < masses.len(),
        forall|j: int|
            0 <= j < springs.len() ==> (#[trigger] springs[j]).endpoints[0].0 < masses.len()
                && springs[j].endpoints[1].0 < masses.len(),
    ensures
        forall|k: int|
            #![trigger detached(springs, mi)[k]]
            0 <= k < detached(springs, mi).len() ==> carried(
                masses,
                mi,
                springs,
                origin(springs, mi, k),
                detached(springs, mi)[k],
            ),
    decreases springs.len(),
{
    if springs.len() > 0 {
        let init = springs.drop_last();
        assert forall|j: int| 0 <= j < init.len() implies (#[trigger] init[j]).endpoints[0].0 < masses.len()
            && init[j].endpoints[1].0 < masses.len() by {
            assert(init[j] == springs[j]);
        }
        lemma_detached_keeps_ends(masses, init, mi);
        let d = detached(springs, mi);
        let di = detached(init, mi);
        let last = springs.last();
        assert forall|k: int| #![trigger detached(springs, mi)[k]] 0 <= k < detached(springs, mi).len() implies carried(
            masses,
            mi,
            springs,
            origin(springs, mi, k),
            detached(springs, mi)[k],
        ) by {
            if k < di.len() {
                assert(d[k] == di[k]);
                let j = origin(init, mi, k);
                assert(di[k] == detached(init, mi)[k]);
                assert(carried(masses, mi, init, j, di[k]));
                assert(springs[j] == init[j]);
            } else {
                let j = springs.len() - 1;
                assert(last.endpoints[0] != mi);
                assert(last.endpoints[1] != mi);
                assert(springs[j].endpoints[0].0 < masses.len());
                assert(springs[j].endpoints[1].0 < masses.len());
            }
        }
    } else {
        assert(detached(springs, mi).len() == 0);
    }
}

fn shift_index(e: MassIndex, mi: MassIndex) -> (r: MassIndex)
    ensures
        r == shifted(e, mi),
{
    if e.0 > mi.0 {
        MassIndex(e.0 - 1)
    } else {
        e
    }
}

/// Removes from `springs` those attached to the mass at `mi`, and moves every
/// other end above `mi` down by one, as the removal of that mass requires.
pub fn detach_mass<U>(springs: &mut Vec<Spring<MassIndex, U>>, mi: MassIndex)
    ensures
        final(springs)@ == detached(old(springs)@, mi),
{
    let ghost s0 = springs@;
    let n = springs.len();
    let mut i: usize = 0;
    let mut j: usize = 0;
    while j < n
        invariant
            n == s0.len(),
            0 <= j <= n,
            s0 == old(springs)@,
            i == detached(s0.subrange(0, j as int), mi).len(),
            springs@ == detached(s0.subrange(0, j as int), mi) + s0.subrange(j as int, n as int),
        decreases n - j,
    {
        proof {
            assert(s0.subrange(0, j + 1).drop_last() =~= s0.subrange(0, j as int));
            assert(springs@[i as int] == s0[j as int]);
        }
        let e0 = springs[i].endpoints[0];
        let e1 = springs[i].endpoints[1];
        if e0 == mi || e1 == mi {
            let _ = springs.remove(i);
            proof {
                assert(springs@ =~= detached(s0.subrange(0, j + 1), mi) + s0.subrange(j + 1, n as int));
            }
        } else {
            let n0 = shift_index(e0, mi);
            let n1 = shift_index(e1, mi);
            let ghost before = springs@;
            springs[i].endpoints = [n0, n1];
            assert(i < springs.len());
            i = i + 1;
            proof {
                let d = detached(s0.subrange(0, j + 1), mi);
                assert(springs@[i - 1] == d.last());
                assert(springs@ =~= d + s0.subrange(j + 1, n as int));
            }
        }
        j = j + 1;
    }
    proof {
        assert(s0.subrange(0, n as int) =~= s0);
        assert(springs@ =~= detached(s0, mi));
    }
}

} // verus!
