use vstd::prelude::*;

use crate::types::Environment;
use crate::types::Mass;
use crate::types::Spring;
use crate::world::is_live;
use crate::world::Extension;
use crate::world::MassRef;
use crate::world::World;

verus! {

/// The scalar arithmetic that the integrator needs. Each operation is a
/// function of its arguments, named by a spec function.
pub trait Scalar: Copy {
    spec fn spec_one() -> Self;

    spec fn spec_minus(self, o: Self) -> Self;

    spec fn spec_times(self, o: Self) -> Self;

    fn one() -> (r: Self)
        ensures
            r == Self::spec_one(),
    ;

    fn minus(self, o: Self) -> (r: Self)
        ensures
            r == self.spec_minus(o),
    ;

    fn times(self, o: Self) -> (r: Self)
        ensures
            r == self.spec_times(o),
    ;
}

/// The 2-D vector arithmetic that the integrator needs, over scalars `U`.
/// Each operation is a function of its arguments, named by a spec function.
pub trait Vector<U>: Copy {
    spec fn spec_zero() -> Self;

    spec fn spec_plus(self, o: Self) -> Self;

    spec fn spec_minus(self, o: Self) -> Self;

    spec fn spec_scale(self, k: U) -> Self;

    spec fn spec_divide(self, k: U) -> Self;

    spec fn spec_magnitude(self) -> U;

    spec fn spec_normalize(self) -> Self;

    spec fn spec_is_zero(self) -> bool;

    fn zero() -> (r: Self)
        ensures
            r == Self::spec_zero(),
    ;

    fn plus(self, o: Self) -> (r: Self)
        ensures
            r == self.spec_plus(o),
    ;

    fn minus(self, o: Self) -> (r: Self)
        ensures
            r == self.spec_minus(o),
    ;

    fn scale(self, k: U) -> (r: Self)
        ensures
            r == self.spec_scale(k),
    ;

    fn divide(self, k: U) -> (r: Self)
        ensures
            r == self.spec_divide(k),
    ;

    fn magnitude(self) -> (r: U)
        ensures
            r == self.spec_magnitude(),
    ;

    fn normalize(self) -> (r: Self)
        ensures
            r == self.spec_normalize(),
    ;

    /// Whether the vector has length zero; such a vector has no direction.
    fn is_zero(self) -> (r: bool)
        ensures
            r == self.spec_is_zero(),
    ;
}

/// The weight of `m`; an absent weight counts as one.
pub open spec fn weight<V, U: Scalar>(m: Mass<V, U>) -> U {
    match m.mass {
        Some(x) => x,
        None => U::spec_one(),
    }
}

/// `m` after one semi-implicit Euler step of length `dt`: the velocity takes
/// the acceleration divided by the weight, times `dt`; the position then
/// takes the new velocity times `dt`.
pub open spec fn stepped<V: Vector<U>, U: Scalar>(m: Mass<V, U>, dt: U) -> Mass<V, U> {
    let vel = m.vel.spec_plus(m.acc.spec_divide(weight(m)).spec_scale(dt));
    Mass { pos: m.pos.spec_plus(vel.spec_scale(dt)), vel, acc: m.acc, mass: m.mass, fixed: m.fixed }
}

/// One semi-implicit Euler step: the velocity first, then the position from
/// the new velocity.
pub fn mass_step<V: Vector<U>, U: Scalar>(mass: &mut Mass<V, U>, timestep: U)
    ensures
        *final(mass) == stepped(*old(mass), timestep),
{
    let m = match mass.mass {
        Some(x) => x,
        None => U::one(),
    };
    mass.vel = mass.vel.plus(mass.acc.divide(m).scale(timestep));
    mass.pos = mass.pos.plus(mass.vel.scale(timestep));
}

/// The same slots are occupied, and each occupied one keeps its weight and
/// its `fixed` flag; a fixed mass also keeps its position and velocity.
pub open spec fn masses_kept<V, U>(old: Seq<Option<Mass<V, U>>>, new: Seq<Option<Mass<V, U>>>) -> bool {
    &&& new.len() == old.len()
    &&& forall|i: int| #[trigger] is_live(new, i) == is_live(old, i)
    &&& forall|i: int|
        #[trigger] is_live(old, i) ==> {
            &&& new[i]->Some_0.mass == old[i]->Some_0.mass
            &&& new[i]->Some_0.fixed == old[i]->Some_0.fixed
            &&& old[i]->Some_0.fixed ==> {
                &&& new[i]->Some_0.pos == old[i]->Some_0.pos
                &&& new[i]->Some_0.vel == old[i]->Some_0.vel
            }
        }
}

/// Rewriting one occupied slot with a mass of the same weight and flag, and,
/// where fixed, the same position and velocity, keeps `masses_kept`.
proof fn lemma_masses_kept_step<V, U>(
    o: Seq<Option<Mass<V, U>>>,
    prev: Seq<Option<Mass<V, U>>>,
    new: Seq<Option<Mass<V, U>>>,
    i: int,
)
    requires
        masses_kept(o, prev),
        is_live(prev, i),
        new == prev.update(i, new[i]),
        new[i] is Some,
        new[i]->Some_0.mass == prev[i]->Some_0.mass,
        new[i]->Some_0.fixed == prev[i]->Some_0.fixed,
        prev[i]->Some_0.fixed ==> {
            &&& new[i]->Some_0.pos == prev[i]->Some_0.pos
            &&& new[i]->Some_0.vel == prev[i]->Some_0.vel
        },
    ensures
        masses_kept(o, new),
{
    assert forall|j: int| #[trigger] is_live(new, j) == is_live(o, j) by {
        assert(is_live(prev, j) == is_live(o, j));
    }
    assert forall|j: int| #[trigger] is_live(o, j) implies {
        &&& new[j]->Some_0.mass == o[j]->Some_0.mass
        &&& new[j]->Some_0.fixed == o[j]->Some_0.fixed
        &&& o[j]->Some_0.fixed ==> {
            &&& new[j]->Some_0.pos == o[j]->Some_0.pos
            &&& new[j]->Some_0.vel == o[j]->Some_0.vel
        }
    } by {
        assert(is_live(o, j));
    }
}

/// Over any run of ticks, a mass that is fixed at the start never changes
/// its position or velocity.
pub proof fn lemma_fixed_masses_stay<V, U>(states: Seq<Seq<Option<Mass<V, U>>>>, i: int)
    requires
        states.len() > 0,
        forall|k: int| 0 <= k < states.len() - 1 ==> masses_kept(#[trigger] states[k], states[k + 1]),
        is_live(states[0], i),
        states[0][i]->Some_0.fixed,
    ensures
        is_live(states.last(), i),
        states.last()[i]->Some_0.fixed,
        states.last()[i]->Some_0.pos == states[0][i]->Some_0.pos,
        states.last()[i]->Some_0.vel == states[0][i]->Some_0.vel,
    decreases states.len(),
{
    if states.len() > 1 {
        let pre = states.drop_last();
        assert forall|k: int| 0 <= k < pre.len() - 1 implies masses_kept(#[trigger] pre[k], pre[k + 1]) by {
            assert(masses_kept(states[k], states[k + 1]));
        }
        lemma_fixed_masses_stay(pre, i);
        let k = states.len() - 2;
        assert(masses_kept(states[k], states[k + 1]));
        assert(is_live(states[k], i));
    }
}

/// `m` with acceleration `acc`.
pub open spec fn with_acc<V, U>(m: Mass<V, U>, acc: V) -> Mass<V, U> {
    Mass { pos: m.pos, vel: m.vel, acc, mass: m.mass, fixed: m.fixed }
}

/// The slots with the accelerations of the first `i` reset to zero.
pub open spec fn reset_upto<V: Vector<U>, U>(ms: Seq<Option<Mass<V, U>>>, i: int) -> Seq<Option<Mass<V, U>>> {
    Seq::new(
        ms.len(),
        |j: int|
            if j < i {
                match ms[j] {
                    Some(m) => Some(with_acc(m, V::spec_zero())),
                    None => None,
                }
            } else {
                ms[j]
            },
    )
}

/// The slots after spring `s` adds its force, divided by each end's weight,
/// to the acceleration of each end, with the same sign at both ends.
/// `kd` is the stiffness of a spring that gives none. A spring whose ends
/// coincide adds nothing.
pub open spec fn spring_pushed<V: Vector<U>, U: Scalar>(
    ms: Seq<Option<Mass<V, U>>>,
    s: Spring<MassRef, U>,
    kd: U,
) -> Seq<Option<Mass<V, U>>> {
    let a = s.endpoints[0].0 as int;
    let b = s.endpoints[1].0 as int;
    let ma = ms[a]->Some_0;
    let mb = ms[b]->Some_0;
    let dx = ma.pos.spec_minus(mb.pos);
    if dx.spec_is_zero() {
        ms
    } else {
        let k = match s.stiffness {
            Some(x) => x,
            None => kd,
        };
        let f = dx.spec_normalize().spec_scale(k.spec_times(dx.spec_magnitude().spec_minus(s.length)));
        let ms1 = ms.update(a, Some(with_acc(ma, ma.acc.spec_plus(f.spec_divide(weight(ma))))));
        let mb1 = ms1[b]->Some_0;
        ms1.update(b, Some(with_acc(mb1, mb1.acc.spec_plus(f.spec_divide(weight(mb))))))
    }
}

/// The slots after the first `j` springs of `springs`, in slot order, have
/// added their forces.
pub open spec fn forces_applied<V: Vector<U>, U: Scalar>(
    ms: Seq<Option<Mass<V, U>>>,
    springs: Seq<Option<Spring<MassRef, U>>>,
    j: nat,
    kd: U,
) -> Seq<Option<Mass<V, U>>>
    decreases j,
{
    if j == 0 {
        ms
    } else {
        let prev = forces_applied(ms, springs, (j - 1) as nat, kd);
        match springs[j - 1] {
            Some(s) => spring_pushed(prev, s, kd),
            None => prev,
        }
    }
}

/// The slots with each of the first `i` masses that is not fixed stepped by `dt`.
pub open spec fn stepped_upto<V: Vector<U>, U: Scalar>(ms: Seq<Option<Mass<V, U>>>, i: int, dt: U) -> Seq<
    Option<Mass<V, U>>,
> {
    Seq::new(
        ms.len(),
        |j: int|
            if j < i {
                match ms[j] {
                    Some(m) => Some(if m.fixed { m } else { stepped(m, dt) }),
                    None => None,
                }
            } else {
                ms[j]
            },
    )
}

/// The slots after a tick of length `dt` under default stiffness `kd`.
pub open spec fn ticked<V: Vector<U>, U: Scalar>(
    ms: Seq<Option<Mass<V, U>>>,
    springs: Seq<Option<Spring<MassRef, U>>>,
    kd: U,
    dt: U,
) -> Seq<Option<Mass<V, U>>> {
    let f = forces_applied(reset_upto(ms, ms.len() as int), springs, springs.len(), kd);
    stepped_upto(f, f.len() as int, dt)
}

/// Advances the world by `timestep`: every acceleration is reset, each spring
/// adds `k * strain * direction / m` to the acceleration of each of its ends
/// (the same sign at both ends), and every mass that is not fixed takes one
/// integration step, in which the velocity takes the accumulated acceleration
/// divided once more by the mass's weight. A spring whose ends coincide adds
/// no force.
pub fn tick<V: Vector<U>, U: Scalar, E: Extension<U>>(world: &mut World<V, U, E>, env: &Environment<V, U>, timestep: U)
    requires
        old(world).wf(),
    ensures
        final(world).wf(),
        masses_kept(old(world).masses@, final(world).masses@),
        final(world).masses@ == ticked(old(world).masses@, old(world).springs@, env.springiness, timestep),
        final(world).springs@ == old(world).springs@,
        final(world).root == old(world).root,
        final(world).extensions@ == old(world).extensions@,
        final(world).delivered@ == old(world).delivered@,
{
    let ghost m0 = world.masses@;
    let ghost kd = env.springiness;
    let n = world.masses.len();
    let mut i: usize = 0;
    while i < n
        invariant
            0 <= i <= n,
            n == world.masses@.len(),
            world.wf(),
            masses_kept(old(world).masses@, world.masses@),
            world.springs@ == old(world).springs@,
            world.root == old(world).root,
            world.extensions@ == old(world).extensions@,
            world.delivered@ == old(world).delivered@,
            m0 == old(world).masses@,
            world.masses@ == reset_upto(m0, i as int),
        decreases n - i,
    {
        if world.masses.contains(MassRef(i)) {
            let ghost prev = world.masses@;
            let m = world.mass_mut(MassRef(i));
            m.acc = V::zero();
            proof {
                lemma_masses_kept_step(old(world).masses@, prev, world.masses@, i as int);
            }
        }
        proof {
            assert(world.masses@ =~= reset_upto(m0, i + 1));
        }
        i = i + 1;
    }
    proof {
        assert(world.masses@ =~= forces_applied(reset_upto(m0, m0.len() as int), old(world).springs@, 0, kd));
    }
    let ns = world.springs.len();
    let mut j: usize = 0;
    while j < ns
        invariant
            0 <= j <= ns,
            ns == world.springs@.len(),
            world.wf(),
            masses_kept(old(world).masses@, world.masses@),
            world.springs@ == old(world).springs@,
            world.root == old(world).root,
            world.extensions@ == old(world).extensions@,
            world.delivered@ == old(world).delivered@,
            m0 == old(world).masses@,
            kd == env.springiness,
            world.masses@ == forces_applied(reset_upto(m0, m0.len() as int), old(world).springs@, j as nat, kd),
        decreases ns - j,
    {
        if world.springs.contains(crate::world::SpringRef(j)) {
            let spring = world.spring(crate::world::SpringRef(j));
            let a = spring.endpoints[0];
            let b = spring.endpoints[1];
            let length = spring.length;
            let k = match spring.stiffness {
                Some(x) => x,
                None => env.springiness,
            };
            proof {
                assert(is_live(world.springs@, j as int));
            }
            let dx = world.mass(a).pos.minus(world.mass(b).pos);
            if !dx.is_zero() {
                let strain = dx.magnitude().minus(length);
                let force = dx.normalize().scale(k.times(strain));
                let m1 = match world.mass(a).mass {
                    Some(x) => x,
                    None => U::one(),
                };
                let m2 = match world.mass(b).mass {
                    Some(x) => x,
                    None => U::one(),
                };
                let ghost prev = world.masses@;
                let ma = world.mass_mut(a);
                ma.acc = ma.acc.plus(force.divide(m1));
                proof {
                    lemma_masses_kept_step(old(world).masses@, prev, world.masses@, a.0 as int);
                }
                let ghost prev = world.masses@;
                let mb = world.mass_mut(b);
                mb.acc = mb.acc.plus(force.divide(m2));
                proof {
                    lemma_masses_kept_step(old(world).masses@, prev, world.masses@, b.0 as int);
                }
            }
        }
        j = j + 1;
    }
    let ghost f = world.masses@;
    let mut i: usize = 0;
    while i < n
        invariant
            0 <= i <= n,
            n == world.masses@.len(),
            world.wf(),
            masses_kept(old(world).masses@, world.masses@),
            world.springs@ == old(world).springs@,
            world.root == old(world).root,
            world.extensions@ == old(world).extensions@,
            world.delivered@ == old(world).delivered@,
            f.len() == n,
            world.masses@ == stepped_upto(f, i as int, timestep),
        decreases n - i,
    {
        if world.masses.contains(MassRef(i)) {
            let ghost prev = world.masses@;
            let m = world.mass_mut(MassRef(i));
            if !m.fixed {
                mass_step(m, timestep);
            }
            proof {
                lemma_masses_kept_step(old(world).masses@, prev, world.masses@, i as int);
            }
        }
        proof {
            assert(world.masses@ =~= stepped_upto(f, i + 1, timestep));
        }
        i = i + 1;
    }
}

} // verus!
