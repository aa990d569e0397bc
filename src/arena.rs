use std::marker::PhantomData;
use vstd::prelude::*;

use crate::compact::detach_mass;
use crate::compact::detached;
use crate::types::Mass;
use crate::types::Spring;

verus! {

broadcast use vstd::std_specs::vec::group_vec_axioms;

/// Index of a mass in an `Arena`, used as an opaque handle.
#[derive(Clone, Copy, Debug, PartialEq, Eq, Structural)]
pub struct MassIndex(pub u32);

/// Index of a spring in an `Arena`, used as an opaque handle.
#[derive(Clone, Copy, Debug, PartialEq, Eq, Structural)]
pub struct SpringIndex(pub u32);

/// A position in one of the arena's vectors.
pub trait ArenaIndex: Copy {
    spec fn spec_index(&self) -> nat;

    fn from_index(v: usize) -> (r: Self)
        requires
            v <= u32::MAX,
        ensures
            r.spec_index() == v,
    ;

    fn index(&self) -> (r: usize)
        ensures
            r == self.spec_index(),
    ;
}

impl ArenaIndex for MassIndex {
    open spec fn spec_index(&self) -> nat {
        self.0 as nat
    }

    fn from_index(v: usize) -> (r: MassIndex) {
        MassIndex(v as u32)
    }

    fn index(&self) -> (r: usize) {
        self.0 as usize
    }
}

impl ArenaIndex for SpringIndex {
    open spec fn spec_index(&self) -> nat {
        self.0 as nat
    }

    fn from_index(v: usize) -> (r: SpringIndex) {
        SpringIndex(v as u32)
    }

    fn index(&self) -> (r: usize) {
        self.0 as usize
    }
}

/// Called by a `ViewMut` after it adds an element and before it removes one,
/// so that whatever refers to the elements by index can follow.
pub trait AddRemoveHooks<I>: Sized {
    /// What `add_hook(i)` does to the hooks' state.
    spec fn added(old: Self, new: Self, i: I) -> bool;

    /// What `remove_hook(i)` does to the hooks' state.
    spec fn removed(old: Self, new: Self, i: I) -> bool;

    fn add_hook(&mut self, i: I)
        ensures
            Self::added(*old(self), *final(self), i),
    ;

    fn remove_hook(&mut self, i: I)
        ensures
            Self::removed(*old(self), *final(self), i),
    ;
}

/// Read-only access to one of the arena's vectors.
pub struct View<'a, I, T> {
    idx_: PhantomData<I>,
    data: &'a Vec<T>,
}

impl<'a, I: ArenaIndex, T> View<'a, I, T> {
    /// The elements in view.
    pub closed spec fn items(&self) -> Seq<T> {
        vstd::view::View::view(self.data)
    }

    pub fn index(&self, idx: I) -> (r: &T)
        requires
            idx.spec_index() < self.items().len(),
        ensures
            *r == self.items()[idx.spec_index() as int],
    {
        &self.data[idx.index()]
    }
}

/// Full access to one of the arena's vectors; changes of its length go
/// through the hooks `H`.
pub struct ViewMut<'a, I, T, H> {
    idx_: PhantomData<I>,
    data: &'a mut Vec<T>,
    hooks: H,
}

impl<'a, I: ArenaIndex, T, H: AddRemoveHooks<I>> ViewMut<'a, I, T, H> {
    /// The elements in view.
    pub closed spec fn items(&self) -> Seq<T> {
        vstd::view::View::view(&*self.data)
    }

    /// The hooks that follow the changes of length.
    pub closed spec fn hooks(&self) -> H {
        self.hooks
    }

    /// Appends `t` and returns its index.
    pub fn add(&mut self, t: T) -> (r: I)
        requires
            old(self).items().len() <= u32::MAX,
        ensures
            final(self).items() == old(self).items().push(t),
            r.spec_index() == old(self).items().len(),
            H::added(old(self).hooks(), final(self).hooks(), r),
    {
        self.data.push(t);
        let idx = self.data.len() - 1;
        let r = I::from_index(idx);
        self.hooks.add_hook(r);
        r
    }

    /// Removes the element at `idx`; those after it move down by one.
    pub fn remove(&mut self, idx: I)
        requires
            idx.spec_index() < old(self).items().len(),
        ensures
            final(self).items() == old(self).items().remove(idx.spec_index() as int),
            H::removed(old(self).hooks(), final(self).hooks(), idx),
    {
        self.hooks.remove_hook(idx);
        let _ = self.data.remove(idx.index());
    }

    pub fn index(&self, idx: I) -> (r: &T)
        requires
            idx.spec_index() < self.items().len(),
        ensures
            *r == self.items()[idx.spec_index() as int],
    {
        &self.data[idx.index()]
    }

    pub fn index_mut(&mut self, idx: I) -> (r: &mut T)
        requires
            idx.spec_index() < old(self).items().len(),
        ensures
            *r == old(self).items()[idx.spec_index() as int],
            final(self).items() == old(self).items().update(idx.spec_index() as int, *final(r)),
    {
        &mut self.data[idx.index()]
    }
}

/// The hooks of the mass vector: removing a mass detaches the springs from it.
pub struct MassHooks<'a, U> {
    springs: &'a mut Vec<Spring<MassIndex, U>>,
}

impl<'a, U> MassHooks<'a, U> {
    /// The springs that the hooks keep consistent.
    pub closed spec fn springs_view(&self) -> Seq<Spring<MassIndex, U>> {
        vstd::view::View::view(&*self.springs)
    }
}

impl<'a, U> AddRemoveHooks<MassIndex> for MassHooks<'a, U> {
    open spec fn added(old: Self, new: Self, i: MassIndex) -> bool {
        new.springs_view() == old.springs_view()
    }

    open spec fn removed(old: Self, new: Self, mi: MassIndex) -> bool {
        new.springs_view() == detached(old.springs_view(), mi)
    }

    fn add_hook(&mut self, i: MassIndex) {
    }

    fn remove_hook(&mut self, mi: MassIndex) {
        detach_mass(&mut *self.springs, mi);
    }
}

/// The hooks of the spring vector: nothing refers to springs by index.
pub struct SpringHooks;

impl AddRemoveHooks<SpringIndex> for SpringHooks {
    open spec fn added(old: Self, new: Self, i: SpringIndex) -> bool {
        true
    }

    open spec fn removed(old: Self, new: Self, i: SpringIndex) -> bool {
        true
    }

    fn add_hook(&mut self, i: SpringIndex) {
    }

    fn remove_hook(&mut self, i: SpringIndex) {
    }
}

/// Mass and spring data kept densely in two vectors; the views keep the
/// springs' indices into the masses consistent.
pub struct Arena<V, U> {
    masses_vec: Vec<Mass<V, U>>,
    springs_vec: Vec<Spring<MassIndex, U>>,
}

impl<V, U> Arena<V, U> {
    pub closed spec fn mass_items(&self) -> Seq<Mass<V, U>> {
        vstd::view::View::view(&self.masses_vec)
    }

    pub closed spec fn spring_items(&self) -> Seq<Spring<MassIndex, U>> {
        vstd::view::View::view(&self.springs_vec)
    }

    pub fn new() -> (r: Arena<V, U>)
        ensures
            r.mass_items().len() == 0,
            r.spring_items().len() == 0,
    {
        Arena { masses_vec: Vec::new(), springs_vec: Vec::new() }
    }

    pub fn masses<'a>(&'a self) -> (r: View<'a, MassIndex, Mass<V, U>>)
        ensures
            r.items() == self.mass_items(),
    {
        View { idx_: PhantomData, data: &self.masses_vec }
    }

    pub fn masses_mut<'a>(&'a mut self) -> (r: ViewMut<'a, MassIndex, Mass<V, U>, MassHooks<'a, U>>)
        ensures
            r.items() == old(self).mass_items(),
            r.hooks().springs_view() == old(self).spring_items(),
    {
        ViewMut {
            idx_: PhantomData,
            data: &mut self.masses_vec,
            hooks: MassHooks { springs: &mut self.springs_vec },
        }
    }

    /// Appends `m` and returns its index.
    pub fn add_mass(&mut self, m: Mass<V, U>) -> (r: MassIndex)
        requires
            old(self).mass_items().len() <= u32::MAX,
        ensures
            final(self).mass_items() == old(self).mass_items().push(m),
            final(self).spring_items() == old(self).spring_items(),
            r.spec_index() == old(self).mass_items().len(),
    {
        self.masses_vec.push(m);
        MassIndex::from_index(self.masses_vec.len() - 1)
    }

    /// Appends `s` and returns its index.
    pub fn add_spring(&mut self, s: Spring<MassIndex, U>) -> (r: SpringIndex)
        requires
            old(self).spring_items().len() <= u32::MAX,
        ensures
            final(self).spring_items() == old(self).spring_items().push(s),
            final(self).mass_items() == old(self).mass_items(),
            r.spec_index() == old(self).spring_items().len(),
    {
        self.springs_vec.push(s);
        SpringIndex::from_index(self.springs_vec.len() - 1)
    }

    /// Removes the mass at `mi`, the springs attached to it, and moves every
    /// index above `mi` down by one.
    pub fn remove_mass(&mut self, mi: MassIndex)
        requires
            mi.spec_index() < old(self).mass_items().len(),
        ensures
            final(self).mass_items() == old(self).mass_items().remove(mi.spec_index() as int),
            final(self).spring_items() == detached(old(self).spring_items(), mi),
    {
        detach_mass(&mut self.springs_vec, mi);
        let _ = self.masses_vec.remove(mi.index());
    }

    /// Removes the spring at `si`; those after it move down by one.
    pub fn remove_spring(&mut self, si: SpringIndex)
        requires
            si.spec_index() < old(self).spring_items().len(),
        ensures
            final(self).spring_items() == old(self).spring_items().remove(si.spec_index() as int),
            final(self).mass_items() == old(self).mass_items(),
    {
        let _ = self.springs_vec.remove(si.index());
    }

    /// Runs `f` on the two vectors at once.
    pub fn with_mut<F, R>(&mut self, f: F) -> (r: R)
        where
            F: FnOnce(&mut [Mass<V, U>], &mut [Spring<MassIndex, U>]) -> R,
        requires
            forall|m: &mut [Mass<V, U>], s: &mut [Spring<MassIndex, U>]| f.requires((m, s)),
        ensures
            exists|m: &mut [Mass<V, U>], s: &mut [Spring<MassIndex, U>]|
                {
                    &&& vstd::view::View::view(&*m) == old(self).mass_items()
                    &&& vstd::view::View::view(&*s) == old(self).spring_items()
                    &&& vstd::view::View::view(&*final(m)) == final(self).mass_items()
                    &&& vstd::view::View::view(&*final(s)) == final(self).spring_items()
                    &&& #[trigger] f.ensures((m, s), r)
                },
    {
        let m = self.masses_vec.as_mut_slice();
        let s = self.springs_vec.as_mut_slice();
        let r = f(m, s);
        r
    }

    pub fn springs<'a>(&'a self) -> (r: View<'a, SpringIndex, Spring<MassIndex, U>>)
        ensures
            r.items() == self.spring_items(),
    {
        View { idx_: PhantomData, data: &self.springs_vec }
    }

    pub fn springs_mut<'a>(&'a mut self) -> (r: ViewMut<'a, SpringIndex, Spring<MassIndex, U>, SpringHooks>)
        ensures
            r.items() == old(self).spring_items(),
    {
        ViewMut { idx_: PhantomData, data: &mut self.springs_vec, hooks: SpringHooks }
    }
}

} // verus!
