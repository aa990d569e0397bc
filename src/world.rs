use std::marker::PhantomData;
use vstd::prelude::*;

use crate::assembly::occurrences;
use crate::assembly::spring_touches;
use crate::assembly::lemma_occurrences_index;
use crate::assembly::is_mass;
use crate::assembly::is_spring;
use crate::assembly::no_mass;
use crate::assembly::no_spring;
use crate::assembly::touching;
use crate::assembly::Assembly;
use crate::types::Mass;
use crate::types::Spring;

verus! {

broadcast use vstd::std_specs::vec::group_vec_axioms;

/// A handle type: a thin wrapper around a slot number.
pub trait Id: Sized + Copy {
    spec fn spec_id(&self) -> usize;

    fn from_id(v: usize) -> (r: Self)
        ensures
            r.spec_id() == v,
    ;

    fn id(&self) -> (r: usize)
        ensures
            r == self.spec_id(),
    ;
}

/// Handle of a mass.
#[derive(Clone, Copy, Debug, PartialEq, Eq, Structural)]
pub struct MassRef(pub usize);

/// Handle of a spring.
#[derive(Clone, Copy, Debug, PartialEq, Eq, Structural)]
pub struct SpringRef(pub usize);

impl Id for MassRef {
    open spec fn spec_id(&self) -> usize {
        self.0
    }

    fn from_id(v: usize) -> (r: MassRef) {
        MassRef(v)
    }

    fn id(&self) -> (r: usize) {
        self.0
    }
}

impl Id for SpringRef {
    open spec fn spec_id(&self) -> usize {
        self.0
    }

    fn from_id(v: usize) -> (r: SpringRef) {
        SpringRef(v)
    }

    fn id(&self) -> (r: usize) {
        self.0
    }
}

/// Whether slot `i` of `s` holds a value.
pub open spec fn is_live<T>(s: Seq<Option<T>>, i: int) -> bool {
    0 <= i < s.len() && s[i] is Some
}

/// Number of occupied slots.
pub open spec fn live_count<T>(s: Seq<Option<T>>) -> nat
    decreases s.len(),
{
    if s.len() == 0 {
        0
    } else {
        live_count(s.drop_last()) + if s.last() is Some { 1nat } else { 0nat }
    }
}

/// The slot that an insertion fills: the lowest empty one, or a new one at the end.
pub open spec fn first_hole<T>(s: Seq<Option<T>>, i: int) -> bool {
    &&& 0 <= i <= s.len()
    &&& i < s.len() ==> s[i] is None
    &&& forall|j: int| 0 <= j < i ==> #[trigger] s[j] is Some
}

/// The slots after inserting `v` into slot `i`.
pub open spec fn inserted<T>(s: Seq<Option<T>>, i: int, v: T) -> Seq<Option<T>> {
    if i < s.len() {
        s.update(i, Some(v))
    } else {
        s.push(Some(v))
    }
}

/// Indices of the occupied slots, in ascending order.
pub open spec fn live_ids<T>(s: Seq<Option<T>>) -> Seq<int>
    decreases s.len(),
{
    if s.len() == 0 {
        Seq::empty()
    } else if s.last() is Some {
        live_ids(s.drop_last()).push(s.len() - 1)
    } else {
        live_ids(s.drop_last())
    }
}

/// Filling or emptying one slot changes the number of occupied slots by one.
pub proof fn lemma_live_count_update<T>(s: Seq<Option<T>>, i: int, v: Option<T>)
    requires
        0 <= i < s.len(),
    ensures
        live_count(s.update(i, v)) + (if s[i] is Some { 1nat } else { 0nat })
            == live_count(s) + (if v is Some { 1nat } else { 0nat }),
    decreases s.len(),
{
    let t = s.update(i, v);
    if i == s.len() - 1 {
        assert(t.drop_last() =~= s.drop_last());
    } else {
        assert(t.drop_last() =~= s.drop_last().update(i, v));
        lemma_live_count_update(s.drop_last(), i, v);
    }
}

/// One call on a store: `add` of a value, or `remove` of a slot.
pub enum SlotOp<T> {
    Add(T),
    Remove(usize),
}

/// `after` is what `op` leaves of `before`, as `add` and `remove` state it.
pub open spec fn slot_step<T>(before: Seq<Option<T>>, op: SlotOp<T>, after: Seq<Option<T>>) -> bool {
    match op {
        SlotOp::Add(v) => exists|i: int| first_hole(before, i) && after == #[trigger] inserted(before, i, v),
        SlotOp::Remove(i) => i < before.len() && after == before.update(i as int, None),
    }
}

/// Number of insertions among `ops`.
pub open spec fn count_adds<T>(ops: Seq<SlotOp<T>>) -> nat
    decreases ops.len(),
{
    if ops.len() == 0 {
        0
    } else {
        count_adds(ops.drop_last()) + if ops.last() is Add { 1nat } else { 0nat }
    }
}

/// Number of removals among `ops` that emptied an occupied slot.
pub open spec fn count_removals<T>(states: Seq<Seq<Option<T>>>, ops: Seq<SlotOp<T>>) -> nat
    decreases ops.len(),
{
    if ops.len() == 0 {
        0
    } else {
        count_removals(states, ops.drop_last()) + match ops.last() {
            SlotOp::Remove(i) => if is_live(states[ops.len() - 1], i as int) { 1nat } else { 0nat },
            SlotOp::Add(_) => 0nat,
        }
    }
}

/// The largest number of occupied slots over a run of states.
pub open spec fn max_live<T>(states: Seq<Seq<Option<T>>>) -> nat
    decreases states.len(),
{
    if states.len() == 0 {
        0
    } else {
        let m = max_live(states.drop_last());
        let l = live_count(states.last());
        if m >= l { m } else { l }
    }
}

/// A store with an empty slot has fewer occupied slots than slots.
proof fn lemma_live_count_hole<T>(s: Seq<Option<T>>, i: int)
    requires
        0 <= i < s.len(),
        s[i] is None,
    ensures
        live_count(s) < s.len(),
    decreases s.len(),
{
    if i == s.len() - 1 {
        lemma_live_count_bound(s.drop_last());
    } else {
        lemma_live_count_hole(s.drop_last(), i);
    }
}

/// A store without empty slots has all its slots occupied.
proof fn lemma_live_count_full<T>(s: Seq<Option<T>>)
    requires
        forall|j: int| 0 <= j < s.len() ==> #[trigger] s[j] is Some,
    ensures
        live_count(s) == s.len(),
    decreases s.len(),
{
    if s.len() > 0 {
        assert forall|j: int| 0 <= j < s.drop_last().len() implies #[trigger] s.drop_last()[j] is Some by {
            assert(s[j] is Some);
        }
        lemma_live_count_full(s.drop_last());
        assert(s[s.len() - 1] is Some);
    }
}

/// Starting from an empty store, after any run of `add` and `remove` the
/// number of occupied slots is the number of insertions less the number of
/// removals that emptied a slot, and the store never holds more slots than
/// there were insertions: a freed slot is filled before the store grows, so
/// the number of slots is the largest number of values held at any time.
pub proof fn lemma_arena_density<T>(states: Seq<Seq<Option<T>>>, ops: Seq<SlotOp<T>>)
    requires
        states.len() == ops.len() + 1,
        states[0].len() == 0,
        forall|k: int| 0 <= k < ops.len() ==> slot_step(#[trigger] states[k], ops[k], states[k + 1]),
    ensures
        live_count(states.last()) + count_removals(states, ops) == count_adds(ops),
        states.last().len() <= count_adds(ops),
        states.last().len() - live_count(states.last()) <= count_removals(states, ops),
        states.last().len() == max_live(states),
    decreases ops.len(),
{
    if ops.len() > 0 {
        let k = ops.len() - 1;
        let pre = states.subrange(0, k + 1);
        assert forall|j: int| 0 <= j < ops.drop_last().len() implies slot_step(
            #[trigger] pre[j],
            ops.drop_last()[j],
            pre[j + 1],
        ) by {
            assert(slot_step(states[j], ops[j], states[j + 1]));
        }
        lemma_arena_density(pre, ops.drop_last());
        assert(count_removals(pre, ops.drop_last()) == count_removals(states, ops.drop_last())) by {
            lemma_count_removals_prefix(states, pre, ops.drop_last());
        }
        let b = states[k];
        let a = states[k + 1];
        assert(slot_step(b, ops[k], a));
        assert(states.drop_last() =~= pre);
        assert(pre.last() == b);
        assert(max_live(states) == if max_live(pre) >= live_count(a) { max_live(pre) } else { live_count(a) });
        lemma_live_count_bound(b);
        lemma_live_count_bound(a);
        match ops[k] {
            SlotOp::Add(v) => {
                let i = choose|i: int| first_hole(b, i) && a == #[trigger] inserted(b, i, v);
                if i < b.len() {
                    lemma_live_count_update(b, i, Some(v));
                } else {
                    assert(a.drop_last() =~= b);
                }
                if i < b.len() {
                    assert(b[i] is None);
                    lemma_live_count_hole(b, i);
                    assert(live_count(a) == live_count(b) + 1);
                    assert(a.len() == b.len());
                } else {
                    lemma_live_count_full(b);
                    assert(live_count(a) == live_count(b) + 1);
                }
                assert(a.len() == max_live(states));
            },
            SlotOp::Remove(i) => {
                lemma_live_count_update(b, i as int, None);
                assert(a.len() == b.len());
                assert(a.len() == max_live(states));
            },
        }
    } else {
        assert(states.drop_last().len() == 0);
        assert(live_count(states[0]) == 0);
        assert(states.last() == states[0]);
        assert(max_live(states.drop_last()) == 0);
    }
}

/// Removals counted over a prefix of the states are counted the same.
proof fn lemma_count_removals_prefix<T>(states: Seq<Seq<Option<T>>>, pre: Seq<Seq<Option<T>>>, ops: Seq<SlotOp<T>>)
    requires
        pre.len() <= states.len(),
        ops.len() < pre.len(),
        forall|j: int| 0 <= j < pre.len() ==> #[trigger] pre[j] == states[j],
    ensures
        count_removals(pre, ops) == count_removals(states, ops),
    decreases ops.len(),
{
    if ops.len() > 0 {
        lemma_count_removals_prefix(states, pre, ops.drop_last());
    }
}

/// No more slots are occupied than there are.
pub proof fn lemma_live_count_bound<T>(s: Seq<Option<T>>)
    ensures
        live_count(s) <= s.len(),
    decreases s.len(),
{
    if s.len() > 0 {
        lemma_live_count_bound(s.drop_last());
    }
}

/// Mutable references to the values of `s`, with the handles of their slots
/// counted from `base`, in ascending slot order.
fn collect_live<'a, T, R: Id>(s: &'a mut [Option<T>], base: usize) -> (r: Vec<(R, &'a mut T)>)
    requires
        base + old(s)@.len() <= usize::MAX,
    ensures
        r@.len() == live_ids(old(s)@).len(),
        forall|k: int| 0 <= k < r@.len() ==> #[trigger] r@[k].0.spec_id() == base + live_ids(old(s)@)[k],
        forall|k: int| 0 <= k < r@.len() ==> old(s)@[live_ids(old(s)@)[k]] == Some(*(#[trigger] r@[k]).1),
        final(s)@.len() == old(s)@.len(),
        forall|i: int|
            0 <= i < old(s)@.len() ==> #[trigger] final(s)@[i] == if old(s)@[i] is Some {
                Some(*final(r@[live_count(old(s)@.subrange(0, i)) as int].1))
            } else {
                None
            },
    decreases old(s)@.len(),
{
    let ghost s0 = s@;
    let n = s.len();
    if n == 0 {
        return Vec::new();
    }
    let (init, last) = s.split_at_mut(n - 1);
    let ghost init0 = init@;
    proof {
        assert(init0 =~= s0.drop_last());
    }
    let mut r = collect_live(init, base);
    let ghost r0 = r@;
    let slot = last.first_mut().unwrap();
    match slot.as_mut() {
        Some(t) => {
            proof {
                assert(s0[n - 1] == Some(*t));
            }
            let h = R::from_id(base + n - 1);
            r.push((h, t));
            proof {
                assert(s0.drop_last() == init0);
                assert(live_ids(s0) == live_ids(init0).push(n - 1));
                assert(r@[r0.len() as int].0.spec_id() == base + live_ids(s0)[r0.len() as int]);
                assert(s0[live_ids(s0)[r0.len() as int]] == Some(*r@[r0.len() as int].1));
            }
        },
        None => {},
    }
    proof {
        lemma_live_ids_len(init0);
        assert forall|i: int| 0 <= i < n - 1 implies #[trigger] s0.subrange(0, i) == init0.subrange(0, i) by {
            assert(s0.subrange(0, i) =~= init0.subrange(0, i));
        }
        assert forall|i: int| 0 <= i < n - 1 && s0[i] is Some implies live_count(s0.subrange(0, i)) < r0.len() by {
            assert(s0.subrange(0, i) == init0.subrange(0, i));
            lemma_live_count_prefix(init0, i + 1);
            assert(init0.subrange(0, i + 1).drop_last() =~= init0.subrange(0, i));
            assert(init0.subrange(0, i + 1).last() == s0[i]);
        }
        assert(s0.subrange(0, n - 1) =~= init0);
        lemma_live_ids_range(init0);
        assert forall|k: int| 0 <= k < r@.len() implies #[trigger] r@[k].0.spec_id() == base + live_ids(s0)[k]
            && s0[live_ids(s0)[k]] == Some(*r@[k].1) by {
            if k < r0.len() {
                assert(r@[k] == r0[k]);
                assert(live_ids(s0)[k] == live_ids(init0)[k]);
                assert(s0[live_ids(init0)[k]] == init0[live_ids(init0)[k]]);
                assert(r0[k].0.spec_id() == base + live_ids(init0)[k]);
                assert(init0[live_ids(init0)[k]] == Some(*r0[k].1));
            }
        }
        assert(s0 == old(s)@);
    }
    r
}

/// The listed slots are slots of `s`.
proof fn lemma_live_ids_range<T>(s: Seq<Option<T>>)
    ensures
        forall|k: int| 0 <= k < live_ids(s).len() ==> 0 <= #[trigger] live_ids(s)[k] < s.len(),
    decreases s.len(),
{
    if s.len() > 0 {
        lemma_live_ids_range(s.drop_last());
        let p = live_ids(s.drop_last());
        assert forall|k: int| 0 <= k < live_ids(s).len() implies 0 <= #[trigger] live_ids(s)[k] < s.len() by {
            if k < p.len() {
                assert(live_ids(s)[k] == p[k]);
            }
        }
    }
}

/// The occupied slots are listed once each.
proof fn lemma_live_ids_len<T>(s: Seq<Option<T>>)
    ensures
        live_ids(s).len() == live_count(s),
    decreases s.len(),
{
    if s.len() > 0 {
        lemma_live_ids_len(s.drop_last());
    }
}

/// A prefix has no more occupied slots than the whole.
proof fn lemma_live_count_prefix<T>(s: Seq<Option<T>>, j: int)
    requires
        0 <= j <= s.len(),
    ensures
        live_count(s.subrange(0, j)) <= live_count(s),
    decreases s.len(),
{
    if j == s.len() {
        assert(s.subrange(0, j) =~= s);
    } else {
        assert(s.subrange(0, j) =~= s.drop_last().subrange(0, j));
        lemma_live_count_prefix(s.drop_last(), j);
    }
}

/// A store of values addressed by handles of type `R`. Removing a value
/// leaves a hole that the next insertion fills.
pub struct OptionalVec<T, R> {
    _id_ty: PhantomData<R>,
    vec: Vec<Option<T>>,
}

impl<T, R> View for OptionalVec<T, R> {
    type V = Seq<Option<T>>;

    closed spec fn view(&self) -> Seq<Option<T>> {
        self.vec@
    }
}

impl<T, R: Id> OptionalVec<T, R> {
    pub fn new() -> (r: OptionalVec<T, R>)
        ensures
            r@ == Seq::<Option<T>>::empty(),
    {
        OptionalVec { _id_ty: PhantomData, vec: Vec::new() }
    }

    /// Stores `nt` in the lowest empty slot, or in a new slot at the end.
    pub fn add(&mut self, nt: T) -> (r: R)
        requires
            old(self)@.len() < usize::MAX,
        ensures
            first_hole(old(self)@, r.spec_id() as int),
            final(self)@ == inserted(old(self)@, r.spec_id() as int, nt),
            live_count(final(self)@) == live_count(old(self)@) + 1,
    {
        let n = self.vec.len();
        let mut i: usize = 0;
        while i < n
            invariant
                n == self.vec@.len(),
                self.vec@ == old(self).vec@,
                0 <= i <= n,
                forall|j: int| 0 <= j < i ==> #[trigger] self.vec@[j] is Some,
            decreases n - i,
        {
            if self.vec[i].is_none() {
                proof {
                    lemma_live_count_update(self.vec@, i as int, Some(nt));
                }
                self.vec[i] = Some(nt);
                return R::from_id(i);
            }
            i = i + 1;
        }
        self.vec.push(Some(nt));
        proof {
            assert(self.vec@.drop_last() =~= old(self).vec@);
        }
        R::from_id(n)
    }

    /// Empties the slot of `r`.
    pub fn remove(&mut self, r: R)
        requires
            r.spec_id() < old(self)@.len(),
        ensures
            final(self)@ == old(self)@.update(r.spec_id() as int, None),
            live_count(final(self)@) + (if is_live(old(self)@, r.spec_id() as int) { 1nat } else { 0nat })
                == live_count(old(self)@),
    {
        proof {
            lemma_live_count_update(self.vec@, r.spec_id() as int, None);
        }
        let i = r.id();
        self.vec[i] = None;
    }

    pub fn index(&self, r: R) -> (t: &T)
        requires
            is_live(self@, r.spec_id() as int),
        ensures
            Some(*t) == self@[r.spec_id() as int],
    {
        let i = r.id();
        self.vec[i].as_ref().unwrap()
    }

    pub fn index_mut(&mut self, r: R) -> (t: &mut T)
        requires
            is_live(old(self)@, r.spec_id() as int),
        ensures
            Some(*t) == old(self)@[r.spec_id() as int],
            final(self)@ == old(self)@.update(r.spec_id() as int, Some(*final(t))),
    {
        let i = r.id();
        self.vec[i].as_mut().unwrap()
    }

    /// The occupied slots with their handles, in ascending slot order.
    pub fn iter(&self) -> (r: Vec<(R, &T)>)
        ensures
            r@.len() == live_ids(self@).len(),
            forall|k: int|
                0 <= k < r@.len() ==> {
                    &&& #[trigger] r@[k].0.spec_id() == live_ids(self@)[k]
                    &&& self@[live_ids(self@)[k]] == Some(*r@[k].1)
                },
    {
        let mut r: Vec<(R, &T)> = Vec::new();
        let n = self.vec.len();
        let mut i: usize = 0;
        while i < n
            invariant
                n == self.vec@.len(),
                0 <= i <= n,
                r@.len() == live_ids(self@.subrange(0, i as int)).len(),
                forall|k: int|
                    0 <= k < r@.len() ==> {
                        &&& #[trigger] r@[k].0.spec_id() == live_ids(self@.subrange(0, i as int))[k]
                        &&& self@[live_ids(self@.subrange(0, i as int))[k]] == Some(*r@[k].1)
                    },
            decreases n - i,
        {
            proof {
                assert(self@.subrange(0, i + 1).drop_last() =~= self@.subrange(0, i as int));
            }
            match &self.vec[i] {
                Some(t) => {
                    r.push((R::from_id(i), t));
                },
                None => {},
            }
            i = i + 1;
        }
        proof {
            assert(self@.subrange(0, n as int) =~= self@);
        }
        r
    }

    /// Mutable references to the values, with their handles, in ascending
    /// slot order.
    pub fn iter_mut(&mut self) -> (r: Vec<(R, &mut T)>)
        ensures
            r@.len() == live_ids(old(self)@).len(),
            forall|k: int|
                0 <= k < r@.len() ==> {
                    &&& #[trigger] r@[k].0.spec_id() == live_ids(old(self)@)[k]
                    &&& old(self)@[live_ids(old(self)@)[k]] == Some(*r@[k].1)
                },
            final(self)@.len() == old(self)@.len(),
            forall|i: int|
                0 <= i < old(self)@.len() ==> #[trigger] final(self)@[i] == if old(self)@[i] is Some {
                    Some(*final(r@[live_count(old(self)@.subrange(0, i)) as int].1))
                } else {
                    None
                },
    {
        proof {
            self.lemma_len_bound();
        }
        collect_live(self.vec.as_mut_slice(), 0)
    }

    /// Whether the slot of `r` holds a value.
    pub fn contains(&self, r: R) -> (b: bool)
        ensures
            b == is_live(self@, r.spec_id() as int),
    {
        let i = r.id();
        i < self.vec.len() && self.vec[i].is_some()
    }

    pub proof fn lemma_len_bound(&self)
        ensures
            self@.len() <= usize::MAX,
    {
        assert(self.vec.len() == self.vec@.len());
    }

    pub fn len(&self) -> (n: usize)
        ensures
            n == self@.len(),
    {
        self.vec.len()
    }
}

/// A structural change that extensions are told of.
#[derive(Clone, Copy, Debug, PartialEq, Eq, Structural)]
pub enum Notification {
    AddMass(MassRef),
    DeleteMass(MassRef),
    AddSpring(SpringRef),
    DeleteSpring(SpringRef),
}

/// A subsystem kept in step with the world's structure (a selection set,
/// muscles, constraints). Each hook is called once for each change, after
/// an insertion and before the slot of a deleted entity is freed.
pub trait Extension<U> {
    fn add_mass(&mut self, mr: MassRef);

    fn delete_mass(&mut self, mr: MassRef);

    fn add_spring(&mut self, sr: SpringRef);

    fn delete_spring(&mut self, sr: SpringRef);

    /// Called just before a tick of length `timestep`.
    fn pre_tick(&mut self, timestep: U) {
    }

    /// Called just after a tick of length `timestep`.
    fn post_tick(&mut self, timestep: U) {
    }
}

/// One notification handed to each of `n` extensions, in registration order.
pub open spec fn broadcast_to(n: nat, note: Notification) -> Seq<(int, Notification)> {
    Seq::new(n, |i: int| (i, note))
}

/// The deletion notices for `removed`, in that order, each handed to `n` extensions.
pub open spec fn spring_deletions(removed: Seq<SpringRef>, n: nat) -> Seq<(int, Notification)>
    decreases removed.len(),
{
    if removed.len() == 0 {
        Seq::empty()
    } else {
        spring_deletions(removed.drop_last(), n) + broadcast_to(n, Notification::DeleteSpring(removed.last()))
    }
}

/// The masses, the springs, the tree of assemblies that groups them, and the
/// extensions that follow every structural change.
pub struct World<V, U, E> {
    pub masses: OptionalVec<Mass<V, U>, MassRef>,
    pub springs: OptionalVec<Spring<MassRef, U>, SpringRef>,
    /// Each live mass and spring is registered exactly once in this tree.
    pub root: Assembly,
    pub extensions: Vec<E>,
    /// Every notification handed out so far, with the index of the extension
    /// that received it.
    pub delivered: Ghost<Seq<(int, Notification)>>,
}

impl<V, U: Copy, E: Extension<U>> World<V, U, E> {
    /// Each live handle is registered in exactly one place of the tree, no
    /// other handle is registered, and every live spring joins live masses.
    pub open spec fn wf(&self) -> bool {
        &&& forall|m: MassRef|
            #[trigger] self.root.mass_count(m) == if is_live(self.masses@, m.0 as int) { 1nat } else { 0nat }
        &&& forall|sr: SpringRef|
            #[trigger] self.root.spring_count(sr) == if is_live(self.springs@, sr.0 as int) { 1nat } else { 0nat }
        &&& forall|i: int| #[trigger] is_live(self.springs@, i) ==> {
            &&& is_live(self.masses@, self.springs@[i]->Some_0.endpoints[0].0 as int)
            &&& is_live(self.masses@, self.springs@[i]->Some_0.endpoints[1].0 as int)
        }
    }

    pub fn new() -> (w: World<V, U, E>)
        ensures
            w.wf(),
            w.masses@.len() == 0,
            w.springs@.len() == 0,
            w.root.masses@.len() == 0,
            w.root.springs@.len() == 0,
            w.root.subassemblies@.len() == 0,
            w.extensions@.len() == 0,
            w.delivered@.len() == 0,
    {
        World {
            masses: OptionalVec::new(),
            springs: OptionalVec::new(),
            root: Assembly::new(String::from_str("$root_assembly")),
            extensions: Vec::new(),
            delivered: Ghost(Seq::empty()),
        }
    }

    /// Stores `mass`, registers it in the node at `path` and tells the
    /// extensions; `path` must lead to a node.
    fn insert_mass_at(&mut self, mass: Mass<V, U>, path: &[usize]) -> (r: MassRef)
        requires
            old(self).wf(),
            old(self).masses@.len() < usize::MAX,
            old(self).root.valid_path(path@),
        ensures
            final(self).wf(),
            first_hole(old(self).masses@, r.0 as int),
            final(self).masses@ == inserted(old(self).masses@, r.0 as int, mass),
            final(self).springs@ == old(self).springs@,
            Assembly::mass_added_at(old(self).root, final(self).root, path@, r),
            final(self).delivered@ == old(self).delivered@ + broadcast_to(
                old(self).extensions@.len(),
                Notification::AddMass(r),
            ),
            final(self).extensions@.len() == old(self).extensions@.len(),
    {
        let ret: MassRef = self.masses.add(mass);
        let _ = self.root.add_mass_to(ret, path);
        proof {
            Assembly::lemma_mass_added_at(old(self).root, self.root, path@, ret);
            assert forall|m: MassRef|
                #[trigger] self.root.mass_count(m) == if is_live(self.masses@, m.0 as int) { 1nat } else { 0nat } by {
                if m.0 == ret.0 {
                    assert(m == ret);
                }
            }
            assert forall|i: int| #[trigger] is_live(self.springs@, i) implies {
                &&& is_live(self.masses@, self.springs@[i]->Some_0.endpoints[0].0 as int)
                &&& is_live(self.masses@, self.springs@[i]->Some_0.endpoints[1].0 as int)
            } by {
                assert(is_live(old(self).springs@, i));
            }
        }
        self.notify(Notification::AddMass(ret));
        ret
    }

    /// Stores `mass`, registers it in the root assembly and tells the extensions.
    pub fn add_mass(&mut self, mass: Mass<V, U>) -> (r: MassRef)
        requires
            old(self).wf(),
            old(self).masses@.len() < usize::MAX,
        ensures
            final(self).wf(),
            first_hole(old(self).masses@, r.0 as int),
            final(self).masses@ == inserted(old(self).masses@, r.0 as int, mass),
            final(self).springs@ == old(self).springs@,
            Assembly::mass_added_at(old(self).root, final(self).root, Seq::empty(), r),
            final(self).delivered@ == old(self).delivered@ + broadcast_to(
                old(self).extensions@.len(),
                Notification::AddMass(r),
            ),
            final(self).extensions@.len() == old(self).extensions@.len(),
    {
        let path: [usize; 0] = [];
        proof {
            assert(path@ =~= Seq::<usize>::empty());
        }
        self.insert_mass_at(mass, &path)
    }

    /// As `add_mass`, into the node at `path`; `None`, with nothing stored or
    /// changed, if `path` leads to no node.
    pub fn add_mass_to(&mut self, mass: Mass<V, U>, path: &[usize]) -> (r: Option<MassRef>)
        requires
            old(self).wf(),
            old(self).masses@.len() < usize::MAX,
        ensures
            final(self).wf(),
            r is Some <==> old(self).root.valid_path(path@),
            r is None ==> *final(self) == *old(self),
            r matches Some(h) ==> {
                &&& first_hole(old(self).masses@, h.0 as int)
                &&& final(self).masses@ == inserted(old(self).masses@, h.0 as int, mass)
                &&& final(self).springs@ == old(self).springs@
                &&& Assembly::mass_added_at(old(self).root, final(self).root, path@, h)
                &&& final(self).delivered@ == old(self).delivered@ + broadcast_to(
                    old(self).extensions@.len(),
                    Notification::AddMass(h),
                )
                &&& final(self).extensions@.len() == old(self).extensions@.len()
            },
    {
        if self.root.check_path(path) {
            Some(self.insert_mass_at(mass, path))
        } else {
            None
        }
    }

    /// Stores `spring`, registers it in the node at `path` and tells the
    /// extensions; `path` must lead to a node.
    fn insert_spring_at(&mut self, spring: Spring<MassRef, U>, path: &[usize]) -> (r: SpringRef)
        requires
            old(self).wf(),
            old(self).springs@.len() < usize::MAX,
            old(self).root.valid_path(path@),
            is_live(old(self).masses@, spring.endpoints[0].0 as int),
            is_live(old(self).masses@, spring.endpoints[1].0 as int),
        ensures
            final(self).wf(),
            first_hole(old(self).springs@, r.0 as int),
            final(self).springs@ == inserted(old(self).springs@, r.0 as int, spring),
            final(self).masses@ == old(self).masses@,
            Assembly::spring_added_at(old(self).root, final(self).root, path@, r),
            final(self).delivered@ == old(self).delivered@ + broadcast_to(
                old(self).extensions@.len(),
                Notification::AddSpring(r),
            ),
            final(self).extensions@.len() == old(self).extensions@.len(),
    {
        let ghost sp = spring;
        let ret: SpringRef = self.springs.add(spring);
        let _ = self.root.add_spring_to(ret, path);
        proof {
            Assembly::lemma_spring_added_at(old(self).root, self.root, path@, ret);
            assert forall|x: SpringRef|
                #[trigger] self.root.spring_count(x) == if is_live(self.springs@, x.0 as int) { 1nat } else { 0nat } by {
                if x.0 == ret.0 {
                    assert(x == ret);
                }
            }
            assert forall|i: int| #[trigger] is_live(self.springs@, i) implies {
                &&& is_live(self.masses@, self.springs@[i]->Some_0.endpoints[0].0 as int)
                &&& is_live(self.masses@, self.springs@[i]->Some_0.endpoints[1].0 as int)
            } by {
                if i != ret.0 {
                    assert(is_live(old(self).springs@, i));
                } else {
                    assert(self.springs@[i]->Some_0 == sp);
                }
            }
        }
        self.notify(Notification::AddSpring(ret));
        ret
    }

    /// Stores `spring`, registers it in the root assembly and tells the
    /// extensions. Both ends must be live masses.
    pub fn add_spring(&mut self, spring: Spring<MassRef, U>) -> (r: SpringRef)
        requires
            old(self).wf(),
            old(self).springs@.len() < usize::MAX,
            is_live(old(self).masses@, spring.endpoints[0].0 as int),
            is_live(old(self).masses@, spring.endpoints[1].0 as int),
        ensures
            final(self).wf(),
            first_hole(old(self).springs@, r.0 as int),
            final(self).springs@ == inserted(old(self).springs@, r.0 as int, spring),
            final(self).masses@ == old(self).masses@,
            Assembly::spring_added_at(old(self).root, final(self).root, Seq::empty(), r),
            final(self).delivered@ == old(self).delivered@ + broadcast_to(
                old(self).extensions@.len(),
                Notification::AddSpring(r),
            ),
            final(self).extensions@.len() == old(self).extensions@.len(),
    {
        let path: [usize; 0] = [];
        proof {
            assert(path@ =~= Seq::<usize>::empty());
        }
        self.insert_spring_at(spring, &path)
    }

    /// As `add_spring`, into the node at `path`; `None`, with nothing stored
    /// or changed, if `path` leads to no node.
    pub fn add_spring_to(&mut self, spring: Spring<MassRef, U>, path: &[usize]) -> (r: Option<SpringRef>)
        requires
            old(self).wf(),
            old(self).springs@.len() < usize::MAX,
            is_live(old(self).masses@, spring.endpoints[0].0 as int),
            is_live(old(self).masses@, spring.endpoints[1].0 as int),
        ensures
            final(self).wf(),
            r is Some <==> old(self).root.valid_path(path@),
            r is None ==> *final(self) == *old(self),
            r matches Some(h) ==> {
                &&& first_hole(old(self).springs@, h.0 as int)
                &&& final(self).springs@ == inserted(old(self).springs@, h.0 as int, spring)
                &&& final(self).masses@ == old(self).masses@
                &&& Assembly::spring_added_at(old(self).root, final(self).root, path@, h)
                &&& final(self).delivered@ == old(self).delivered@ + broadcast_to(
                    old(self).extensions@.len(),
                    Notification::AddSpring(h),
                )
                &&& final(self).extensions@.len() == old(self).extensions@.len()
            },
    {
        if self.root.check_path(path) {
            Some(self.insert_spring_at(spring, path))
        } else {
            None
        }
    }

    /// Moves `mr` from the assembly that holds it to the node at `path`;
    /// false, with nothing changed, if `path` leads to no node.
    pub fn move_mass_to(&mut self, mr: MassRef, path: &[usize]) -> (r: bool)
        requires
            old(self).wf(),
            is_live(old(self).masses@, mr.0 as int),
        ensures
            final(self).wf(),
            r == old(self).root.valid_path(path@),
            !r ==> *final(self) == *old(self),
            r ==> final(self).root.node_at(path@).masses@.contains(mr),
            r ==> exists|t: Assembly|
                Assembly::pruned(old(self).root, t, is_mass(mr), no_spring())
                    && #[trigger] Assembly::mass_added_at(t, final(self).root, path@, mr),
            final(self).masses@ == old(self).masses@,
            final(self).springs@ == old(self).springs@,
            final(self).delivered@ == old(self).delivered@,
            final(self).extensions@.len() == old(self).extensions@.len(),
    {
        if !self.root.check_path(path) {
            false
        } else {
            let ghost t0 = self.root;
            self.root.purge_mass(mr);
            let ghost t1 = self.root;
            let ok = self.root.add_mass_to(mr, path);
            proof {
                Assembly::lemma_mass_added_at(t1, self.root, path@, mr);
                Assembly::lemma_mass_added_at_node(t1, self.root, path@, mr);
                assert forall|m: MassRef|
                    #[trigger] self.root.mass_count(m) == if is_live(self.masses@, m.0 as int) { 1nat } else { 0nat } by {
                    assert(t0.mass_count(m) == if is_live(self.masses@, m.0 as int) { 1nat } else { 0nat });
                }
                assert forall|x: SpringRef|
                    #[trigger] self.root.spring_count(x) == if is_live(self.springs@, x.0 as int) { 1nat } else { 0nat } by {
                    assert(t0.spring_count(x) == if is_live(self.springs@, x.0 as int) { 1nat } else { 0nat });
                }
            }
            ok
        }
    }

    /// Moves `sr` from the assembly that holds it to the node at `path`;
    /// false, with nothing changed, if `path` leads to no node.
    pub fn move_spring_to(&mut self, sr: SpringRef, path: &[usize]) -> (r: bool)
        requires
            old(self).wf(),
            is_live(old(self).springs@, sr.0 as int),
        ensures
            final(self).wf(),
            r == old(self).root.valid_path(path@),
            !r ==> *final(self) == *old(self),
            r ==> final(self).root.node_at(path@).springs@.contains(sr),
            r ==> exists|t: Assembly|
                Assembly::pruned(old(self).root, t, no_mass(), is_spring(sr))
                    && #[trigger] Assembly::spring_added_at(t, final(self).root, path@, sr),
            final(self).masses@ == old(self).masses@,
            final(self).springs@ == old(self).springs@,
            final(self).delivered@ == old(self).delivered@,
            final(self).extensions@.len() == old(self).extensions@.len(),
    {
        if !self.root.check_path(path) {
            false
        } else {
            let ghost t0 = self.root;
            self.root.purge_spring(sr);
            let ghost t1 = self.root;
            let ok = self.root.add_spring_to(sr, path);
            proof {
                Assembly::lemma_spring_added_at(t1, self.root, path@, sr);
                Assembly::lemma_spring_added_at_node(t1, self.root, path@, sr);
                assert forall|m: MassRef|
                    #[trigger] self.root.mass_count(m) == if is_live(self.masses@, m.0 as int) { 1nat } else { 0nat } by {
                    assert(t0.mass_count(m) == if is_live(self.masses@, m.0 as int) { 1nat } else { 0nat });
                }
                assert forall|x: SpringRef|
                    #[trigger] self.root.spring_count(x) == if is_live(self.springs@, x.0 as int) { 1nat } else { 0nat } by {
                    assert(t0.spring_count(x) == if is_live(self.springs@, x.0 as int) { 1nat } else { 0nat });
                }
            }
            ok
        }
    }

    /// Unregisters `sr` from the tree, tells the extensions, and frees its slot.
    pub fn delete_spring(&mut self, sr: SpringRef)
        requires
            old(self).wf(),
            is_live(old(self).springs@, sr.0 as int),
        ensures
            final(self).wf(),
            final(self).springs@ == old(self).springs@.update(sr.0 as int, None),
            final(self).masses@ == old(self).masses@,
            Assembly::pruned(old(self).root, final(self).root, no_mass(), is_spring(sr)),
            final(self).delivered@ == old(self).delivered@ + broadcast_to(
                old(self).extensions@.len(),
                Notification::DeleteSpring(sr),
            ),
            final(self).extensions@.len() == old(self).extensions@.len(),
    {
        self.root.purge_spring(sr);
        self.notify(Notification::DeleteSpring(sr));
        self.springs.remove(sr);
        proof {
            assert forall|x: SpringRef|
                #[trigger] self.root.spring_count(x) == if is_live(self.springs@, x.0 as int) { 1nat } else { 0nat } by {
                if x.0 == sr.0 {
                    assert(x == sr);
                }
            }
            assert forall|i: int| #[trigger] is_live(self.springs@, i) implies {
                &&& is_live(self.masses@, self.springs@[i]->Some_0.endpoints[0].0 as int)
                &&& is_live(self.masses@, self.springs@[i]->Some_0.endpoints[1].0 as int)
            } by {
                assert(is_live(old(self).springs@, i));
            }
        }
    }

    /// Whether `new_log` is `old_log` followed by a deletion notice for each
    /// spring of `removed` and then one for `mr`, each handed to `n` extensions.
    pub open spec fn mass_deletion_logged(
        old_log: Seq<(int, Notification)>,
        new_log: Seq<(int, Notification)>,
        removed: Seq<SpringRef>,
        n: nat,
        mr: MassRef,
    ) -> bool {
        new_log == old_log + spring_deletions(removed, n) + broadcast_to(n, Notification::DeleteMass(mr))
    }

    /// The slots after deleting `mr`: its own slot and those of the springs
    /// attached to it are emptied, and no other.
    pub open spec fn mass_deleted(old: World<V, U, E>, new: World<V, U, E>, mr: MassRef) -> bool {
        &&& new.masses@ == old.masses@.update(mr.0 as int, None)
        &&& new.springs@.len() == old.springs@.len()
        &&& forall|i: usize|
            i < old.springs@.len() ==> #[trigger] new.springs@[i as int] == if spring_touches(
                old.springs@,
                SpringRef(i),
                mr,
            ) {
                None
            } else {
                old.springs@[i as int]
            }
    }

    /// Deleting a mass takes every spring attached to it out of the store and
    /// out of the tree, and leaves the mass at the spring's other end in place.
    pub proof fn lemma_cascading_delete(w0: World<V, U, E>, w1: World<V, U, E>, a: MassRef, b: MassRef, s: SpringRef)
        requires
            w0.wf(),
            w1.wf(),
            Self::mass_deleted(w0, w1, a),
            a != b,
            is_live(w0.masses@, b.0 as int),
            is_live(w0.springs@, s.0 as int),
            w0.springs@[s.0 as int]->Some_0.connects(a),
        ensures
            !is_live(w1.springs@, s.0 as int),
            w1.root.spring_count(s) == 0,
            is_live(w1.masses@, b.0 as int),
            w1.root.mass_count(b) == 1,
    {
        assert(w1.springs@[s.0 as int] is None);
        assert(b.0 != a.0);
    }

    /// Deletes `mr` with every spring attached to it, wherever in the tree
    /// those springs are registered. The extensions hear of each spring
    /// first, then of the mass.
    pub fn delete_mass(&mut self, mr: MassRef)
        requires
            old(self).wf(),
            is_live(old(self).masses@, mr.0 as int),
        ensures
            final(self).wf(),
            Self::mass_deleted(*old(self), *final(self), mr),
            Assembly::pruned(old(self).root, final(self).root, is_mass(mr), touching(old(self).springs@, mr)),
            exists|removed: Seq<SpringRef>|
                {
                    &&& forall|x: SpringRef|
                        #[trigger] occurrences(removed, x) == if spring_touches(old(self).springs@, x, mr) {
                            1nat
                        } else {
                            0nat
                        }
                    &&& #[trigger] Self::mass_deletion_logged(
                        old(self).delivered@,
                        final(self).delivered@,
                        removed,
                        old(self).extensions@.len(),
                        mr,
                    )
                },
            final(self).extensions@.len() == old(self).extensions@.len(),
    {
        let ghost springs0 = self.springs@;
        let ghost n = self.extensions@.len();
        proof {
            self.springs.lemma_len_bound();
        }
        self.root.purge_mass(mr);
        proof {
            assert forall|x: SpringRef| #[trigger] self.root.spring_count(x) > 0 implies is_live(self.springs@, x.0 as int) by {
                assert(old(self).root.spring_count(x) == if is_live(springs0, x.0 as int) { 1nat } else { 0nat });
            }
        }
        let ghost root_p = self.root;
        let to_remove = self.root.find_and_delete_connected_springs(mr, &self.springs);
        let ghost root1 = self.root;
        proof {
            Assembly::lemma_pruned_compose(
                old(self).root,
                root_p,
                root1,
                is_mass(mr),
                no_spring(),
                no_mass(),
                touching(springs0, mr),
                is_mass(mr),
                touching(springs0, mr),
            );
        }
        let count = to_remove.len();
        let mut k: usize = 0;
        while k < count
            invariant
                count == to_remove@.len(),
                0 <= k <= count,
                n == self.extensions@.len(),
                n == old(self).extensions@.len(),
                self.masses@ == old(self).masses@,
                self.root == root1,
                springs0 == old(self).springs@,
                springs0.len() <= usize::MAX,
                self.springs@.len() == springs0.len(),
                forall|x: SpringRef|
                    #[trigger] occurrences(to_remove@, x) == if spring_touches(springs0, x, mr) {
                        1nat
                    } else {
                        0nat
                    },
                forall|i: int|
                    0 <= i < springs0.len() ==> #[trigger] self.springs@[i] == if to_remove@.subrange(
                        0,
                        k as int,
                    ).contains(SpringRef(i as usize)) {
                        None
                    } else {
                        springs0[i]
                    },
                self.delivered@ == old(self).delivered@ + spring_deletions(to_remove@.subrange(0, k as int), n),
            decreases count - k,
        {
            let s_ref = to_remove[k];
            proof {
                lemma_occurrences_index(to_remove@, k as int);
            }
            let ghost before = self.springs@;
            self.springs.remove(s_ref);
            self.notify(Notification::DeleteSpring(s_ref));
            proof {
                let w = to_remove@.subrange(0, k + 1);
                assert(w.drop_last() =~= to_remove@.subrange(0, k as int));
                assert(self.delivered@ =~= old(self).delivered@ + spring_deletions(w, n));
                assert forall|i: int| 0 <= i < springs0.len() implies #[trigger] self.springs@[i] == if w.contains(
                    SpringRef(i as usize),
                ) {
                    None
                } else {
                    springs0[i]
                } by {
                    assert(w[k as int] == s_ref);
                    if i != s_ref.0 {
                        assert(self.springs@[i] == before[i]);
                    }
                    if w.contains(SpringRef(i as usize)) {
                        if i != s_ref.0 {
                            let j = choose|j: int| 0 <= j < w.len() && w[j] == SpringRef(i as usize);
                            assert(SpringRef(i as usize) != s_ref);
                            assert(j != k);
                            assert(to_remove@.subrange(0, k as int)[j] == SpringRef(i as usize));
                        }
                    } else {
                        assert(w[k as int] == s_ref);
                        if to_remove@.subrange(0, k as int).contains(SpringRef(i as usize)) {
                            let j = choose|j: int| 0 <= j < k && to_remove@.subrange(0, k as int)[j] == SpringRef(i as usize);
                            assert(w[j] == SpringRef(i as usize));
                        }
                    }
                }
            }
            k = k + 1;
        }
        proof {
            assert(to_remove@.subrange(0, count as int) =~= to_remove@);
        }
        self.notify(Notification::DeleteMass(mr));
        self.masses.remove(mr);
        proof {
            assert(Self::mass_deletion_logged(old(self).delivered@, self.delivered@, to_remove@, n, mr));
            assert forall|i: usize| i < springs0.len() implies #[trigger] self.springs@[i as int] == if spring_touches(
                springs0,
                SpringRef(i),
                mr,
            ) {
                None
            } else {
                springs0[i as int]
            } by {
                let x = SpringRef(i);
                crate::assembly::lemma_occurrences_contains(to_remove@, x);
            }
            assert forall|m: MassRef|
                #[trigger] self.root.mass_count(m) == if is_live(self.masses@, m.0 as int) { 1nat } else { 0nat } by {
                if m.0 == mr.0 {
                    assert(m == mr);
                }
            }
            assert forall|x: SpringRef|
                #[trigger] self.root.spring_count(x) == if is_live(self.springs@, x.0 as int) { 1nat } else { 0nat } by {
                let i = x.0;
                assert(SpringRef(i) == x);
                if i < springs0.len() {
                    assert(self.springs@[i as int] == if spring_touches(springs0, x, mr) { None } else { springs0[i as int] });
                }
            }
            assert forall|i: int| #[trigger] is_live(self.springs@, i) implies {
                &&& is_live(self.masses@, self.springs@[i]->Some_0.endpoints[0].0 as int)
                &&& is_live(self.masses@, self.springs@[i]->Some_0.endpoints[1].0 as int)
            } by {
                let x = SpringRef(i as usize);
                assert(x.0 == i);
                assert(self.springs@[(i as usize) as int] == if spring_touches(springs0, x, mr) { None } else { springs0[i] });
                assert(is_live(springs0, i));
                let e0 = springs0[i]->Some_0.endpoints[0];
                let e1 = springs0[i]->Some_0.endpoints[1];
                if e0.0 == mr.0 {
                    assert(e0 == mr);
                }
                if e1.0 == mr.0 {
                    assert(e1 == mr);
                }
            }
        }
    }

    pub fn mass(&self, mr: MassRef) -> (m: &Mass<V, U>)
        requires
            is_live(self.masses@, mr.0 as int),
        ensures
            Some(*m) == self.masses@[mr.0 as int],
    {
        self.masses.index(mr)
    }

    /// The mass of `mr`, to change in place; the structure stays as it is.
    pub fn mass_mut(&mut self, mr: MassRef) -> (m: &mut Mass<V, U>)
        requires
            is_live(old(self).masses@, mr.0 as int),
        ensures
            Some(*m) == old(self).masses@[mr.0 as int],
            final(self).masses@ == old(self).masses@.update(mr.0 as int, Some(*final(m))),
            final(self).springs@ == old(self).springs@,
            final(self).root == old(self).root,
            final(self).delivered@ == old(self).delivered@,
            final(self).extensions@ == old(self).extensions@,
    {
        self.masses.index_mut(mr)
    }

    pub fn spring(&self, sr: SpringRef) -> (s: &Spring<MassRef, U>)
        requires
            is_live(self.springs@, sr.0 as int),
        ensures
            Some(*s) == self.springs@[sr.0 as int],
    {
        self.springs.index(sr)
    }

    /// Writes `spring` over the spring of `sr`. Both of its ends must be live
    /// masses, so that no spring outlives a mass.
    pub fn replace_spring(&mut self, sr: SpringRef, spring: Spring<MassRef, U>)
        requires
            old(self).wf(),
            is_live(old(self).springs@, sr.0 as int),
            is_live(old(self).masses@, spring.endpoints[0].0 as int),
            is_live(old(self).masses@, spring.endpoints[1].0 as int),
        ensures
            final(self).wf(),
            final(self).springs@ == old(self).springs@.update(sr.0 as int, Some(spring)),
            final(self).masses@ == old(self).masses@,
            final(self).root == old(self).root,
            final(self).delivered@ == old(self).delivered@,
            final(self).extensions@ == old(self).extensions@,
    {
        let ghost sp = spring;
        let s = self.springs.index_mut(sr);
        *s = spring;
        proof {
            assert forall|x: SpringRef|
                #[trigger] self.root.spring_count(x) == if is_live(self.springs@, x.0 as int) { 1nat } else { 0nat } by {
                assert(is_live(self.springs@, x.0 as int) == is_live(old(self).springs@, x.0 as int));
            }
            assert forall|i: int| #[trigger] is_live(self.springs@, i) implies {
                &&& is_live(self.masses@, self.springs@[i]->Some_0.endpoints[0].0 as int)
                &&& is_live(self.masses@, self.springs@[i]->Some_0.endpoints[1].0 as int)
            } by {
                assert(is_live(old(self).springs@, i));
                if i == sr.0 {
                    assert(self.springs@[i]->Some_0 == sp);
                }
            }
        }
    }

    /// Calls every extension's `pre_tick`, in registration order. The
    /// structure is not touched.
    pub fn pre_tick(&mut self, timestep: U)
        ensures
            final(self).masses@ == old(self).masses@,
            final(self).springs@ == old(self).springs@,
            final(self).root == old(self).root,
            final(self).delivered@ == old(self).delivered@,
            final(self).extensions@.len() == old(self).extensions@.len(),
    {
        let n = self.extensions.len();
        let mut i: usize = 0;
        while i < n
            invariant
                n == self.extensions@.len(),
                n == old(self).extensions@.len(),
                0 <= i <= n,
                self.masses@ == old(self).masses@,
                self.springs@ == old(self).springs@,
                self.root == old(self).root,
                self.delivered@ == old(self).delivered@,
            decreases n - i,
        {
            self.extensions[i].pre_tick(timestep);
            i = i + 1;
        }
    }

    /// Calls every extension's `post_tick`, in registration order. The
    /// structure is not touched.
    pub fn post_tick(&mut self, timestep: U)
        ensures
            final(self).masses@ == old(self).masses@,
            final(self).springs@ == old(self).springs@,
            final(self).root == old(self).root,
            final(self).delivered@ == old(self).delivered@,
            final(self).extensions@.len() == old(self).extensions@.len(),
    {
        let n = self.extensions.len();
        let mut i: usize = 0;
        while i < n
            invariant
                n == self.extensions@.len(),
                n == old(self).extensions@.len(),
                0 <= i <= n,
                self.masses@ == old(self).masses@,
                self.springs@ == old(self).springs@,
                self.root == old(self).root,
                self.delivered@ == old(self).delivered@,
            decreases n - i,
        {
            self.extensions[i].post_tick(timestep);
            i = i + 1;
        }
    }

    /// Hands `note` to every extension, in registration order.
    fn notify(&mut self, note: Notification)
        ensures
            final(self).delivered@ == old(self).delivered@ + broadcast_to(old(self).extensions@.len(), note),
            final(self).extensions@.len() == old(self).extensions@.len(),
            final(self).masses@ == old(self).masses@,
            final(self).springs@ == old(self).springs@,
            final(self).root == old(self).root,
    {
        let n = self.extensions.len();
        let mut i: usize = 0;
        while i < n
            invariant
                n == self.extensions@.len(),
                n == old(self).extensions@.len(),
                0 <= i <= n,
                self.delivered@ == old(self).delivered@ + broadcast_to(i as nat, note),
                self.masses@ == old(self).masses@,
                self.springs@ == old(self).springs@,
                self.root == old(self).root,
            decreases n - i,
        {
            match note {
                Notification::AddMass(mr) => self.extensions[i].add_mass(mr),
                Notification::DeleteMass(mr) => self.extensions[i].delete_mass(mr),
                Notification::AddSpring(sr) => self.extensions[i].add_spring(sr),
                Notification::DeleteSpring(sr) => self.extensions[i].delete_spring(sr),
            }
            proof {
                assert(broadcast_to((i + 1) as nat, note) =~= broadcast_to(i as nat, note).push((i as int, note)));
                self.delivered@ = self.delivered@.push((i as int, note));
            }
            i = i + 1;
        }
    }
}

} // verus!
