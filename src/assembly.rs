use vstd::prelude::*;

use crate::types::Spring;
use crate::world::is_live;
use crate::world::Id;
use crate::world::MassRef;
use crate::world::OptionalVec;
use crate::world::SpringRef;

verus! {

broadcast use vstd::std_specs::vec::group_vec_axioms;

/// How many times `x` occurs in `s`.
pub open spec fn occurrences<A>(s: Seq<A>, x: A) -> nat
    decreases s.len(),
{
    if s.len() == 0 {
        0
    } else {
        occurrences(s.drop_last(), x) + if s.last() == x { 1nat } else { 0nat }
    }
}

/// Whether `sr` is a live spring with `mr` at one of its ends.
pub open spec fn spring_touches<U>(springs: Seq<Option<Spring<MassRef, U>>>, sr: SpringRef, mr: MassRef) -> bool {
    is_live(springs, sr.0 as int) && springs[sr.0 as int]->Some_0.connects(mr)
}

/// Occurrences in a concatenation add up.
pub proof fn lemma_occurrences_add<A>(a: Seq<A>, b: Seq<A>, x: A)
    ensures
        occurrences(a + b, x) == occurrences(a, x) + occurrences(b, x),
    decreases b.len(),
{
    if b.len() > 0 {
        assert((a + b).drop_last() =~= a + b.drop_last());
        lemma_occurrences_add(a, b.drop_last(), x);
    } else {
        assert(a + b =~= a);
    }
}

/// An element at an index occurs.
pub proof fn lemma_occurrences_index<A>(s: Seq<A>, i: int)
    requires
        0 <= i < s.len(),
    ensures
        occurrences(s, s[i]) > 0,
    decreases s.len(),
{
    if i < s.len() - 1 {
        lemma_occurrences_index(s.drop_last(), i);
    }
}

/// `s` without the elements for which `d` holds, the rest in their order.
pub open spec fn without<A>(s: Seq<A>, d: spec_fn(A) -> bool) -> Seq<A>
    decreases s.len(),
{
    if s.len() == 0 {
        s
    } else if d(s.last()) {
        without(s.drop_last(), d)
    } else {
        without(s.drop_last(), d).push(s.last())
    }
}

/// The elements of `s` for which `d` holds, in their order.
pub open spec fn only<A>(s: Seq<A>, d: spec_fn(A) -> bool) -> Seq<A>
    decreases s.len(),
{
    if s.len() == 0 {
        s
    } else if d(s.last()) {
        only(s.drop_last(), d).push(s.last())
    } else {
        only(s.drop_last(), d)
    }
}

/// Taking out two sets in a row takes out their union.
pub proof fn lemma_without_twice<A>(s: Seq<A>, d1: spec_fn(A) -> bool, d2: spec_fn(A) -> bool, d: spec_fn(A) -> bool)
    requires
        forall|x: A| #[trigger] d(x) == (d1(x) || d2(x)),
    ensures
        without(without(s, d1), d2) == without(s, d),
    decreases s.len(),
{
    if s.len() > 0 {
        lemma_without_twice(s.drop_last(), d1, d2, d);
        let w = without(s.drop_last(), d1);
        if !d1(s.last()) {
            assert(w.push(s.last()).drop_last() =~= w);
        }
    }
}

/// Taking out nothing leaves the sequence as it is.
pub proof fn lemma_without_nothing<A>(s: Seq<A>, d: spec_fn(A) -> bool)
    requires
        forall|x: A| !#[trigger] d(x),
    ensures
        without(s, d) == s,
    decreases s.len(),
{
    if s.len() > 0 {
        lemma_without_nothing(s.drop_last(), d);
        assert(s.drop_last().push(s.last()) =~= s);
    }
}

/// The mass `mr` alone.
pub open spec fn is_mass(mr: MassRef) -> spec_fn(MassRef) -> bool {
    |x: MassRef| x == mr
}

/// The spring `sr` alone.
pub open spec fn is_spring(sr: SpringRef) -> spec_fn(SpringRef) -> bool {
    |x: SpringRef| x == sr
}

/// No mass.
pub open spec fn no_mass() -> spec_fn(MassRef) -> bool {
    |x: MassRef| false
}

/// No spring.
pub open spec fn no_spring() -> spec_fn(SpringRef) -> bool {
    |x: SpringRef| false
}

/// The live springs with `mr` at one of their ends.
pub open spec fn touching<U>(springs: Seq<Option<Spring<MassRef, U>>>, mr: MassRef) -> spec_fn(SpringRef) -> bool {
    |x: SpringRef| spring_touches(springs, x, mr)
}

/// An element occurs exactly when the sequence contains it.
pub proof fn lemma_occurrences_contains<A>(s: Seq<A>, x: A)
    ensures
        occurrences(s, x) > 0 <==> s.contains(x),
    decreases s.len(),
{
    if s.len() > 0 {
        lemma_occurrences_contains(s.drop_last(), x);
        if s.drop_last().contains(x) {
            let j = choose|j: int| 0 <= j < s.len() - 1 && s.drop_last()[j] == x;
            assert(s[j] == x);
        }
        if s.contains(x) && s.last() != x {
            let j = choose|j: int| 0 <= j < s.len() && s[j] == x;
            assert(s.drop_last()[j] == x);
        }
    }
}

/// Whether a handle has the slot of `h`.
pub open spec fn same_id<R: Id>(h: R) -> spec_fn(R) -> bool {
    |x: R| x.spec_id() == h.spec_id()
}

/// Taking out the same elements by two descriptions gives the same sequence.
pub proof fn lemma_without_same<A>(s: Seq<A>, d1: spec_fn(A) -> bool, d2: spec_fn(A) -> bool)
    requires
        forall|x: A| #[trigger] d1(x) == d2(x),
    ensures
        without(s, d1) == without(s, d2),
    decreases s.len(),
{
    if s.len() > 0 {
        lemma_without_same(s.drop_last(), d1, d2);
        assert(d1(s.last()) == d2(s.last()));
    }
}

/// `v` without any handle of the slot of `h`, the rest in their order.
fn handles_without<R: Id>(v: &Vec<R>, h: R) -> (r: Vec<R>)
    ensures
        forall|x: R|
            #[trigger] occurrences(r@, x) == if x.spec_id() == h.spec_id() { 0 } else { occurrences(v@, x) },
        r@ == without(v@, same_id(h)),
{
    let mut r: Vec<R> = Vec::new();
    let n = v.len();
    let mut i: usize = 0;
    while i < n
        invariant
            n == v@.len(),
            0 <= i <= n,
            forall|x: R|
                #[trigger] occurrences(r@, x) == if x.spec_id() == h.spec_id() { 0 } else {
                    occurrences(v@.subrange(0, i as int), x)
                },
            r@ == without(v@.subrange(0, i as int), same_id(h)),
        decreases n - i,
    {
        let e = v[i];
        let ghost r0 = r@;
        let keep = e.id() != h.id();
        if keep {
            r.push(e);
        }
        proof {
            assert(v@.subrange(0, i + 1).drop_last() =~= v@.subrange(0, i as int));
            if keep {
                assert(r@.drop_last() =~= r0);
            }
            assert forall|x: R|
                #[trigger] occurrences(r@, x) == if x.spec_id() == h.spec_id() { 0 } else {
                    occurrences(v@.subrange(0, i + 1), x)
                } by {
                let w = v@.subrange(0, i + 1);
                assert(occurrences(w, x) == occurrences(w.drop_last(), x) + if w.last() == x { 1nat } else { 0nat });
                if keep {
                    assert(occurrences(r@, x) == occurrences(r@.drop_last(), x) + if r@.last() == x { 1nat } else { 0nat });
                }
            }
        }
        i = i + 1;
    }
    proof {
        assert(v@.subrange(0, n as int) =~= v@);
    }
    r
}

/// A named group of masses and springs, with groups of its own below it.
pub struct Assembly {
    pub name: String,
    pub masses: Vec<MassRef>,
    pub springs: Vec<SpringRef>,
    pub subassemblies: Vec<Assembly>,
}

impl Assembly {
    /// How many times `m` is registered in this node and all nodes below it.
    pub open spec fn mass_count(self, m: MassRef) -> nat
        decreases self,
    {
        occurrences(self.masses@, m) + Self::mass_count_seq(self.subassemblies@, m)
    }

    pub open spec fn mass_count_seq(s: Seq<Assembly>, m: MassRef) -> nat
        decreases s,
    {
        if s.len() == 0 {
            0
        } else {
            Self::mass_count_seq(s.drop_last(), m) + s.last().mass_count(m)
        }
    }

    /// How many times `sr` is registered in this node and all nodes below it.
    pub open spec fn spring_count(self, sr: SpringRef) -> nat
        decreases self,
    {
        occurrences(self.springs@, sr) + Self::spring_count_seq(self.subassemblies@, sr)
    }

    pub open spec fn spring_count_seq(s: Seq<Assembly>, sr: SpringRef) -> nat
        decreases s,
    {
        if s.len() == 0 {
            0
        } else {
            Self::spring_count_seq(s.drop_last(), sr) + s.last().spring_count(sr)
        }
    }

    /// The springs registered in this tree for which `ds` holds: this
    /// node's own in their order, then those below each child in child order.
    pub open spec fn found(self, ds: spec_fn(SpringRef) -> bool) -> Seq<SpringRef>
        decreases self,
    {
        only(self.springs@, ds) + Self::found_seq(self.subassemblies@, ds)
    }

    pub open spec fn found_seq(s: Seq<Assembly>, ds: spec_fn(SpringRef) -> bool) -> Seq<SpringRef>
        decreases s,
    {
        if s.len() == 0 {
            Seq::empty()
        } else {
            Self::found_seq(s.drop_last(), ds) + s.last().found(ds)
        }
    }

    /// Number of nodes in this tree.
    pub open spec fn size(self) -> nat
        decreases self,
    {
        1 + Self::size_seq(self.subassemblies@)
    }

    pub open spec fn size_seq(s: Seq<Assembly>) -> nat
        decreases s,
    {
        if s.len() == 0 {
            0
        } else {
            Self::size_seq(s.drop_last()) + s.last().size()
        }
    }

    proof fn lemma_size_seq_index(s: Seq<Assembly>, i: int)
        requires
            0 <= i < s.len(),
        ensures
            s[i].size() <= Self::size_seq(s),
        decreases s.len(),
    {
        if i < s.len() - 1 {
            Self::lemma_size_seq_index(s.drop_last(), i);
        }
    }

    /// `new` is `old` with every registration of a mass for which `dm` holds
    /// and of a spring for which `ds` holds taken out of the node that held
    /// it. Names, the shape of the tree and every other registration stay
    /// where they were.
    pub open spec fn pruned(
        old: Assembly,
        new: Assembly,
        dm: spec_fn(MassRef) -> bool,
        ds: spec_fn(SpringRef) -> bool,
    ) -> bool
        decreases old,
    {
        &&& new.name == old.name
        &&& new.subassemblies@.len() == old.subassemblies@.len()
        &&& new.masses@ == without(old.masses@, dm)
        &&& new.springs@ == without(old.springs@, ds)
        &&& forall|i: int|
            0 <= i < old.subassemblies@.len() ==> Self::pruned(
                #[trigger] old.subassemblies@[i],
                new.subassemblies@[i],
                dm,
                ds,
            )
    }

    /// Two prunings in a row are one pruning of both sets.
    pub proof fn lemma_pruned_compose(
        a: Assembly,
        b: Assembly,
        c: Assembly,
        dm1: spec_fn(MassRef) -> bool,
        ds1: spec_fn(SpringRef) -> bool,
        dm2: spec_fn(MassRef) -> bool,
        ds2: spec_fn(SpringRef) -> bool,
        dm: spec_fn(MassRef) -> bool,
        ds: spec_fn(SpringRef) -> bool,
    )
        requires
            Self::pruned(a, b, dm1, ds1),
            Self::pruned(b, c, dm2, ds2),
            forall|x: MassRef| #[trigger] dm(x) == (dm1(x) || dm2(x)),
            forall|x: SpringRef| #[trigger] ds(x) == (ds1(x) || ds2(x)),
        ensures
            Self::pruned(a, c, dm, ds),
        decreases a.size(),
    {
        lemma_without_twice(a.masses@, dm1, dm2, dm);
        lemma_without_twice(a.springs@, ds1, ds2, ds);
        assert forall|i: int| 0 <= i < a.subassemblies@.len() implies Self::pruned(
            #[trigger] a.subassemblies@[i],
            c.subassemblies@[i],
            dm,
            ds,
        ) by {
            Self::lemma_size_seq_index(a.subassemblies@, i);
            assert(Self::pruned(b.subassemblies@[i], c.subassemblies@[i], dm2, ds2));
            Self::lemma_pruned_compose(
                a.subassemblies@[i],
                b.subassemblies@[i],
                c.subassemblies@[i],
                dm1,
                ds1,
                dm2,
                ds2,
                dm,
                ds,
            );
        }
    }

    /// Pruning keeps the shape, so it keeps which paths lead to a node.
    pub proof fn lemma_pruned_paths(
        a: Assembly,
        b: Assembly,
        dm: spec_fn(MassRef) -> bool,
        ds: spec_fn(SpringRef) -> bool,
        p: Seq<usize>,
    )
        requires
            Self::pruned(a, b, dm, ds),
        ensures
            b.valid_path(p) == a.valid_path(p),
        decreases p.len(),
    {
        if p.len() > 0 && p[0] < a.subassemblies@.len() {
            let i = p[0] as int;
            assert(Self::pruned(a.subassemblies@[i], b.subassemblies@[i], dm, ds));
            Self::lemma_pruned_paths(a.subassemblies@[i], b.subassemblies@[i], dm, ds, p.drop_first());
        }
    }

    /// Whether `path`, a sequence of child indices, leads from this node to a node.
    pub open spec fn valid_path(self, path: Seq<usize>) -> bool
        decreases path.len(),
    {
        if path.len() == 0 {
            true
        } else {
            path[0] < self.subassemblies@.len()
                && self.subassemblies@[path[0] as int].valid_path(path.drop_first())
        }
    }

    /// The node that `path` leads to.
    pub open spec fn node_at(self, path: Seq<usize>) -> Assembly
        recommends
            self.valid_path(path),
        decreases path.len(),
    {
        if path.len() == 0 || path[0] >= self.subassemblies@.len() {
            self
        } else {
            self.subassemblies@[path[0] as int].node_at(path.drop_first())
        }
    }

    /// `new` is `old` with `m` appended to the masses of the node at `path`.
    pub open spec fn mass_added_at(old: Assembly, new: Assembly, path: Seq<usize>, m: MassRef) -> bool
        decreases path.len(),
    {
        &&& new.name == old.name
        &&& new.springs@ == old.springs@
        &&& if path.len() == 0 {
            &&& new.masses@ == old.masses@.push(m)
            &&& new.subassemblies@ == old.subassemblies@
        } else {
            &&& new.masses@ == old.masses@
            &&& path[0] < old.subassemblies@.len()
            &&& new.subassemblies@ == old.subassemblies@.update(
                path[0] as int,
                new.subassemblies@[path[0] as int],
            )
            &&& Self::mass_added_at(
                old.subassemblies@[path[0] as int],
                new.subassemblies@[path[0] as int],
                path.drop_first(),
                m,
            )
        }
    }

    /// `new` is `old` with `sr` appended to the springs of the node at `path`.
    pub open spec fn spring_added_at(old: Assembly, new: Assembly, path: Seq<usize>, sr: SpringRef) -> bool
        decreases path.len(),
    {
        &&& new.name == old.name
        &&& new.masses@ == old.masses@
        &&& if path.len() == 0 {
            &&& new.springs@ == old.springs@.push(sr)
            &&& new.subassemblies@ == old.subassemblies@
        } else {
            &&& new.springs@ == old.springs@
            &&& path[0] < old.subassemblies@.len()
            &&& new.subassemblies@ == old.subassemblies@.update(
                path[0] as int,
                new.subassemblies@[path[0] as int],
            )
            &&& Self::spring_added_at(
                old.subassemblies@[path[0] as int],
                new.subassemblies@[path[0] as int],
                path.drop_first(),
                sr,
            )
        }
    }

    pub fn new(assembly_name: String) -> (r: Assembly)
        ensures
            r.name == assembly_name,
            r.masses@.len() == 0,
            r.springs@.len() == 0,
            r.subassemblies@.len() == 0,
    {
        Assembly {
            name: assembly_name,
            masses: Vec::new(),
            springs: Vec::new(),
            subassemblies: Vec::new(),
        }
    }

    /// Whether each index of `path` names an existing child; the empty path
    /// names this node.
    pub fn check_path(&self, path: &[usize]) -> (r: bool)
        ensures
            r == self.valid_path(path@),
        decreases path@.len(),
    {
        if path.len() == 0 {
            true
        } else if self.subassemblies.len() <= path[0] {
            false
        } else {
            let rest = &path[1..path.len()];
            proof {
                assert(rest@ =~= path@.drop_first());
            }
            self.subassemblies[path[0]].check_path(rest)
        }
    }

    /// Registers `mr` in this node.
    pub fn add_mass(&mut self, mr: MassRef)
        ensures
            Self::mass_added_at(*old(self), *final(self), Seq::empty(), mr),
    {
        self.masses.push(mr);
    }

    /// Registers `mr` in the node at `path`; false, with nothing changed, if
    /// there is no such node.
    pub fn add_mass_to(&mut self, mr: MassRef, path: &[usize]) -> (r: bool)
        ensures
            r == old(self).valid_path(path@),
            r ==> Self::mass_added_at(*old(self), *final(self), path@, mr),
            !r ==> *final(self) == *old(self),
    {
        if self.check_path(path) {
            self.register_mass_at(mr, path);
            true
        } else {
            false
        }
    }

    fn register_mass_at(&mut self, mr: MassRef, path: &[usize])
        requires
            old(self).valid_path(path@),
        ensures
            Self::mass_added_at(*old(self), *final(self), path@, mr),
        decreases path@.len(),
    {
        if path.len() == 0 {
            self.add_mass(mr);
        } else {
            let rest = &path[1..path.len()];
            proof {
                assert(rest@ =~= path@.drop_first());
            }
            self.subassemblies[path[0]].register_mass_at(mr, rest);
        }
    }

    /// Registers `sr` in this node.
    pub fn add_spring(&mut self, sr: SpringRef)
        ensures
            Self::spring_added_at(*old(self), *final(self), Seq::empty(), sr),
    {
        self.springs.push(sr);
    }

    /// Registers `sr` in the node at `path`; false, with nothing changed, if
    /// there is no such node.
    pub fn add_spring_to(&mut self, sr: SpringRef, path: &[usize]) -> (r: bool)
        ensures
            r == old(self).valid_path(path@),
            r ==> Self::spring_added_at(*old(self), *final(self), path@, sr),
            !r ==> *final(self) == *old(self),
    {
        if self.check_path(path) {
            self.register_spring_at(sr, path);
            true
        } else {
            false
        }
    }

    fn register_spring_at(&mut self, sr: SpringRef, path: &[usize])
        requires
            old(self).valid_path(path@),
        ensures
            Self::spring_added_at(*old(self), *final(self), path@, sr),
        decreases path@.len(),
    {
        if path.len() == 0 {
            self.add_spring(sr);
        } else {
            let rest = &path[1..path.len()];
            proof {
                assert(rest@ =~= path@.drop_first());
            }
            self.subassemblies[path[0]].register_spring_at(sr, rest);
        }
    }

    /// Removes every registration of `mr` from this node's own list.
    pub fn delete_mass(&mut self, mr: MassRef)
        ensures
            forall|x: MassRef|
                #[trigger] occurrences(final(self).masses@, x) == if x == mr { 0 } else {
                    occurrences(old(self).masses@, x)
                },
            final(self).masses@ == without(old(self).masses@, is_mass(mr)),
            final(self).name == old(self).name,
            final(self).springs@ == old(self).springs@,
            final(self).subassemblies@ == old(self).subassemblies@,
    {
        self.masses = handles_without(&self.masses, mr);
        proof {
            lemma_without_same(old(self).masses@, same_id(mr), is_mass(mr));
        }
    }

    /// Removes every registration of `sr` from this node's own list.
    pub fn delete_spring(&mut self, sr: SpringRef)
        ensures
            forall|x: SpringRef|
                #[trigger] occurrences(final(self).springs@, x) == if x == sr { 0 } else {
                    occurrences(old(self).springs@, x)
                },
            final(self).springs@ == without(old(self).springs@, is_spring(sr)),
            final(self).name == old(self).name,
            final(self).masses@ == old(self).masses@,
            final(self).subassemblies@ == old(self).subassemblies@,
    {
        self.springs = handles_without(&self.springs, sr);
        proof {
            lemma_without_same(old(self).springs@, same_id(sr), is_spring(sr));
        }
    }

    /// Removes every registration of `mr` from this node and all nodes below it.
    pub fn purge_mass(&mut self, mr: MassRef)
        ensures
            forall|x: MassRef|
                #[trigger] final(self).mass_count(x) == if x == mr { 0 } else { old(self).mass_count(x) },
            forall|x: SpringRef| #[trigger] final(self).spring_count(x) == old(self).spring_count(x),
            forall|p: Seq<usize>| #[trigger] final(self).valid_path(p) == old(self).valid_path(p),
            Self::pruned(*old(self), *final(self), is_mass(mr), no_spring()),
        decreases old(self).size(),
    {
        self.delete_mass(mr);
        let ghost sub0 = self.subassemblies@;
        let n = self.subassemblies.len();
        let mut i: usize = 0;
        while i < n
            invariant
                n == self.subassemblies@.len(),
                n == sub0.len(),
                0 <= i <= n,
                sub0 == old(self).subassemblies@,
                forall|j: int| i <= j < n ==> #[trigger] self.subassemblies@[j] == sub0[j],
                forall|j: int, p: Seq<usize>| 0 <= j < i ==>
                    #[trigger] self.subassemblies@[j].valid_path(p) == sub0[j].valid_path(p),
                forall|x: MassRef|
                    #[trigger] Self::mass_count_seq(self.subassemblies@, x) + if x == mr {
                        Self::mass_count_seq(sub0.subrange(0, i as int), x)
                    } else {
                        0
                    } == Self::mass_count_seq(sub0, x),
                forall|x: SpringRef|
                    #[trigger] Self::spring_count_seq(self.subassemblies@, x) == Self::spring_count_seq(sub0, x),
                forall|x: MassRef|
                    #[trigger] occurrences(self.masses@, x) == if x == mr { 0 } else {
                        occurrences(old(self).masses@, x)
                    },
                self.springs@ == old(self).springs@,
                self.masses@ == without(old(self).masses@, is_mass(mr)),
                self.name == old(self).name,
                forall|j: int| 0 <= j < i ==>
                    Self::pruned(#[trigger] sub0[j], self.subassemblies@[j], is_mass(mr), no_spring()),
            decreases n - i,
        {
            let ghost cur = self.subassemblies@;
            proof {
                Self::lemma_size_seq_index(sub0, i as int);
            }
            self.subassemblies[i].purge_mass(mr);
            proof {
                let c = self.subassemblies@[i as int];
                assert(Self::pruned(sub0[i as int], c, is_mass(mr), no_spring()));
                assert(self.subassemblies@ =~= cur.update(i as int, c));
                Self::lemma_count_seq_update(cur, i as int, c);
                assert forall|x: MassRef|
                    #[trigger] Self::mass_count_seq(self.subassemblies@, x) + if x == mr {
                        Self::mass_count_seq(sub0.subrange(0, i + 1), x)
                    } else {
                        0
                    } == Self::mass_count_seq(sub0, x) by {
                    let w = sub0.subrange(0, i + 1);
                    assert(w.drop_last() =~= sub0.subrange(0, i as int));
                    assert(Self::mass_count_seq(w, x) == Self::mass_count_seq(w.drop_last(), x) + w.last().mass_count(x));
                    assert(Self::mass_count_seq(self.subassemblies@, x) + cur[i as int].mass_count(x)
                        == Self::mass_count_seq(cur, x) + c.mass_count(x));
                }
                assert forall|x: SpringRef|
                    #[trigger] Self::spring_count_seq(self.subassemblies@, x) == Self::spring_count_seq(sub0, x) by {
                    assert(Self::spring_count_seq(self.subassemblies@, x) + cur[i as int].spring_count(x)
                        == Self::spring_count_seq(cur, x) + c.spring_count(x));
                }
            }
            i = i + 1;
        }
        proof {
            assert(sub0.subrange(0, n as int) =~= sub0);
            assert forall|x: MassRef|
                #[trigger] self.mass_count(x) == if x == mr { 0 } else { old(self).mass_count(x) } by {
                assert(self.mass_count(x) == occurrences(self.masses@, x) + Self::mass_count_seq(self.subassemblies@, x));
                assert(old(self).mass_count(x) == occurrences(old(self).masses@, x) + Self::mass_count_seq(sub0, x));
            }
            assert forall|x: SpringRef| #[trigger] self.spring_count(x) == old(self).spring_count(x) by {
                assert(self.spring_count(x) == occurrences(self.springs@, x) + Self::spring_count_seq(self.subassemblies@, x));
                assert(old(self).spring_count(x) == occurrences(old(self).springs@, x) + Self::spring_count_seq(sub0, x));
            }
            lemma_without_nothing(old(self).springs@, no_spring());
            assert(Self::pruned(*old(self), *self, is_mass(mr), no_spring()));
            assert forall|p: Seq<usize>| #[trigger] self.valid_path(p) == old(self).valid_path(p) by {
                if p.len() > 0 && p[0] < n {
                    assert(self.subassemblies@[p[0] as int].valid_path(p.drop_first())
                        == sub0[p[0] as int].valid_path(p.drop_first()));
                }
            }
        }
    }

    /// Removes every registration of `sr` from this node and all nodes below it.
    pub fn purge_spring(&mut self, sr: SpringRef)
        ensures
            forall|x: SpringRef|
                #[trigger] final(self).spring_count(x) == if x == sr { 0 } else { old(self).spring_count(x) },
            forall|x: MassRef| #[trigger] final(self).mass_count(x) == old(self).mass_count(x),
            forall|p: Seq<usize>| #[trigger] final(self).valid_path(p) == old(self).valid_path(p),
            Self::pruned(*old(self), *final(self), no_mass(), is_spring(sr)),
        decreases old(self).size(),
    {
        self.delete_spring(sr);
        let ghost sub0 = self.subassemblies@;
        let n = self.subassemblies.len();
        let mut i: usize = 0;
        while i < n
            invariant
                n == self.subassemblies@.len(),
                n == sub0.len(),
                0 <= i <= n,
                sub0 == old(self).subassemblies@,
                forall|j: int| i <= j < n ==> #[trigger] self.subassemblies@[j] == sub0[j],
                forall|j: int, p: Seq<usize>| 0 <= j < i ==>
                    #[trigger] self.subassemblies@[j].valid_path(p) == sub0[j].valid_path(p),
                forall|x: SpringRef|
                    #[trigger] Self::spring_count_seq(self.subassemblies@, x) + if x == sr {
                        Self::spring_count_seq(sub0.subrange(0, i as int), x)
                    } else {
                        0
                    } == Self::spring_count_seq(sub0, x),
                forall|x: MassRef|
                    #[trigger] Self::mass_count_seq(self.subassemblies@, x) == Self::mass_count_seq(sub0, x),
                forall|x: SpringRef|
                    #[trigger] occurrences(self.springs@, x) == if x == sr { 0 } else {
                        occurrences(old(self).springs@, x)
                    },
                self.masses@ == old(self).masses@,
                self.springs@ == without(old(self).springs@, is_spring(sr)),
                self.name == old(self).name,
                forall|j: int| 0 <= j < i ==>
                    Self::pruned(#[trigger] sub0[j], self.subassemblies@[j], no_mass(), is_spring(sr)),
            decreases n - i,
        {
            let ghost cur = self.subassemblies@;
            proof {
                Self::lemma_size_seq_index(sub0, i as int);
            }
            self.subassemblies[i].purge_spring(sr);
            proof {
                let c = self.subassemblies@[i as int];
                assert(Self::pruned(sub0[i as int], c, no_mass(), is_spring(sr)));
                assert(self.subassemblies@ =~= cur.update(i as int, c));
                Self::lemma_count_seq_update(cur, i as int, c);
                assert forall|x: SpringRef|
                    #[trigger] Self::spring_count_seq(self.subassemblies@, x) + if x == sr {
                        Self::spring_count_seq(sub0.subrange(0, i + 1), x)
                    } else {
                        0
                    } == Self::spring_count_seq(sub0, x) by {
                    let w = sub0.subrange(0, i + 1);
                    assert(w.drop_last() =~= sub0.subrange(0, i as int));
                    assert(Self::spring_count_seq(w, x) == Self::spring_count_seq(w.drop_last(), x) + w.last().spring_count(x));
                    assert(Self::spring_count_seq(self.subassemblies@, x) + cur[i as int].spring_count(x)
                        == Self::spring_count_seq(cur, x) + c.spring_count(x));
                }
                assert forall|x: MassRef|
                    #[trigger] Self::mass_count_seq(self.subassemblies@, x) == Self::mass_count_seq(sub0, x) by {
                    assert(Self::mass_count_seq(self.subassemblies@, x) + cur[i as int].mass_count(x)
                        == Self::mass_count_seq(cur, x) + c.mass_count(x));
                }
            }
            i = i + 1;
        }
        proof {
            assert(sub0.subrange(0, n as int) =~= sub0);
            assert forall|x: SpringRef|
                #[trigger] self.spring_count(x) == if x == sr { 0 } else { old(self).spring_count(x) } by {
                assert(self.spring_count(x) == occurrences(self.springs@, x) + Self::spring_count_seq(self.subassemblies@, x));
                assert(old(self).spring_count(x) == occurrences(old(self).springs@, x) + Self::spring_count_seq(sub0, x));
            }
            assert forall|x: MassRef| #[trigger] self.mass_count(x) == old(self).mass_count(x) by {
                assert(self.mass_count(x) == occurrences(self.masses@, x) + Self::mass_count_seq(self.subassemblies@, x));
                assert(old(self).mass_count(x) == occurrences(old(self).masses@, x) + Self::mass_count_seq(sub0, x));
            }
            lemma_without_nothing(old(self).masses@, no_mass());
            assert(Self::pruned(*old(self), *self, no_mass(), is_spring(sr)));
            assert forall|p: Seq<usize>| #[trigger] self.valid_path(p) == old(self).valid_path(p) by {
                if p.len() > 0 && p[0] < n {
                    assert(self.subassemblies@[p[0] as int].valid_path(p.drop_first())
                        == sub0[p[0] as int].valid_path(p.drop_first()));
                }
            }
        }
    }

    /// A node below a list of children is counted in that list.
    proof fn lemma_count_seq_index(s: Seq<Assembly>, i: int)
        requires
            0 <= i < s.len(),
        ensures
            forall|x: SpringRef| #[trigger] s[i].spring_count(x) <= Self::spring_count_seq(s, x),
        decreases s.len(),
    {
        if i < s.len() - 1 {
            Self::lemma_count_seq_index(s.drop_last(), i);
        }
        assert forall|x: SpringRef| #[trigger] s[i].spring_count(x) <= Self::spring_count_seq(s, x) by {
            if i < s.len() - 1 {
                assert(s.drop_last()[i] == s[i]);
            }
            assert(Self::spring_count_seq(s, x) == Self::spring_count_seq(s.drop_last(), x) + s.last().spring_count(x));
        }
    }

    /// Unregisters, in this node and all nodes below it, every spring that has
    /// `mr` at one of its ends, and returns them.
    pub fn find_and_delete_connected_springs<U>(
        &mut self,
        mr: MassRef,
        springs: &OptionalVec<Spring<MassRef, U>, SpringRef>,
    ) -> (r: Vec<SpringRef>)
        requires
            forall|x: SpringRef| #[trigger] old(self).spring_count(x) > 0 ==> is_live(springs@, x.0 as int),
        ensures
            forall|x: SpringRef|
                #[trigger] final(self).spring_count(x) == if spring_touches(springs@, x, mr) { 0 } else {
                    old(self).spring_count(x)
                },
            forall|x: SpringRef|
                #[trigger] occurrences(r@, x) == if spring_touches(springs@, x, mr) {
                    old(self).spring_count(x)
                } else {
                    0
                },
            forall|x: MassRef| #[trigger] final(self).mass_count(x) == old(self).mass_count(x),
            forall|p: Seq<usize>| #[trigger] final(self).valid_path(p) == old(self).valid_path(p),
            Self::pruned(*old(self), *final(self), no_mass(), touching(springs@, mr)),
            r@ == old(self).found(touching(springs@, mr)),
        decreases old(self).size(),
    {
        let ghost own0 = self.springs@;
        let mut kept: Vec<SpringRef> = Vec::new();
        let mut r: Vec<SpringRef> = Vec::new();
        let m = self.springs.len();
        let mut k: usize = 0;
        while k < m
            invariant
                m == self.springs@.len(),
                own0 == self.springs@,
                own0 == old(self).springs@,
                0 <= k <= m,
                forall|x: SpringRef| #[trigger] old(self).spring_count(x) > 0 ==> is_live(springs@, x.0 as int),
                forall|x: SpringRef|
                    #[trigger] occurrences(kept@, x) == if spring_touches(springs@, x, mr) { 0 } else {
                        occurrences(own0.subrange(0, k as int), x)
                    },
                kept@ == without(own0.subrange(0, k as int), touching(springs@, mr)),
                r@ == only(own0.subrange(0, k as int), touching(springs@, mr)),
                forall|x: SpringRef|
                    #[trigger] occurrences(r@, x) == if spring_touches(springs@, x, mr) {
                        occurrences(own0.subrange(0, k as int), x)
                    } else {
                        0
                    },
            decreases m - k,
        {
            let e = self.springs[k];
            let ghost kept0 = kept@;
            let ghost r0 = r@;
            proof {
                lemma_occurrences_index(own0, k as int);
                assert(old(self).spring_count(e) > 0);
            }
            let sp = springs.index(e);
            let hit = sp.endpoints[0] == mr || sp.endpoints[1] == mr;
            if hit {
                r.push(e);
            } else {
                kept.push(e);
            }
            proof {
                assert(hit == spring_touches(springs@, e, mr));
                let w = own0.subrange(0, k + 1);
                assert(w.drop_last() =~= own0.subrange(0, k as int));
                assert(w.last() == e);
                if !hit {
                    assert(kept@ == kept0.push(e));
                } else {
                    assert(r@ == r0.push(e));
                }
                assert(r@ == only(w, touching(springs@, mr)));
                assert(kept@ == without(w, touching(springs@, mr)));
                assert forall|x: SpringRef|
                    occurrences(#[trigger] kept@, x) == (if spring_touches(springs@, x, mr) { 0 } else {
                        occurrences(own0.subrange(0, k + 1), x)
                    }) && occurrences(#[trigger] r@, x) == (if spring_touches(springs@, x, mr) {
                        occurrences(own0.subrange(0, k + 1), x)
                    } else {
                        0
                    }) by {
                    let w = own0.subrange(0, k + 1);
                    assert(w.drop_last() =~= own0.subrange(0, k as int));
                    assert(occurrences(w, x) == occurrences(w.drop_last(), x) + if w.last() == x { 1nat } else { 0nat });
                    if hit {
                        assert(r@.drop_last() =~= r0);
                        assert(kept@ == kept0);
                        assert(occurrences(r@, x) == occurrences(r@.drop_last(), x) + if r@.last() == x { 1nat } else { 0nat });
                    } else {
                        assert(kept@.drop_last() =~= kept0);
                        assert(r@ == r0);
                        assert(occurrences(kept@, x) == occurrences(kept@.drop_last(), x) + if kept@.last() == x { 1nat } else { 0nat });
                    }
                }
            }
            k = k + 1;
        }
        proof {
            assert(own0.subrange(0, m as int) =~= own0);
        }
        self.springs = kept;
        let ghost sub0 = self.subassemblies@;
        let n = self.subassemblies.len();
        let mut i: usize = 0;
        while i < n
            invariant
                n == self.subassemblies@.len(),
                n == sub0.len(),
                0 <= i <= n,
                sub0 == old(self).subassemblies@,
                own0 == old(self).springs@,
                forall|x: SpringRef| #[trigger] old(self).spring_count(x) > 0 ==> is_live(springs@, x.0 as int),
                forall|j: int| i <= j < n ==> #[trigger] self.subassemblies@[j] == sub0[j],
                forall|j: int, p: Seq<usize>| 0 <= j < i ==>
                    #[trigger] self.subassemblies@[j].valid_path(p) == sub0[j].valid_path(p),
                forall|x: SpringRef|
                    #[trigger] Self::spring_count_seq(self.subassemblies@, x) + if spring_touches(springs@, x, mr) {
                        Self::spring_count_seq(sub0.subrange(0, i as int), x)
                    } else {
                        0
                    } == Self::spring_count_seq(sub0, x),
                forall|x: SpringRef|
                    #[trigger] occurrences(r@, x) == if spring_touches(springs@, x, mr) {
                        occurrences(own0, x) + Self::spring_count_seq(sub0.subrange(0, i as int), x)
                    } else {
                        0
                    },
                forall|x: MassRef|
                    #[trigger] Self::mass_count_seq(self.subassemblies@, x) == Self::mass_count_seq(sub0, x),
                forall|x: SpringRef|
                    #[trigger] occurrences(self.springs@, x) == if spring_touches(springs@, x, mr) { 0 } else {
                        occurrences(own0, x)
                    },
                self.masses@ == old(self).masses@,
                self.springs@ == without(own0, touching(springs@, mr)),
                r@ == only(own0, touching(springs@, mr)) + Self::found_seq(
                    sub0.subrange(0, i as int),
                    touching(springs@, mr),
                ),
                self.name == old(self).name,
                forall|j: int| 0 <= j < i ==>
                    Self::pruned(#[trigger] sub0[j], self.subassemblies@[j], no_mass(), touching(springs@, mr)),
            decreases n - i,
        {
            let ghost cur = self.subassemblies@;
            let ghost r0 = r@;
            proof {
                Self::lemma_size_seq_index(sub0, i as int);
                Self::lemma_count_seq_index(sub0, i as int);
                assert forall|x: SpringRef| #[trigger] sub0[i as int].spring_count(x) > 0 implies is_live(springs@, x.0 as int) by {
                    assert(old(self).spring_count(x) == occurrences(own0, x) + Self::spring_count_seq(sub0, x));
                }
            }
            let mut found = self.subassemblies[i].find_and_delete_connected_springs(mr, springs);
            let ghost f0 = found@;
            r.append(&mut found);
            proof {
                let c = self.subassemblies@[i as int];
                assert(Self::pruned(sub0[i as int], c, no_mass(), touching(springs@, mr)));
                let w = sub0.subrange(0, i + 1);
                assert(w.drop_last() =~= sub0.subrange(0, i as int));
                assert(w.last() == sub0[i as int]);
                assert(f0 == sub0[i as int].found(touching(springs@, mr)));
                assert(r@ =~= only(own0, touching(springs@, mr)) + Self::found_seq(w, touching(springs@, mr)));
                assert(self.subassemblies@ =~= cur.update(i as int, c));
                Self::lemma_count_seq_update(cur, i as int, c);
                assert forall|x: SpringRef|
                    #[trigger] Self::spring_count_seq(self.subassemblies@, x) + (if spring_touches(springs@, x, mr) {
                        Self::spring_count_seq(sub0.subrange(0, i + 1), x)
                    } else {
                        0
                    }) == Self::spring_count_seq(sub0, x) by {
                    let w = sub0.subrange(0, i + 1);
                    assert(w.drop_last() =~= sub0.subrange(0, i as int));
                    assert(Self::spring_count_seq(w, x) == Self::spring_count_seq(w.drop_last(), x) + w.last().spring_count(x));
                    assert(Self::spring_count_seq(self.subassemblies@, x) + cur[i as int].spring_count(x)
                        == Self::spring_count_seq(cur, x) + c.spring_count(x));
                }
                assert forall|x: SpringRef|
                    #[trigger] occurrences(r@, x) == (if spring_touches(springs@, x, mr) {
                        occurrences(own0, x) + Self::spring_count_seq(sub0.subrange(0, i + 1), x)
                    } else {
                        0
                    }) by {
                    let w = sub0.subrange(0, i + 1);
                    assert(w.drop_last() =~= sub0.subrange(0, i as int));
                    assert(Self::spring_count_seq(w, x) == Self::spring_count_seq(w.drop_last(), x) + w.last().spring_count(x));
                    lemma_occurrences_add(r0, f0, x);
                    assert(r@ == r0 + f0);
                }
                assert forall|x: MassRef|
                    #[trigger] Self::mass_count_seq(self.subassemblies@, x) == Self::mass_count_seq(sub0, x) by {
                    assert(Self::mass_count_seq(self.subassemblies@, x) + cur[i as int].mass_count(x)
                        == Self::mass_count_seq(cur, x) + c.mass_count(x));
                }
            }
            i = i + 1;
        }
        proof {
            assert(sub0.subrange(0, n as int) =~= sub0);
            assert forall|x: SpringRef|
                #[trigger] self.spring_count(x) == if spring_touches(springs@, x, mr) { 0 } else {
                    old(self).spring_count(x)
                } by {
                assert(self.spring_count(x) == occurrences(self.springs@, x) + Self::spring_count_seq(self.subassemblies@, x));
                assert(old(self).spring_count(x) == occurrences(own0, x) + Self::spring_count_seq(sub0, x));
            }
            assert forall|x: MassRef| #[trigger] self.mass_count(x) == old(self).mass_count(x) by {
                assert(self.mass_count(x) == occurrences(self.masses@, x) + Self::mass_count_seq(self.subassemblies@, x));
                assert(old(self).mass_count(x) == occurrences(old(self).masses@, x) + Self::mass_count_seq(sub0, x));
            }
            assert forall|x: SpringRef|
                #[trigger] occurrences(r@, x) == if spring_touches(springs@, x, mr) {
                    old(self).spring_count(x)
                } else {
                    0
                } by {
                assert(old(self).spring_count(x) == occurrences(own0, x) + Self::spring_count_seq(sub0, x));
            }
            lemma_without_nothing(old(self).masses@, no_mass());
            assert(Self::pruned(*old(self), *self, no_mass(), touching(springs@, mr)));
            assert(r@ == old(self).found(touching(springs@, mr)));
            assert forall|p: Seq<usize>| #[trigger] self.valid_path(p) == old(self).valid_path(p) by {
                if p.len() > 0 && p[0] < n {
                    assert(self.subassemblies@[p[0] as int].valid_path(p.drop_first())
                        == sub0[p[0] as int].valid_path(p.drop_first()));
                }
            }
        }
        r
    }

    /// Replacing one child changes the counts below a list of children by the
    /// difference between the old child and the new one.
    pub proof fn lemma_count_seq_update(s: Seq<Assembly>, i: int, b: Assembly)
        requires
            0 <= i < s.len(),
        ensures
            forall|m: MassRef|
                #[trigger] Self::mass_count_seq(s.update(i, b), m) + s[i].mass_count(m)
                    == Self::mass_count_seq(s, m) + b.mass_count(m),
            forall|sr: SpringRef|
                #[trigger] Self::spring_count_seq(s.update(i, b), sr) + s[i].spring_count(sr)
                    == Self::spring_count_seq(s, sr) + b.spring_count(sr),
        decreases s.len(),
    {
        let t = s.update(i, b);
        if i == s.len() - 1 {
            assert(t.drop_last() =~= s.drop_last());
        } else {
            assert(t.drop_last() =~= s.drop_last().update(i, b));
            Self::lemma_count_seq_update(s.drop_last(), i, b);
        }
        assert forall|m: MassRef|
            #[trigger] Self::mass_count_seq(s.update(i, b), m) + s[i].mass_count(m)
                == Self::mass_count_seq(s, m) + b.mass_count(m) by {
            assert(Self::mass_count_seq(t, m) == Self::mass_count_seq(t.drop_last(), m) + t.last().mass_count(m));
            assert(Self::mass_count_seq(s, m) == Self::mass_count_seq(s.drop_last(), m) + s.last().mass_count(m));
        }
        assert forall|sr: SpringRef|
            #[trigger] Self::spring_count_seq(s.update(i, b), sr) + s[i].spring_count(sr)
                == Self::spring_count_seq(s, sr) + b.spring_count(sr) by {
            assert(Self::spring_count_seq(t, sr) == Self::spring_count_seq(t.drop_last(), sr) + t.last().spring_count(sr));
            assert(Self::spring_count_seq(s, sr) == Self::spring_count_seq(s.drop_last(), sr) + s.last().spring_count(sr));
        }
    }

    /// Appending `m` at a path adds one registration of `m` and nothing else.
    pub proof fn lemma_mass_added_at(old: Assembly, new: Assembly, path: Seq<usize>, m: MassRef)
        requires
            Self::mass_added_at(old, new, path, m),
        ensures
            forall|x: MassRef|
                #[trigger] new.mass_count(x) == old.mass_count(x) + if x == m { 1nat } else { 0nat },
            forall|sr: SpringRef| #[trigger] new.spring_count(sr) == old.spring_count(sr),
        decreases path.len(),
    {
        if path.len() == 0 {
            assert(new.masses@.drop_last() =~= old.masses@);
        } else {
            let i = path[0] as int;
            let c = new.subassemblies@[i];
            Self::lemma_mass_added_at(old.subassemblies@[i], c, path.drop_first(), m);
            Self::lemma_count_seq_update(old.subassemblies@, i, c);
        }
        assert forall|x: MassRef|
            #[trigger] new.mass_count(x) == old.mass_count(x) + if x == m { 1nat } else { 0nat } by {
            if path.len() == 0 {
                assert(occurrences(new.masses@, x) == occurrences(new.masses@.drop_last(), x)
                    + if new.masses@.last() == x { 1nat } else { 0nat });
            } else {
                let i = path[0] as int;
                assert(Self::mass_count_seq(new.subassemblies@, x) + old.subassemblies@[i].mass_count(x)
                    == Self::mass_count_seq(old.subassemblies@, x) + new.subassemblies@[i].mass_count(x));
            }
        }
        assert forall|y: SpringRef| #[trigger] new.spring_count(y) == old.spring_count(y) by {
            if path.len() > 0 {
                let i = path[0] as int;
                assert(Self::spring_count_seq(new.subassemblies@, y) + old.subassemblies@[i].spring_count(y)
                    == Self::spring_count_seq(old.subassemblies@, y) + new.subassemblies@[i].spring_count(y));
            }
        }
    }

    /// After appending `m` at a path, the node there holds `m`.
    pub proof fn lemma_mass_added_at_node(old: Assembly, new: Assembly, path: Seq<usize>, m: MassRef)
        requires
            Self::mass_added_at(old, new, path, m),
        ensures
            new.node_at(path).masses@.contains(m),
        decreases path.len(),
    {
        if path.len() == 0 {
            assert(new.masses@.last() == m);
        } else {
            Self::lemma_mass_added_at_node(
                old.subassemblies@[path[0] as int],
                new.subassemblies@[path[0] as int],
                path.drop_first(),
                m,
            );
        }
    }

    /// After appending `sr` at a path, the node there holds `sr`.
    pub proof fn lemma_spring_added_at_node(old: Assembly, new: Assembly, path: Seq<usize>, sr: SpringRef)
        requires
            Self::spring_added_at(old, new, path, sr),
        ensures
            new.node_at(path).springs@.contains(sr),
        decreases path.len(),
    {
        if path.len() == 0 {
            assert(new.springs@.last() == sr);
        } else {
            Self::lemma_spring_added_at_node(
                old.subassemblies@[path[0] as int],
                new.subassemblies@[path[0] as int],
                path.drop_first(),
                sr,
            );
        }
    }

    /// Appending `sr` at a path adds one registration of `sr` and nothing else.
    pub proof fn lemma_spring_added_at(old: Assembly, new: Assembly, path: Seq<usize>, sr: SpringRef)
        requires
            Self::spring_added_at(old, new, path, sr),
        ensures
            forall|x: SpringRef|
                #[trigger] new.spring_count(x) == old.spring_count(x) + if x == sr { 1nat } else { 0nat },
            forall|m: MassRef| #[trigger] new.mass_count(m) == old.mass_count(m),
        decreases path.len(),
    {
        if path.len() == 0 {
            assert(new.springs@.drop_last() =~= old.springs@);
        } else {
            let i = path[0] as int;
            let c = new.subassemblies@[i];
            Self::lemma_spring_added_at(old.subassemblies@[i], c, path.drop_first(), sr);
            Self::lemma_count_seq_update(old.subassemblies@, i, c);
        }
        assert forall|x: SpringRef|
            #[trigger] new.spring_count(x) == old.spring_count(x) + if x == sr { 1nat } else { 0nat } by {
            if path.len() == 0 {
                assert(occurrences(new.springs@, x) == occurrences(new.springs@.drop_last(), x)
                    + if new.springs@.last() == x { 1nat } else { 0nat });
            } else {
                let i = path[0] as int;
                assert(Self::spring_count_seq(new.subassemblies@, x) + old.subassemblies@[i].spring_count(x)
                    == Self::spring_count_seq(old.subassemblies@, x) + new.subassemblies@[i].spring_count(x));
            }
        }
        assert forall|y: MassRef| #[trigger] new.mass_count(y) == old.mass_count(y) by {
            if path.len() > 0 {
                let i = path[0] as int;
                assert(Self::mass_count_seq(new.subassemblies@, y) + old.subassemblies@[i].mass_count(y)
                    == Self::mass_count_seq(old.subassemblies@, y) + new.subassemblies@[i].mass_count(y));
            }
        }
    }
}

} // verus!
