use std::cell::RefCell;
use std::rc::Rc;

use mass_spring::assembly::Assembly;
use mass_spring::types::Mass;
use mass_spring::types::Spring;
use mass_spring::world::Extension;
use mass_spring::world::MassRef;
use mass_spring::world::Notification;
use mass_spring::world::OptionalVec;
use mass_spring::world::SpringRef;
use mass_spring::world::World;

struct TestExtension;

impl<U> Extension<U> for TestExtension {
    fn add_mass(&mut self, _: MassRef) {}
    fn delete_mass(&mut self, _: MassRef) {}
    fn add_spring(&mut self, _: SpringRef) {}
    fn delete_spring(&mut self, _: SpringRef) {}
}

struct Recorder {
    id: usize,
    log: Rc<RefCell<Vec<(usize, Notification)>>>,
}

impl<U> Extension<U> for Recorder {
    fn add_mass(&mut self, mr: MassRef) {
        self.log.borrow_mut().push((self.id, Notification::AddMass(mr)));
    }
    fn delete_mass(&mut self, mr: MassRef) {
        self.log.borrow_mut().push((self.id, Notification::DeleteMass(mr)));
    }
    fn add_spring(&mut self, sr: SpringRef) {
        self.log.borrow_mut().push((self.id, Notification::AddSpring(sr)));
    }
    fn delete_spring(&mut self, sr: SpringRef) {
        self.log.borrow_mut().push((self.id, Notification::DeleteSpring(sr)));
    }
}

type W<E> = World<i64, i64, E>;

fn mass_at(x: i64) -> Mass<i64, i64> {
    Mass { pos: x, vel: 0, acc: 0, mass: None, fixed: false }
}

fn spring(a: MassRef, b: MassRef) -> Spring<MassRef, i64> {
    Spring { endpoints: [a, b], length: 1, stiffness: None }
}

fn mass_regs(a: &Assembly, m: MassRef) -> usize {
    a.masses.iter().filter(|&&x| x == m).count()
        + a.subassemblies.iter().map(|c| mass_regs(c, m)).sum::<usize>()
}

fn spring_regs(a: &Assembly, s: SpringRef) -> usize {
    a.springs.iter().filter(|&&x| x == s).count()
        + a.subassemblies.iter().map(|c| spring_regs(c, s)).sum::<usize>()
}

fn with_children() -> W<TestExtension> {
    let mut w: W<TestExtension> = World::new();
    let mut a = Assembly::new(String::from("a"));
    a.subassemblies.push(Assembly::new(String::from("a0")));
    w.root.subassemblies.push(a);
    w.root.subassemblies.push(Assembly::new(String::from("b")));
    w
}

#[test]
fn test_spring_borrow() {
    let mut w: W<TestExtension> = World::new();
    for (_, s) in w.springs.iter() {
        let acc = w.masses.index(s.endpoints[1]).acc;
        w.masses.index_mut(s.endpoints[0]).acc = acc;
    }
    assert_eq!(w.springs.iter().len(), 0);
}

#[test]
fn test_extension_cast() {
    let mut w: W<TestExtension> = World::new();
    w.extensions.push(TestExtension);
    assert_eq!(w.extensions.len(), 1);
}

#[test]
fn store_reuses_lowest_hole() {
    let mut v: OptionalVec<&str, MassRef> = OptionalVec::new();
    let a = v.add("a");
    let b = v.add("b");
    let c = v.add("c");
    assert_eq!((a, b, c), (MassRef(0), MassRef(1), MassRef(2)));
    v.remove(c);
    v.remove(a);
    assert_eq!(v.add("d"), MassRef(0));
    assert_eq!(v.add("e"), MassRef(2));
    assert_eq!(v.add("f"), MassRef(3));
    assert_eq!(*v.index(MassRef(2)), "e");
    assert_eq!(v.len(), 4);
}

#[test]
fn store_iter_skips_holes_in_slot_order() {
    let mut v: OptionalVec<i32, SpringRef> = OptionalVec::new();
    for k in 0..5 {
        v.add(k * 10);
    }
    v.remove(SpringRef(1));
    v.remove(SpringRef(3));
    let items: Vec<(SpringRef, i32)> = v.iter().into_iter().map(|(r, x)| (r, *x)).collect();
    assert_eq!(items, vec![(SpringRef(0), 0), (SpringRef(2), 20), (SpringRef(4), 40)]);
    assert!(v.contains(SpringRef(2)));
    assert!(!v.contains(SpringRef(3)));
    assert!(!v.contains(SpringRef(9)));
}

#[test]
fn store_density_under_churn() {
    let mut v: OptionalVec<u8, MassRef> = OptionalVec::new();
    let mut adds = 0;
    let mut removes = 0;
    for round in 0..20u8 {
        v.add(round);
        adds += 1;
        if round % 3 == 0 {
            v.remove(MassRef((round as usize) / 2));
            removes += 1;
        }
    }
    assert_eq!(v.iter().len(), adds - removes);
    assert!(v.len() <= adds);
    assert_eq!(v.len(), 13);
}

#[test]
fn store_index_mut_changes_one_value() {
    let mut v: OptionalVec<i32, MassRef> = OptionalVec::new();
    v.add(1);
    v.add(2);
    *v.index_mut(MassRef(1)) = 7;
    assert_eq!(*v.index(MassRef(0)), 1);
    assert_eq!(*v.index(MassRef(1)), 7);
}

#[test]
fn check_path_follows_child_indices() {
    let w = with_children();
    assert!(w.root.check_path(&[]));
    assert!(w.root.check_path(&[0]));
    assert!(w.root.check_path(&[0, 0]));
    assert!(w.root.check_path(&[1]));
    assert!(!w.root.check_path(&[2]));
    assert!(!w.root.check_path(&[1, 0]));
    assert!(!w.root.check_path(&[0, 0, 0]));
}

#[test]
fn assembly_add_and_delete_own_lists() {
    let mut a = Assembly::new(String::from("n"));
    a.subassemblies.push(Assembly::new(String::from("c")));
    a.add_mass(MassRef(3));
    a.add_mass(MassRef(4));
    a.add_mass(MassRef(3));
    assert!(a.add_mass_to(MassRef(3), &[0]));
    assert!(!a.add_mass_to(MassRef(5), &[1]));
    a.delete_mass(MassRef(3));
    assert_eq!(a.masses, vec![MassRef(4)]);
    assert_eq!(a.subassemblies[0].masses, vec![MassRef(3)]);
    a.add_spring(SpringRef(1));
    assert!(a.add_spring_to(SpringRef(1), &[0]));
    a.delete_spring(SpringRef(1));
    assert!(a.springs.is_empty());
    assert_eq!(a.subassemblies[0].springs, vec![SpringRef(1)]);
}

#[test]
fn add_mass_to_invalid_path_stores_nothing() {
    let mut w = with_children();
    w.add_mass(mass_at(0));
    assert_eq!(w.add_mass_to(mass_at(1), &[5]), None);
    assert_eq!(w.add_mass_to(mass_at(1), &[0, 3]), None);
    assert_eq!(w.masses.len(), 1);
    assert_eq!(w.masses.iter().len(), 1);
    let m = w.add_mass_to(mass_at(2), &[0, 0]).unwrap();
    assert_eq!(w.root.subassemblies[0].subassemblies[0].masses, vec![m]);
}

#[test]
fn add_spring_to_invalid_path_stores_nothing() {
    let mut w = with_children();
    let a = w.add_mass(mass_at(0));
    let b = w.add_mass(mass_at(1));
    assert_eq!(w.add_spring_to(spring(a, b), &[7]), None);
    assert_eq!(w.springs.len(), 0);
    let s = w.add_spring_to(spring(a, b), &[1]).unwrap();
    assert_eq!(w.root.subassemblies[1].springs, vec![s]);
}

#[test]
fn cascading_delete_removes_attached_springs() {
    let mut w = with_children();
    let a = w.add_mass(mass_at(0));
    let b = w.add_mass_to(mass_at(1), &[1]).unwrap();
    let c = w.add_mass(mass_at(2));
    let s = w.add_spring_to(spring(a, b), &[0, 0]).unwrap();
    let t = w.add_spring(spring(c, a));
    let u = w.add_spring(spring(b, c));
    w.delete_mass(a);
    assert!(!w.masses.contains(a));
    assert!(!w.springs.contains(s));
    assert!(!w.springs.contains(t));
    assert!(w.springs.contains(u));
    assert_eq!(spring_regs(&w.root, s), 0);
    assert_eq!(spring_regs(&w.root, t), 0);
    assert_eq!(spring_regs(&w.root, u), 1);
    assert!(w.masses.contains(b));
    assert_eq!(mass_regs(&w.root, b), 1);
    assert_eq!(mass_regs(&w.root, a), 0);
}

#[test]
fn delete_mass_in_subassembly_unregisters_it() {
    let mut w = with_children();
    let a = w.add_mass_to(mass_at(0), &[0, 0]).unwrap();
    w.delete_mass(a);
    assert!(w.root.subassemblies[0].subassemblies[0].masses.is_empty());
    let b = w.add_mass(mass_at(5));
    assert_eq!(b, a);
    assert_eq!(mass_regs(&w.root, b), 1);
}

#[test]
fn delete_spring_frees_slot_only() {
    let mut w = with_children();
    let a = w.add_mass(mass_at(0));
    let b = w.add_mass(mass_at(1));
    let s = w.add_spring_to(spring(a, b), &[0]).unwrap();
    w.delete_spring(s);
    assert!(!w.springs.contains(s));
    assert!(w.root.subassemblies[0].springs.is_empty());
    assert!(w.masses.contains(a) && w.masses.contains(b));
}

#[test]
fn moves_keep_single_registration() {
    let mut w = with_children();
    let a = w.add_mass(mass_at(0));
    let b = w.add_mass(mass_at(1));
    let s = w.add_spring(spring(a, b));
    assert!(w.move_mass_to(a, &[0, 0]));
    assert!(w.move_mass_to(a, &[1]));
    assert!(!w.move_mass_to(a, &[4]));
    assert!(w.move_spring_to(s, &[0]));
    assert!(!w.move_spring_to(s, &[0, 1]));
    assert_eq!(mass_regs(&w.root, a), 1);
    assert_eq!(w.root.subassemblies[1].masses, vec![a]);
    assert_eq!(mass_regs(&w.root, b), 1);
    assert_eq!(spring_regs(&w.root, s), 1);
    assert_eq!(w.root.subassemblies[0].springs, vec![s]);
    assert!(w.root.springs.is_empty());
}

#[test]
fn extensions_hear_each_change_in_order() {
    let log = Rc::new(RefCell::new(Vec::new()));
    let mut w: W<Recorder> = World::new();
    w.extensions.push(Recorder { id: 0, log: log.clone() });
    w.extensions.push(Recorder { id: 1, log: log.clone() });
    let a = w.add_mass(mass_at(0));
    let b = w.add_mass(mass_at(1));
    let s = w.add_spring(spring(a, b));
    assert!(w.move_mass_to(b, &[]));
    w.delete_mass(a);
    let expected = vec![
        (0, Notification::AddMass(a)),
        (1, Notification::AddMass(a)),
        (0, Notification::AddMass(b)),
        (1, Notification::AddMass(b)),
        (0, Notification::AddSpring(s)),
        (1, Notification::AddSpring(s)),
        (0, Notification::DeleteSpring(s)),
        (1, Notification::DeleteSpring(s)),
        (0, Notification::DeleteMass(a)),
        (1, Notification::DeleteMass(a)),
    ];
    assert_eq!(*log.borrow(), expected);
    w.delete_mass(b);
    assert_eq!(log.borrow().len(), 12);
    assert_eq!(log.borrow()[11], (1, Notification::DeleteMass(b)));
}

#[test]
fn failed_insertions_are_not_announced() {
    let log = Rc::new(RefCell::new(Vec::new()));
    let mut w: W<Recorder> = World::new();
    w.extensions.push(Recorder { id: 0, log: log.clone() });
    assert_eq!(w.add_mass_to(mass_at(0), &[0]), None);
    assert!(log.borrow().is_empty());
}

#[test]
fn world_accessors_read_and_write() {
    let mut w: W<TestExtension> = World::new();
    let a = w.add_mass(mass_at(3));
    let b = w.add_mass(mass_at(4));
    let s = w.add_spring(spring(a, b));
    assert_eq!(w.mass(a).pos, 3);
    w.mass_mut(a).vel = 9;
    assert_eq!(w.mass(a).vel, 9);
    assert_eq!(w.spring(s).endpoints, [a, b]);
    assert_eq!(w.root.name, "$root_assembly");
}

#[test]
fn purge_and_find_walk_the_whole_tree() {
    let mut w = with_children();
    let a = w.add_mass(mass_at(0));
    let b = w.add_mass(mass_at(1));
    let s = w.add_spring_to(spring(a, b), &[0, 0]).unwrap();
    let t = w.add_spring_to(spring(b, b), &[1]).unwrap();
    let found = w.root.find_and_delete_connected_springs(a, &w.springs);
    assert_eq!(found, vec![s]);
    assert_eq!(spring_regs(&w.root, s), 0);
    assert_eq!(spring_regs(&w.root, t), 1);
    let mut tree = Assembly::new(String::from("t"));
    tree.subassemblies.push(Assembly::new(String::from("u")));
    tree.add_mass(MassRef(1));
    assert!(tree.add_mass_to(MassRef(1), &[0]));
    assert!(tree.add_spring_to(SpringRef(2), &[0]));
    tree.purge_mass(MassRef(1));
    tree.purge_spring(SpringRef(2));
    assert_eq!(mass_regs(&tree, MassRef(1)), 0);
    assert_eq!(spring_regs(&tree, SpringRef(2)), 0);
    assert_eq!(tree.subassemblies.len(), 1);
}

#[test]
fn store_iter_mut_changes_values_in_place() {
    let mut v: OptionalVec<i32, MassRef> = OptionalVec::new();
    for k in 0..4 {
        v.add(k);
    }
    v.remove(MassRef(2));
    let handles: Vec<MassRef> = v.iter_mut().into_iter().map(|(r, _)| r).collect();
    assert_eq!(handles, vec![MassRef(0), MassRef(1), MassRef(3)]);
    for (r, x) in v.iter_mut() {
        *x += 100 * r.0 as i32;
    }
    assert_eq!(*v.index(MassRef(0)), 0);
    assert_eq!(*v.index(MassRef(1)), 101);
    assert_eq!(*v.index(MassRef(3)), 303);
    assert!(!v.contains(MassRef(2)));
}

#[test]
fn delete_mass_keeps_tree_and_other_registrations() {
    let mut w = with_children();
    let a = w.add_mass(mass_at(0));
    let b = w.add_mass(mass_at(1));
    let c = w.add_mass_to(mass_at(2), &[0, 0]).unwrap();
    let s = w.add_spring(spring(a, b));
    let t = w.add_spring_to(spring(b, c), &[1]).unwrap();
    w.delete_mass(a);
    assert_eq!(w.root.masses, vec![b]);
    assert!(w.root.springs.is_empty());
    assert!(!w.springs.contains(s));
    assert_eq!(w.root.subassemblies[1].springs, vec![t]);
    assert_eq!(w.root.subassemblies[0].subassemblies[0].masses, vec![c]);
    assert_eq!(w.root.name, "$root_assembly");
    assert_eq!(w.root.subassemblies[0].name, "a");
    assert_eq!(w.root.subassemblies[0].subassemblies[0].name, "a0");
    assert_eq!(w.root.subassemblies[1].name, "b");
    assert_eq!(w.mass(b).pos, 1);
}

#[test]
fn replace_spring_rewrites_one_spring() {
    let mut w: W<TestExtension> = World::new();
    let a = w.add_mass(mass_at(0));
    let b = w.add_mass(mass_at(1));
    let c = w.add_mass(mass_at(2));
    let s = w.add_spring(spring(a, b));
    w.replace_spring(s, Spring { endpoints: [b, c], length: 4, stiffness: Some(2) });
    assert_eq!(w.spring(s).endpoints, [b, c]);
    assert_eq!(w.spring(s).length, 4);
    w.delete_mass(c);
    assert!(!w.springs.contains(s));
}
