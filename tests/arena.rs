use mass_spring::arena::Arena;
use mass_spring::arena::MassIndex;
use mass_spring::arena::SpringIndex;
use mass_spring::compact::detach_mass;
use mass_spring::types::Mass;
use mass_spring::types::Spring;

fn m(x: i32) -> Mass<i32, i32> {
    Mass { pos: x, vel: 0, acc: 0, mass: None, fixed: false }
}

fn s(a: u32, b: u32, len: i32) -> Spring<MassIndex, i32> {
    Spring { endpoints: [MassIndex(a), MassIndex(b)], length: len, stiffness: None }
}

#[test]
fn arena_views_add_and_index() {
    let mut a: Arena<i32, i32> = Arena::new();
    {
        let mut masses = a.masses_mut();
        assert_eq!(masses.add(m(10)), MassIndex(0));
        assert_eq!(masses.add(m(11)), MassIndex(1));
        assert_eq!(masses.index(MassIndex(1)).pos, 11);
    }
    {
        let mut springs = a.springs_mut();
        assert_eq!(springs.add(s(0, 1, 5)), SpringIndex(0));
    }
    assert_eq!(a.masses().index(MassIndex(0)).pos, 10);
    assert_eq!(a.springs().index(SpringIndex(0)).length, 5);
}

#[test]
fn removing_a_mass_detaches_and_renumbers_springs() {
    let mut a: Arena<i32, i32> = Arena::new();
    {
        let mut masses = a.masses_mut();
        for x in 0..4 {
            masses.add(m(x));
        }
    }
    {
        let mut springs = a.springs_mut();
        springs.add(s(0, 1, 1));
        springs.add(s(1, 2, 2));
        springs.add(s(2, 3, 3));
        springs.add(s(3, 0, 4));
    }
    a.masses_mut().remove(MassIndex(1));
    assert_eq!(a.masses().index(MassIndex(1)).pos, 2);
    let springs = a.springs();
    assert_eq!(springs.index(SpringIndex(0)).endpoints, [MassIndex(1), MassIndex(2)]);
    assert_eq!(springs.index(SpringIndex(0)).length, 3);
    assert_eq!(springs.index(SpringIndex(1)).endpoints, [MassIndex(2), MassIndex(0)]);
    assert_eq!(springs.index(SpringIndex(1)).length, 4);
}

#[test]
fn removing_a_spring_shifts_the_rest() {
    let mut a: Arena<i32, i32> = Arena::new();
    {
        let mut springs = a.springs_mut();
        springs.add(s(0, 0, 1));
        springs.add(s(0, 0, 2));
        springs.add(s(0, 0, 3));
        springs.remove(SpringIndex(0));
    }
    assert_eq!(a.springs().index(SpringIndex(0)).length, 2);
    assert_eq!(a.springs().index(SpringIndex(1)).length, 3);
}

#[test]
fn detach_mass_keeps_order_of_survivors() {
    let mut v = vec![s(5, 2, 1), s(0, 2, 2), s(3, 4, 3), s(1, 6, 4)];
    detach_mass(&mut v, MassIndex(2));
    assert_eq!(v.len(), 2);
    assert_eq!(v[0].endpoints, [MassIndex(2), MassIndex(3)]);
    assert_eq!(v[1].endpoints, [MassIndex(1), MassIndex(5)]);
    assert_eq!((v[0].length, v[1].length), (3, 4));
}

#[test]
fn view_mut_index_mut_writes_one_element() {
    let mut a: Arena<i32, i32> = Arena::new();
    {
        let mut masses = a.masses_mut();
        masses.add(m(1));
        masses.add(m(2));
        masses.index_mut(MassIndex(1)).vel = 9;
    }
    assert_eq!(a.masses().index(MassIndex(1)).vel, 9);
    assert_eq!(a.masses().index(MassIndex(0)).vel, 0);
}

#[test]
fn arena_remove_mass_detaches_springs() {
    let mut a: Arena<i32, i32> = Arena::new();
    for x in 0..3 {
        a.add_mass(m(x));
    }
    assert_eq!(a.add_spring(s(0, 2, 7)), SpringIndex(0));
    a.add_spring(s(1, 2, 8));
    a.remove_mass(MassIndex(0));
    assert_eq!(a.masses().index(MassIndex(0)).pos, 1);
    assert_eq!(a.springs().index(SpringIndex(0)).endpoints, [MassIndex(0), MassIndex(1)]);
    assert_eq!(a.springs().index(SpringIndex(0)).length, 8);
    a.remove_spring(SpringIndex(0));
    let n = a.with_mut(|ms, ss| {
        ms[0].vel = 5;
        ss.len()
    });
    assert_eq!(n, 0);
    assert_eq!(a.masses().index(MassIndex(0)).vel, 5);
}
