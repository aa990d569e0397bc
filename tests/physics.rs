use mass_spring::physics::mass_step;
use mass_spring::physics::tick;
use mass_spring::physics::Scalar;
use mass_spring::physics::Vector;
use mass_spring::types::Environment;
use mass_spring::types::Mass;
use mass_spring::types::Spring;
use mass_spring::world::Extension;
use mass_spring::world::MassRef;
use mass_spring::world::SpringRef;
use mass_spring::world::World;

#[derive(Clone, Copy, Debug, PartialEq)]
struct Num(f64);

impl Scalar for Num {
    fn spec_one() -> Num {
        Num::one()
    }
    fn spec_minus(self, o: Num) -> Num {
        self.minus(o)
    }
    fn spec_times(self, o: Num) -> Num {
        self.times(o)
    }
    fn one() -> Num {
        Num(1.0)
    }
    fn minus(self, o: Num) -> Num {
        Num(self.0 - o.0)
    }
    fn times(self, o: Num) -> Num {
        Num(self.0 * o.0)
    }
}

#[derive(Clone, Copy, Debug, PartialEq)]
struct V2 {
    x: f64,
    y: f64,
}

fn v2(x: f64, y: f64) -> V2 {
    V2 { x, y }
}

impl Vector<Num> for V2 {
    fn spec_zero() -> V2 {
        V2::zero()
    }
    fn spec_plus(self, o: V2) -> V2 {
        self.plus(o)
    }
    fn spec_minus(self, o: V2) -> V2 {
        Vector::minus(self, o)
    }
    fn spec_scale(self, k: Num) -> V2 {
        self.scale(k)
    }
    fn spec_divide(self, k: Num) -> V2 {
        self.divide(k)
    }
    fn spec_magnitude(self) -> Num {
        self.magnitude()
    }
    fn spec_normalize(self) -> V2 {
        self.normalize()
    }
    fn spec_is_zero(self) -> bool {
        self.is_zero()
    }
    fn zero() -> V2 {
        v2(0.0, 0.0)
    }
    fn plus(self, o: V2) -> V2 {
        v2(self.x + o.x, self.y + o.y)
    }
    fn minus(self, o: V2) -> V2 {
        v2(self.x - o.x, self.y - o.y)
    }
    fn scale(self, k: Num) -> V2 {
        v2(self.x * k.0, self.y * k.0)
    }
    fn divide(self, k: Num) -> V2 {
        v2(self.x / k.0, self.y / k.0)
    }
    fn magnitude(self) -> Num {
        Num((self.x * self.x + self.y * self.y).sqrt())
    }
    fn normalize(self) -> V2 {
        let m = self.magnitude().0;
        v2(self.x / m, self.y / m)
    }
    fn is_zero(self) -> bool {
        self.x == 0.0 && self.y == 0.0
    }
}

struct Quiet;

impl<U> Extension<U> for Quiet {
    fn add_mass(&mut self, _: MassRef) {}
    fn delete_mass(&mut self, _: MassRef) {}
    fn add_spring(&mut self, _: SpringRef) {}
    fn delete_spring(&mut self, _: SpringRef) {}
}

fn env() -> Environment<V2, Num> {
    Environment { friction: Num(0.0), gravity: v2(0.0, 0.0), springiness: Num(3.0), width: Num(100.0), height: Num(100.0) }
}

fn body(x: f64, y: f64, mass: Option<f64>, fixed: bool) -> Mass<V2, Num> {
    Mass { pos: v2(x, y), vel: V2::zero(), acc: V2::zero(), mass: mass.map(Num), fixed }
}

fn close(a: f64, b: f64) -> bool {
    (a - b).abs() < 1e-12
}

#[test]
fn one_tick_on_a_stretched_spring() {
    let mut w: World<V2, Num, Quiet> = World::new();
    let free = w.add_mass(body(2.0, 0.0, Some(2.0), false));
    let anchor = w.add_mass(body(0.0, 0.0, None, true));
    w.add_spring(Spring { endpoints: [free, anchor], length: Num(1.0), stiffness: Some(Num(4.0)) });
    tick(&mut w, &env(), Num(0.1));
    let m = w.mass(free);
    assert!(close(m.acc.x, 2.0) && close(m.acc.y, 0.0));
    // the integrator divides the accumulated acceleration by the mass once more
    assert!(close(m.vel.x, 0.1) && close(m.vel.y, 0.0));
    assert!(close(m.pos.x - 2.0, 0.01) && close(m.pos.y, 0.0));
    let a = w.mass(anchor);
    assert_eq!(a.pos, v2(0.0, 0.0));
    assert_eq!(a.vel, v2(0.0, 0.0));
    assert!(close(a.acc.x, 4.0));
}

#[test]
fn stiffness_defaults_to_environment() {
    let mut w: World<V2, Num, Quiet> = World::new();
    let a = w.add_mass(body(0.0, 3.0, None, false));
    let b = w.add_mass(body(0.0, 0.0, None, true));
    w.add_spring(Spring { endpoints: [a, b], length: Num(1.0), stiffness: None });
    tick(&mut w, &env(), Num(1.0));
    let m = w.mass(a);
    assert!(close(m.acc.y, 6.0) && close(m.acc.x, 0.0));
    assert!(close(m.vel.y, 6.0));
    assert!(close(m.pos.y, 9.0));
}

#[test]
fn fixed_masses_never_move() {
    let mut w: World<V2, Num, Quiet> = World::new();
    let a = w.add_mass(body(5.0, 1.0, None, true));
    let b = w.add_mass(body(0.0, 0.0, Some(3.0), false));
    w.add_spring(Spring { endpoints: [a, b], length: Num(0.5), stiffness: Some(Num(10.0)) });
    for _ in 0..50 {
        tick(&mut w, &env(), Num(0.05));
        assert_eq!(w.mass(a).pos, v2(5.0, 1.0));
        assert_eq!(w.mass(a).vel, v2(0.0, 0.0));
    }
    assert!(w.mass(b).pos != v2(0.0, 0.0));
}

#[test]
fn coincident_ends_give_no_force() {
    let mut w: World<V2, Num, Quiet> = World::new();
    let a = w.add_mass(body(1.0, 1.0, None, false));
    let b = w.add_mass(body(1.0, 1.0, None, false));
    w.add_spring(Spring { endpoints: [a, b], length: Num(1.0), stiffness: None });
    tick(&mut w, &env(), Num(0.1));
    assert_eq!(w.mass(a).acc, v2(0.0, 0.0));
    assert_eq!(w.mass(b).pos, v2(1.0, 1.0));
    assert!(!w.mass(a).acc.x.is_nan());
}

#[test]
fn tick_resets_acceleration() {
    let mut w: World<V2, Num, Quiet> = World::new();
    let a = w.add_mass(body(0.0, 0.0, None, false));
    w.mass_mut(a).acc = v2(7.0, 7.0);
    tick(&mut w, &env(), Num(1.0));
    assert_eq!(w.mass(a).acc, v2(0.0, 0.0));
    assert_eq!(w.mass(a).pos, v2(0.0, 0.0));
}

#[test]
fn mass_step_is_semi_implicit() {
    let mut m = body(1.0, 0.0, Some(2.0), false);
    m.vel = v2(1.0, 0.0);
    m.acc = v2(4.0, 2.0);
    mass_step(&mut m, Num(0.5));
    assert!(close(m.vel.x, 2.0) && close(m.vel.y, 0.5));
    assert!(close(m.pos.x, 2.0) && close(m.pos.y, 0.25));
    assert_eq!(m.acc, v2(4.0, 2.0));
}

struct Ticks {
    seen: Vec<(bool, f64)>,
}

impl Extension<Num> for Ticks {
    fn add_mass(&mut self, _: MassRef) {}
    fn delete_mass(&mut self, _: MassRef) {}
    fn add_spring(&mut self, _: SpringRef) {}
    fn delete_spring(&mut self, _: SpringRef) {}
    fn pre_tick(&mut self, timestep: Num) {
        self.seen.push((true, timestep.0));
    }
    fn post_tick(&mut self, timestep: Num) {
        self.seen.push((false, timestep.0));
    }
}

#[test]
fn tick_hooks_see_the_timestep() {
    let mut w: World<V2, Num, Ticks> = World::new();
    w.extensions.push(Ticks { seen: Vec::new() });
    w.extensions.push(Ticks { seen: Vec::new() });
    let a = w.add_mass(body(0.0, 0.0, None, false));
    w.pre_tick(Num(0.25));
    tick(&mut w, &env(), Num(0.25));
    w.post_tick(Num(0.25));
    assert_eq!(w.extensions[0].seen, vec![(true, 0.25), (false, 0.25)]);
    assert_eq!(w.extensions[1].seen, vec![(true, 0.25), (false, 0.25)]);
    assert_eq!(w.mass(a).pos, v2(0.0, 0.0));
}
