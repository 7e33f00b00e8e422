use std::f64::consts::PI;

use cgmath::{InnerSpace, Quaternion, Rad, Rotation3, Vector3, Zero};
use orbiter_logic::body::{CelestialBody, Motion};
use orbiter_logic::derivation::{AscendingNodeRule, Geometry, PerihelionRule};
use orbiter_logic::elements::{DerivedElements, OrbitalElements};
use orbiter_logic::lineage::{ancestors, lookup};
use orbiter_logic::partition::Others;
use orbiter_logic::universe::Universe;

// The arithmetic of these scenarios is floating point and stands here, in the
// functions that the tests hand to the library: the library orders the
// calls, picks the branch of each angle and keeps the tree.

type Body = CelestialBody<f64>;

const AU: f64 = 149597871.0;
const GM_SUN: f64 = 1.327124400e11 / AU / AU / AU;
const EPSILON: f64 = 1e-40;
const SOFTENING: f64 = 1e-30;
const RAD_PER_DEG: f64 = PI / 180.;

fn state_from_elements(
    elements: &OrbitalElements<f64>,
    parent_gm: f64,
) -> (Vector3<f64>, Vector3<f64>) {
    let a = elements.semimajor_axis;
    let e = elements.eccentricity;
    let periapsis = a * (1. - e);
    let speed = (parent_gm / a * (1. + e) / (1. - e)).sqrt();
    let rotation = Quaternion::from_angle_z(Rad(elements.ascending_node + PI))
        * Quaternion::from_angle_x(Rad(elements.inclination))
        * Quaternion::from_angle_z(Rad(PI - elements.argument_of_perihelion));
    (rotation * Vector3::new(periapsis, 0., 0.), rotation * Vector3::new(0., speed, 0.))
}

fn geometry_of(body: &Body, parent: &Body) -> Geometry {
    let ang = body.velocity.cross(body.position);
    let n = Vector3::new(0., 0., 1.).cross(ang);
    let e = eccentricity_vector(body, parent);
    Geometry {
        node_degenerate: n.magnitude2() <= EPSILON,
        eccentricity_degenerate: e.magnitude2() <= EPSILON,
        node_y_negative: n.y < 0.,
        momentum_z_negative: ang.z < 0.,
        eccentricity_z_negative: e.z < 0.,
    }
}

fn eccentricity_vector(body: &Body, parent: &Body) -> Vector3<f64> {
    let r = body.position.magnitude();
    let v = body.velocity.magnitude();
    body.position * (1. / parent.gm * (v * v - parent.gm / r))
        - body.velocity * (body.position.dot(body.velocity) / parent.gm)
}

fn derive_elements(body: &Body, parent: &Body) -> DerivedElements<f64> {
    if !(parent.gm > 0.) {
        return DerivedElements {
            semimajor_axis: body.orbital_elements.semimajor_axis,
            eccentricity: body.orbital_elements.eccentricity,
            inclination: body.orbital_elements.inclination,
            ascending_node: body.orbital_elements.ascending_node,
            argument_of_perihelion: body.orbital_elements.argument_of_perihelion,
        };
    }
    let ang = body.velocity.cross(body.position);
    let r = body.position.magnitude();
    let v = body.velocity.magnitude();
    let n = Vector3::new(0., 0., 1.).cross(ang);
    let e = eccentricity_vector(body, parent);
    let geometry = geometry_of(body, parent);
    let ascending_node = match geometry.ascending_node_rule() {
        AscendingNodeRule::Zero => 0.,
        AscendingNodeRule::Acos { reflected } => {
            let angle = (n.x / n.magnitude()).acos();
            if reflected { 2. * PI - angle } else { angle }
        }
    };
    let argument_of_perihelion = match geometry.perihelion_rule() {
        PerihelionRule::Atan2 { y_negated } => (if y_negated { -e.y } else { e.y }).atan2(e.x),
        PerihelionRule::Acos { reflected } => {
            let angle = (n.dot(e) / n.magnitude() / e.magnitude()).acos();
            if reflected { 2. * PI - angle } else { angle }
        }
    };
    DerivedElements {
        semimajor_axis: 1. / (2. / r - v * v / parent.gm),
        eccentricity: e.magnitude(),
        inclination: (-ang.z / ang.magnitude()).acos(),
        ascending_node,
        argument_of_perihelion,
    }
}

fn absolute_position<'a>(
    body: &'a Body,
    center: &'a Body,
    rest: &Others<'a, Body>,
) -> Vector3<f64> {
    ancestors(body, center, rest)
        .iter()
        .fold(body.position, |sum, ancestor| sum + ancestor.position)
}

fn pull_on<'a>(target: &'a Body, center: &'a Body, rest: &Others<'a, Body>) -> Vector3<f64> {
    let here = absolute_position(target, center, rest);
    let mut pull = Vector3::zero();
    for k in 0..=rest.len() {
        let other = if k == rest.len() { center } else { rest.get(k) };
        if other.id != target.id {
            let d = absolute_position(other, center, rest) - here;
            let dist2 = d.magnitude2() + SOFTENING;
            pull += d * (other.gm / (dist2 * dist2.sqrt()));
        }
    }
    pull
}

fn simulate_body(center: &Body, rest: &Others<Body>, time_scale: f64, div: usize) -> Motion<f64> {
    let dt = time_scale / div as f64;
    let mut acceleration = pull_on(center, center, rest);
    if let Some(parent) = center.parent.and_then(|id| lookup(id, center, rest)) {
        acceleration -= pull_on(parent, center, rest);
    }
    let velocity = center.velocity + acceleration * dt;
    let position = center.position + velocity * dt;
    let spin = Quaternion::from_sv(0., center.angular_velocity) * center.quaternion;
    let quaternion = (center.quaternion + spin * (0.5 * dt)).normalize();
    Motion { position, velocity, quaternion, angular_velocity: center.angular_velocity }
}

fn advance_clock(time: f64, time_scale: f64) -> f64 {
    time + time_scale
}

fn sun() -> Body {
    CelestialBody::new(
        None,
        "sun".to_string(),
        "#ffffff".to_string(),
        Motion {
            position: Vector3::zero(),
            velocity: Vector3::zero(),
            quaternion: Quaternion::new(1., 0., 0., 0.),
            angular_velocity: Vector3::zero(),
        },
        GM_SUN,
        695800.,
        OrbitalElements::default(),
    )
}

fn planet(parent: &Body, name: &str, elements: OrbitalElements<f64>, gm: f64) -> Body {
    let (position, velocity) = state_from_elements(&elements, parent.gm);
    let mut body = CelestialBody::new(
        Some(parent.id),
        name.to_string(),
        "#7f7fff".to_string(),
        Motion {
            position,
            velocity,
            quaternion: Quaternion::new(1., 0., 0., 0.),
            angular_velocity: Vector3::zero(),
        },
        gm,
        6534.,
        elements,
    );
    body.set_derived(derive_elements(&body, parent));
    body
}

fn earth_elements() -> OrbitalElements<f64> {
    OrbitalElements {
        semimajor_axis: 1.,
        eccentricity: 0.0167086,
        inclination: 0.,
        ascending_node: -11.26064 * RAD_PER_DEG,
        argument_of_perihelion: 114.20783 * RAD_PER_DEG,
        epoch: 0.,
        mean_anomaly: 0.,
        soi: 1.,
    }
}

fn mars_elements() -> OrbitalElements<f64> {
    OrbitalElements {
        semimajor_axis: 1.523679,
        eccentricity: 0.0935,
        inclination: 1.850 * RAD_PER_DEG,
        ascending_node: 49.562 * RAD_PER_DEG,
        argument_of_perihelion: 286.537 * RAD_PER_DEG,
        epoch: 0.,
        mean_anomaly: 0.,
        soi: 3e5,
    }
}

fn close(actual: f64, expected: f64, relative: f64) -> bool {
    (actual - expected).abs() <= relative * expected.abs().max(1e-300)
}

fn assert_round_trip(elements: OrbitalElements<f64>) {
    let body = planet(&sun(), "planet", elements, 1e-20);
    let derived = body.orbital_elements;
    assert!(close(derived.semimajor_axis, elements.semimajor_axis, 1e-9), "{:?}", derived);
    assert!(close(derived.eccentricity, elements.eccentricity, 1e-9), "{:?}", derived);
    assert!(close(derived.inclination, elements.inclination, 1e-9), "{:?}", derived);
    assert!(close(derived.ascending_node, elements.ascending_node, 1e-9), "{:?}", derived);
    assert!(
        close(derived.argument_of_perihelion, elements.argument_of_perihelion, 1e-9),
        "{:?}",
        derived
    );
    assert_eq!(derived.epoch, elements.epoch);
    assert_eq!(derived.mean_anomaly, elements.mean_anomaly);
    assert_eq!(derived.soi, elements.soi);
}

#[test]
fn elements_of_mars_come_back_from_its_state() {
    assert_round_trip(mars_elements());
}

#[test]
fn elements_of_an_inclined_earth_come_back_from_its_state() {
    // Earth's orbit against the Sun's equator.
    assert_round_trip(OrbitalElements {
        inclination: 7.155 * RAD_PER_DEG,
        ascending_node: 174.9 * RAD_PER_DEG,
        argument_of_perihelion: 288.1 * RAD_PER_DEG,
        ..earth_elements()
    });
}

#[test]
fn elements_come_back_in_every_quadrant() {
    for node in [10., 100., 190., 280.] {
        for perihelion in [20., 110., 200., 290.] {
            assert_round_trip(OrbitalElements {
                semimajor_axis: 5.204267,
                eccentricity: 0.048775,
                inclination: 1.305 * RAD_PER_DEG,
                ascending_node: node * RAD_PER_DEG,
                argument_of_perihelion: perihelion * RAD_PER_DEG,
                epoch: 0.,
                mean_anomaly: 0.,
                soi: 10e6,
            });
        }
    }
}

#[test]
fn a_circular_orbit_in_the_plane_has_finite_repeatable_angles() {
    let elements = OrbitalElements {
        semimajor_axis: 10000. / AU,
        eccentricity: 0.,
        inclination: 0.,
        ascending_node: 0.,
        argument_of_perihelion: 0.,
        epoch: 0.,
        mean_anomaly: 0.,
        soi: 1.,
    };
    let parent = sun();
    let body = planet(&parent, "rocket", elements, 1e-20);
    assert!(geometry_of(&body, &parent).node_degenerate);
    let first = derive_elements(&body, &parent);
    let second = derive_elements(&body, &parent);
    assert_eq!(first.ascending_node, 0.);
    assert!(first.argument_of_perihelion.is_finite());
    assert_eq!(first.ascending_node.to_bits(), second.ascending_node.to_bits());
    assert_eq!(first.argument_of_perihelion.to_bits(), second.argument_of_perihelion.to_bits());
    assert!(first.eccentricity.abs() < 1e-12);
    assert!(close(first.semimajor_axis, elements.semimajor_axis, 1e-9));
    assert_eq!(first.inclination, 0.);
}

#[test]
fn a_body_at_rest_relative_to_its_eccentricity_has_finite_angles() {
    // Both vectors vanish exactly: neither angle divides by them.
    let geometry = Geometry {
        node_degenerate: true,
        eccentricity_degenerate: true,
        node_y_negative: false,
        momentum_z_negative: true,
        eccentricity_z_negative: false,
    };
    assert_eq!(geometry.ascending_node_rule(), AscendingNodeRule::Zero);
    assert_eq!(geometry.perihelion_rule(), PerihelionRule::Atan2 { y_negated: true });
    assert!((-0.0f64).atan2(0.).is_finite());
}

fn satellite(
    universe: &Universe<f64>,
    parent: usize,
    name: &str,
    elements: OrbitalElements<f64>,
    gm: f64,
) -> Body {
    planet(universe.body(parent).expect("the parent was added"), name, elements, gm)
}

/// The Sun, the Earth with a spacecraft and the Moon, Mars and Jupiter.
fn default_universe() -> Universe<f64> {
    let mut universe = Universe::new(0., 1.);
    let sun_id = universe.add_body(sun());
    let earth = satellite(&universe, sun_id, "earth", earth_elements(), 398600. / AU / AU / AU);
    let earth_id = universe.add_body(earth);
    let rocket = satellite(
        &universe,
        earth_id,
        "rocket",
        OrbitalElements {
            semimajor_axis: 10000. / AU,
            eccentricity: 0.,
            inclination: 0.,
            ascending_node: 0.,
            argument_of_perihelion: 0.,
            epoch: 0.,
            mean_anomaly: 0.,
            soi: 1.,
        },
        100. / AU / AU / AU,
    );
    universe.add_body(rocket);
    let moon = satellite(
        &universe,
        earth_id,
        "moon",
        OrbitalElements {
            semimajor_axis: 384399. / AU,
            eccentricity: 0.048775,
            inclination: -11.26064 * RAD_PER_DEG,
            ascending_node: 100.492 * RAD_PER_DEG,
            argument_of_perihelion: 114.20783 * RAD_PER_DEG,
            epoch: 0.,
            mean_anomaly: 0.,
            soi: 1e5,
        },
        4904.8695 / AU / AU / AU,
    );
    universe.add_body(moon);
    let mars = satellite(&universe, sun_id, "mars", mars_elements(), 42828. / AU / AU / AU);
    universe.add_body(mars);
    let jupiter = satellite(
        &universe,
        sun_id,
        "jupiter",
        OrbitalElements {
            semimajor_axis: 5.204267,
            eccentricity: 0.048775,
            inclination: 1.305 * RAD_PER_DEG,
            ascending_node: 100.492 * RAD_PER_DEG,
            argument_of_perihelion: 275.066 * RAD_PER_DEG,
            epoch: 0.,
            mean_anomaly: 0.,
            soi: 10e6,
        },
        126686534. / AU / AU / AU,
    );
    universe.add_body(jupiter);
    universe
}

#[test]
fn the_default_earth_has_its_declared_axis_and_eccentricity_before_any_tick() {
    let universe = default_universe();
    assert_eq!(universe.get_time(), 0);
    let id = universe.find_by_name("earth").expect("there is an earth");
    let earth = universe.body(id).expect("earth was added");
    assert!((earth.orbital_elements.semimajor_axis - 1.0).abs() <= 1e-6);
    assert!((earth.orbital_elements.eccentricity - 0.0167086).abs() <= 1e-6);
}

#[test]
fn the_default_universe_is_a_tree_of_six_bodies_with_finite_elements() {
    let universe = default_universe();
    let names: Vec<&str> = universe.bodies().iter().map(|b| b.name.as_str()).collect();
    assert_eq!(names, vec!["sun", "earth", "rocket", "moon", "mars", "jupiter"]);
    assert_eq!(universe.bodies()[0].children, vec![1, 4, 5]);
    assert_eq!(universe.bodies()[1].children, vec![2, 3]);
    for body in universe.bodies() {
        let e = body.orbital_elements;
        for value in [
            e.semimajor_axis,
            e.eccentricity,
            e.inclination,
            e.ascending_node,
            e.argument_of_perihelion,
        ] {
            assert!(value.is_finite(), "{}: {:?}", body.name, e);
        }
    }
}

#[test]
fn a_tick_of_the_default_universe_keeps_every_orbit_close() {
    let mut universe = default_universe();
    let before: Vec<OrbitalElements<f64>> =
        universe.bodies().iter().map(|b| b.orbital_elements).collect();
    universe.update(simulate_body, derive_elements, advance_clock);
    assert_eq!(universe.get_time(), 1);
    assert_eq!(universe.get_sim_time(), 1.);
    for (body, was) in universe.bodies().iter().zip(&before).skip(1) {
        let now = body.orbital_elements;
        assert!(close(now.semimajor_axis, was.semimajor_axis, 1e-3), "{}: {:?}", body.name, now);
        assert!((now.eccentricity - was.eccentricity).abs() < 1e-3, "{}: {:?}", body.name, now);
        assert_eq!(now.soi, was.soi);
        assert_eq!(now.epoch, was.epoch);
    }
    assert_eq!(universe.bodies()[0].orbital_elements, before[0]);
}

#[test]
fn elements_around_a_parent_without_mass_stay_as_they_are() {
    let mut parent = sun();
    parent.gm = 0.;
    let mut body = planet(&sun(), "probe", mars_elements(), 0.);
    let was = body.orbital_elements;
    body.set_derived(derive_elements(&body, &parent));
    assert_eq!(body.orbital_elements, was);
}

#[test]
fn two_bodies_keep_axis_and_eccentricity_over_a_year() {
    let day = 86400.;
    let mut universe = Universe::new(0., day);
    let star = sun();
    let elements = OrbitalElements { inclination: 0.1, ..earth_elements() };
    let earth = planet(&star, "earth", elements, 1e-20);
    universe.add_body(star);
    universe.add_body(earth);
    let start = universe.bodies()[1].position;
    let mut nearest_to_opposite = f64::MAX;
    for tick in 1..=400 {
        universe.update(simulate_body, derive_elements, advance_clock);
        let elements = universe.bodies()[1].orbital_elements;
        assert!(close(elements.semimajor_axis, 1., 1e-3), "tick {}: {:?}", tick, elements);
        assert!((elements.eccentricity - 0.0167086).abs() < 1e-3, "tick {}: {:?}", tick, elements);
        assert!(close(elements.inclination, 0.1, 1e-6), "tick {}: {:?}", tick, elements);
        nearest_to_opposite =
            nearest_to_opposite.min((universe.bodies()[1].position + start).magnitude());
    }
    // It did go round: it has passed the point opposite to where it started.
    assert!(nearest_to_opposite < 0.05, "{}", nearest_to_opposite);
    assert_eq!(universe.get_time(), 400);
    assert_eq!(universe.get_sim_time(), 400. * day);
}

#[test]
fn two_float_universes_with_the_same_history_are_identical() {
    let build = || {
        let mut universe = Universe::new(0., 3600.);
        let star = sun();
        let earth = planet(&star, "earth", earth_elements(), 398600. / AU / AU / AU);
        let mars = planet(&star, "mars", mars_elements(), 42828. / AU / AU / AU);
        universe.add_body(star);
        universe.add_body(earth);
        universe.add_body(mars);
        for _ in 0..5 {
            universe.update(simulate_body, derive_elements, advance_clock);
        }
        universe
    };
    let first = build();
    let second = build();
    assert_eq!(first.bodies(), second.bodies());
    assert_eq!(first.get_sim_time(), second.get_sim_time());
    assert_eq!(first.get_time(), second.get_time());
}
