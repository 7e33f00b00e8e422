use orbiter_logic::derivation::{AscendingNodeRule, Geometry, PerihelionRule};

fn geometry(bits: u8) -> Geometry {
    Geometry {
        node_degenerate: bits & 1 != 0,
        eccentricity_degenerate: bits & 2 != 0,
        node_y_negative: bits & 4 != 0,
        momentum_z_negative: bits & 8 != 0,
        eccentricity_z_negative: bits & 16 != 0,
    }
}

#[test]
fn a_circular_orbit_in_the_reference_plane_takes_both_fallbacks() {
    let prograde = Geometry {
        node_degenerate: true,
        eccentricity_degenerate: true,
        node_y_negative: false,
        momentum_z_negative: false,
        eccentricity_z_negative: false,
    };
    assert_eq!(prograde.ascending_node_rule(), AscendingNodeRule::Zero);
    assert_eq!(prograde.perihelion_rule(), PerihelionRule::Atan2 { y_negated: false });
    let retrograde = Geometry { momentum_z_negative: true, ..prograde };
    assert_eq!(retrograde.ascending_node_rule(), AscendingNodeRule::Zero);
    assert_eq!(retrograde.perihelion_rule(), PerihelionRule::Atan2 { y_negated: true });
}

#[test]
fn an_eccentric_orbit_in_the_reference_plane_takes_the_arc_tangent() {
    let g = Geometry {
        node_degenerate: true,
        eccentricity_degenerate: false,
        node_y_negative: true,
        momentum_z_negative: false,
        eccentricity_z_negative: true,
    };
    assert_eq!(g.ascending_node_rule(), AscendingNodeRule::Zero);
    assert_eq!(g.perihelion_rule(), PerihelionRule::Atan2 { y_negated: false });
}

#[test]
fn a_circular_inclined_orbit_has_a_node_but_takes_the_arc_tangent() {
    let g = Geometry {
        node_degenerate: false,
        eccentricity_degenerate: true,
        node_y_negative: true,
        momentum_z_negative: true,
        eccentricity_z_negative: false,
    };
    assert_eq!(g.ascending_node_rule(), AscendingNodeRule::Acos { reflected: true });
    assert_eq!(g.perihelion_rule(), PerihelionRule::Atan2 { y_negated: true });
}

#[test]
fn a_general_orbit_takes_arc_cosines_reflected_by_sign() {
    let g = Geometry {
        node_degenerate: false,
        eccentricity_degenerate: false,
        node_y_negative: false,
        momentum_z_negative: true,
        eccentricity_z_negative: true,
    };
    assert_eq!(g.ascending_node_rule(), AscendingNodeRule::Acos { reflected: false });
    assert_eq!(g.perihelion_rule(), PerihelionRule::Acos { reflected: true });
    let h = Geometry { node_y_negative: true, eccentricity_z_negative: false, ..g };
    assert_eq!(h.ascending_node_rule(), AscendingNodeRule::Acos { reflected: true });
    assert_eq!(h.perihelion_rule(), PerihelionRule::Acos { reflected: false });
}

#[test]
fn no_rule_divides_by_a_degenerate_vector() {
    for bits in 0..32 {
        let g = geometry(bits);
        if let AscendingNodeRule::Acos { reflected } = g.ascending_node_rule() {
            assert!(!g.node_degenerate);
            assert_eq!(reflected, g.node_y_negative);
        } else {
            assert!(g.node_degenerate);
        }
        match g.perihelion_rule() {
            PerihelionRule::Acos { reflected } => {
                assert!(!g.node_degenerate && !g.eccentricity_degenerate);
                assert_eq!(reflected, g.eccentricity_z_negative);
            }
            PerihelionRule::Atan2 { y_negated } => {
                assert!(g.node_degenerate || g.eccentricity_degenerate);
                assert_eq!(y_negated, g.momentum_z_negative);
            }
        }
    }
}
