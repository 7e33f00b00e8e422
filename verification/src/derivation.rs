use vstd::prelude::*;

verus! {

/// What decides how the two angles of an orbit are taken from a position
/// and a velocity: which vectors are too short to divide by, and on which
/// side of the reference plane or axis three components lie.
///
/// `h` is the specific angular momentum, `n` the node vector and `e` the
/// eccentricity vector.
#[derive(Clone, Copy, Debug, PartialEq, Eq)]
pub struct Geometry {
    /// The squared length of `n` is at most the threshold.
    pub node_degenerate: bool,
    /// The squared length of `e` is at most the threshold.
    pub eccentricity_degenerate: bool,
    /// `n.y` is negative.
    pub node_y_negative: bool,
    /// `h.z` is negative.
    pub momentum_z_negative: bool,
    /// `e.z` is negative.
    pub eccentricity_z_negative: bool,
}

/// How the longitude of the ascending node is taken.
#[derive(Clone, Copy, Debug, PartialEq, Eq)]
pub enum AscendingNodeRule {
    /// It is 0.
    Zero,
    /// It is `acos(n.x / |n|)`, or 2π minus that where `reflected`.
    Acos { reflected: bool },
}

/// How the argument of perihelion is taken.
#[derive(Clone, Copy, Debug, PartialEq, Eq)]
pub enum PerihelionRule {
    /// It is `atan2(e.y, e.x)`, with `-e.y` for `e.y` where `y_negated`.
    Atan2 { y_negated: bool },
    /// It is `acos(n·e / (|n| |e|))`, or 2π minus that where `reflected`.
    Acos { reflected: bool },
}

impl AscendingNodeRule {
    /// Whether the rule divides by the length of `n`.
    pub open spec fn divides_by_node(self) -> bool {
        self is Acos
    }
}

impl PerihelionRule {
    /// Whether the rule divides by the lengths of `n` and `e`.
    pub open spec fn divides_by_node_and_eccentricity(self) -> bool {
        self is Acos
    }
}

impl Geometry {
    /// The rule for the ascending node: 0 where `n` is degenerate; else the
    /// arc cosine, reflected where `n.y` is negative.
    pub open spec fn ascending_node_rule_of(self) -> AscendingNodeRule {
        if self.node_degenerate {
            AscendingNodeRule::Zero
        } else {
            AscendingNodeRule::Acos { reflected: self.node_y_negative }
        }
    }

    /// The rule for the argument of perihelion: where `n` or `e` is
    /// degenerate, the arc tangent, with `e.y` negated where `h.z` is
    /// negative; else the arc cosine, reflected where `e.z` is negative.
    pub open spec fn perihelion_rule_of(self) -> PerihelionRule {
        if self.node_degenerate || self.eccentricity_degenerate {
            PerihelionRule::Atan2 { y_negated: self.momentum_z_negative }
        } else {
            PerihelionRule::Acos { reflected: self.eccentricity_z_negative }
        }
    }

    /// The rule by which the ascending node is taken.
    pub fn ascending_node_rule(&self) -> (rule: AscendingNodeRule)
        ensures
            rule == self.ascending_node_rule_of(),
    {
        if self.node_degenerate {
            AscendingNodeRule::Zero
        } else {
            AscendingNodeRule::Acos { reflected: self.node_y_negative }
        }
    }

    /// The rule by which the argument of perihelion is taken.
    pub fn perihelion_rule(&self) -> (rule: PerihelionRule)
        ensures
            rule == self.perihelion_rule_of(),
    {
        if self.node_degenerate || self.eccentricity_degenerate {
            PerihelionRule::Atan2 { y_negated: self.momentum_z_negative }
        } else {
            PerihelionRule::Acos { reflected: self.eccentricity_z_negative }
        }
    }
}

} // verus!
