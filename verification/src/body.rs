use vstd::prelude::*;
use crate::elements::{DerivedElements, OrbitalElements};
use crate::lineage::{first_with_id, sibling_with_id};
use crate::partition::Others;

verus! {

/// `cgmath::Vector3`, declared so that it can stand in fields. The library
/// carries such values through and never looks inside one; nothing is
/// claimed of what they hold.
#[verifier::external_type_specification]
#[verifier::external_body]
#[verifier::reject_recursive_types(S)]
pub struct ExVector3<S>(cgmath::Vector3<S>);

/// `cgmath::Quaternion`, declared so that it can stand in fields. The
/// library carries such values through and never looks inside one; nothing
/// is claimed of what they hold.
#[verifier::external_type_specification]
#[verifier::external_body]
#[verifier::reject_recursive_types(S)]
pub struct ExQuaternion<S>(cgmath::Quaternion<S>);

/// The part of a body's state that integration replaces: position and
/// velocity relative to the parent, attitude and angular velocity.
#[verifier::reject_recursive_types(R)]
#[derive(Debug, PartialEq)]
pub struct Motion<R> {
    pub position: cgmath::Vector3<R>,
    pub velocity: cgmath::Vector3<R>,
    pub quaternion: cgmath::Quaternion<R>,
    pub angular_velocity: cgmath::Vector3<R>,
}

/// A node of the hierarchy of bodies.
///
/// `id`, `parent` and `children` are the tree links; a universe assigns and
/// maintains them. Position and velocity are relative to the parent.
#[verifier::reject_recursive_types(R)]
#[derive(Debug, PartialEq)]
pub struct CelestialBody<R> {
    pub id: usize,
    pub name: String,
    pub position: cgmath::Vector3<R>,
    pub velocity: cgmath::Vector3<R>,
    pub quaternion: cgmath::Quaternion<R>,
    pub angular_velocity: cgmath::Vector3<R>,
    pub orbit_color: String,
    pub children: Vec<usize>,
    pub parent: Option<usize>,
    pub gm: R,
    pub radius: R,
    pub orbital_elements: OrbitalElements<R>,
}

/// What a body is to the contracts: its fields, with the strings and the
/// list of children as sequences.
#[verifier::reject_recursive_types(R)]
pub struct BodyView<R> {
    pub id: usize,
    pub name: Seq<char>,
    pub motion: Motion<R>,
    pub orbit_color: Seq<char>,
    pub children: Seq<usize>,
    pub parent: Option<usize>,
    pub gm: R,
    pub radius: R,
    pub orbital_elements: OrbitalElements<R>,
}

impl<R> BodyView<R> {
    /// This body with its motion replaced.
    pub open spec fn with_motion(self, motion: Motion<R>) -> Self {
        BodyView { motion, ..self }
    }

    /// This body with its derived elements replaced.
    pub open spec fn with_derived(self, derived: DerivedElements<R>) -> Self {
        BodyView { orbital_elements: self.orbital_elements.rederived(derived), ..self }
    }

    /// This body with one more child at the end of its list.
    pub open spec fn with_child(self, child: usize) -> Self {
        BodyView { children: self.children.push(child), ..self }
    }

    /// This body as a universe takes it in: under the id it is given, with
    /// no children.
    pub open spec fn enrolled(self, id: usize) -> Self {
        BodyView { id, children: Seq::empty(), ..self }
    }

    /// Whether two bodies are the same node: same id, parent and children.
    pub open spec fn same_node(self, other: Self) -> bool {
        &&& self.id == other.id
        &&& self.parent == other.parent
        &&& self.children == other.children
    }

    /// Whether `later` is this body, changed at most in its motion and its
    /// five derived elements.
    pub open spec fn kept_in(self, later: Self) -> bool {
        later == (BodyView {
            motion: later.motion,
            orbital_elements: self.orbital_elements.rederived(
                later.orbital_elements.derived_part(),
            ),
            ..self
        })
    }
}

/// Whether the body at `k` is the first of `siblings` with the id `id`.
pub open spec fn is_first_with_id<R>(siblings: Seq<CelestialBody<R>>, id: usize, k: int) -> bool {
    &&& 0 <= k < siblings.len()
    &&& siblings[k].id == id
    &&& forall|j: int| 0 <= j < k ==> (#[trigger] siblings[j]).id != id
}

impl<R> View for CelestialBody<R> {
    type V = BodyView<R>;

    open spec fn view(&self) -> BodyView<R> {
        BodyView {
            id: self.id,
            name: self.name@,
            motion: Motion {
                position: self.position,
                velocity: self.velocity,
                quaternion: self.quaternion,
                angular_velocity: self.angular_velocity,
            },
            orbit_color: self.orbit_color@,
            children: self.children@,
            parent: self.parent,
            gm: self.gm,
            radius: self.radius,
            orbital_elements: self.orbital_elements,
        }
    }
}

/// The views of a sequence of bodies, in the same order.
pub open spec fn views<R>(bodies: Seq<CelestialBody<R>>) -> Seq<BodyView<R>> {
    Seq::new(bodies.len(), |i: int| bodies[i]@)
}

impl<R: Copy> Clone for Motion<R> {
    fn clone(&self) -> (copy: Self)
        ensures
            copy == *self,
    {
        Motion {
            position: self.position,
            velocity: self.velocity,
            quaternion: self.quaternion,
            angular_velocity: self.angular_velocity,
        }
    }
}

impl<R: Copy> Copy for Motion<R> {

}

impl<R: Copy> Clone for CelestialBody<R> {
    fn clone(&self) -> (copy: Self)
        ensures
            copy@ == self@,
    {
        CelestialBody {
            id: self.id,
            name: self.name.clone(),
            position: self.position,
            velocity: self.velocity,
            quaternion: self.quaternion,
            angular_velocity: self.angular_velocity,
            orbit_color: self.orbit_color.clone(),
            children: self.children.clone(),
            parent: self.parent,
            gm: self.gm,
            radius: self.radius,
            orbital_elements: self.orbital_elements,
        }
    }
}

impl<R> CelestialBody<R> {
    /// A body that no universe holds yet: id 0 and no children.
    pub fn new(
        parent: Option<usize>,
        name: String,
        orbit_color: String,
        motion: Motion<R>,
        gm: R,
        radius: R,
        orbital_elements: OrbitalElements<R>,
    ) -> (body: Self)
        ensures
            body@ == (BodyView {
                id: 0,
                name: name@,
                motion,
                orbit_color: orbit_color@,
                children: Seq::empty(),
                parent,
                gm,
                radius,
                orbital_elements,
            }),
    {
        CelestialBody {
            id: 0,
            name,
            position: motion.position,
            velocity: motion.velocity,
            quaternion: motion.quaternion,
            angular_velocity: motion.angular_velocity,
            orbit_color,
            children: Vec::new(),
            parent,
            gm,
            radius,
            orbital_elements,
        }
    }

    /// Replaces the motion and nothing else.
    pub fn set_motion(&mut self, motion: Motion<R>)
        ensures
            final(self)@ == old(self)@.with_motion(motion),
    {
        self.position = motion.position;
        self.velocity = motion.velocity;
        self.quaternion = motion.quaternion;
        self.angular_velocity = motion.angular_velocity;
    }

    /// Replaces the derived elements and nothing else.
    pub fn set_derived(&mut self, derived: DerivedElements<R>)
        ensures
            final(self)@ == old(self)@.with_derived(derived),
    {
        self.orbital_elements.rederive(derived);
    }

    /// Advances this body by one substep: its motion becomes what `advance`
    /// returns for the body, its siblings, the time scale and the number of
    /// substeps of a tick.
    pub fn simulate_body<A>(
        &mut self,
        siblings: &Others<CelestialBody<R>>,
        time_scale: R,
        div: usize,
        advance: &A,
    ) where A: Fn(&CelestialBody<R>, &Others<CelestialBody<R>>, R, usize) -> Motion<R>
        requires
            call_requires(*advance, (&*old(self), siblings, time_scale, div)),
        ensures
            exists|motion: Motion<R>|
                final(self)@ == old(self)@.with_motion(motion) && #[trigger] call_ensures(
                    *advance,
                    (&*old(self), siblings, time_scale, div),
                    motion,
                ),
    {
        let motion = advance(&*self, siblings, time_scale, div);
        self.set_motion(motion);
    }

    /// Derives the elements of this body anew. A body without a parent is
    /// left as it is. For any other, the five derived elements become what
    /// `derive` returns for the body and its parent, which is the first of
    /// `siblings` with the parent's id.
    pub fn update<D>(&mut self, siblings: &Others<CelestialBody<R>>, derive: &D) where
        D: Fn(&CelestialBody<R>, &CelestialBody<R>) -> DerivedElements<R>,

        requires
            old(self).parent matches Some(p) ==> first_with_id(siblings@, p) is Some,
            forall|b: &CelestialBody<R>, p: &CelestialBody<R>| call_requires(*derive, (b, p)),
        ensures
            match old(self).parent {
                None => final(self)@ == old(self)@,
                Some(p) => exists|derived: DerivedElements<R>|
                    final(self)@ == old(self)@.with_derived(derived) && #[trigger] call_ensures(
                        *derive,
                        (&*old(self), &siblings@[first_with_id(siblings@, p)->Some_0]),
                        derived,
                    ),
            },
    {
        match self.parent {
            None => {},
            Some(p) => {
                match sibling_with_id(siblings, p) {
                    Some(parent) => {
                        let derived = derive(&*self, parent);
                        self.set_derived(derived);
                    },
                    None => {},
                }
            },
        }
    }

    /// The parent's id as snapshots carry it: 0 stands for "no parent".
    pub fn parent_or_zero(&self) -> (id: usize)
        ensures
            id == match self.parent {
                Some(p) => p,
                None => 0usize,
            },
    {
        match self.parent {
            Some(p) => p,
            None => 0,
        }
    }
}

} // verus!
