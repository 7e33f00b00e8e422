use vstd::prelude::*;
use crate::body::{views, BodyView, CelestialBody, Motion};
use crate::elements::{DerivedElements, OrbitalElements};
use crate::naming::{rocket_name, rocket_name_of};
use crate::partition::Others;
use crate::tick::{refresh_all, refreshed, substepped, substeps, ticked, SUBSTEPS};
use crate::tree::{
    consistent, has_id, lemma_consistent_parents_present, lemma_kept_consistent,
    lemma_kept_trans, lemma_position_of, lemma_with_body_consistent, parent_resolves,
    position_of, with_body,
};

verus! {

/// What a universe is to the contracts.
#[verifier::reject_recursive_types(R)]
pub struct UniverseView<R> {
    /// The bodies, in the order in which they were taken in.
    pub bodies: Seq<BodyView<R>>,
    /// The id of the body without a parent.
    pub root: usize,
    /// The next id to give out.
    pub id_gen: usize,
    /// Simulated time so far.
    pub sim_time: R,
    /// Simulated time at the start.
    pub start_time: R,
    /// The number of ticks so far.
    pub time: usize,
    /// Simulated time per tick.
    pub time_scale: R,
}

impl<R> UniverseView<R> {
    /// The invariant: the hierarchy is consistent.
    pub open spec fn wf(self) -> bool {
        consistent(self.bodies, self.root, self.id_gen)
    }

    /// Whether `body` can be taken in: its parent is there, or it has none
    /// and is the first body; and an id is left to give.
    pub open spec fn admits(self, body: BodyView<R>) -> bool {
        &&& self.id_gen < usize::MAX
        &&& match body.parent {
            Some(p) => has_id(self.bodies, p),
            None => self.bodies.len() == 0,
        }
    }

    /// This universe after a spacecraft has been launched around the first
    /// body named "earth"; unchanged where no body is so named.
    pub open spec fn launched(
        self,
        orbit_color: Seq<char>,
        motion: Motion<R>,
        gm: R,
        radius: R,
        orbital_elements: OrbitalElements<R>,
    ) -> Self {
        match first_named(self.bodies, "earth"@) {
            Some(k) => self.with_body(
                rocket_view(
                    self.id_gen,
                    self.bodies[k].id,
                    orbit_color,
                    motion,
                    gm,
                    radius,
                    orbital_elements,
                ),
            ),
            None => self,
        }
    }

    /// This universe with another time scale.
    pub open spec fn with_time_scale(self, time_scale: R) -> Self {
        UniverseView { time_scale, ..self }
    }

    /// This universe after `body` has been taken in.
    pub open spec fn with_body(self, body: BodyView<R>) -> Self {
        UniverseView {
            bodies: with_body(self.bodies, body, self.id_gen),
            root: if body.parent is None {
                self.id_gen
            } else {
                self.root
            },
            id_gen: (self.id_gen + 1) as usize,
            ..self
        }
    }
}

/// `str`'s `==` of std: two strings are equal where they hold the same
/// characters in the same order.
pub assume_specification[ <str as PartialEq>::eq ](a: &str, b: &str) -> (same: bool)
    ensures
        same == (a@ == b@),
;

/// Whether the body at `k` is named `name` and none before it is.
pub open spec fn is_first_named<R>(bodies: Seq<BodyView<R>>, name: Seq<char>, k: int) -> bool {
    &&& 0 <= k < bodies.len()
    &&& bodies[k].name == name
    &&& forall|j: int| 0 <= j < k ==> (#[trigger] bodies[j]).name != name
}

/// The position of the first body named `name`, if there is one.
pub open spec fn first_named<R>(bodies: Seq<BodyView<R>>, name: Seq<char>) -> Option<int> {
    if exists|k: int| is_first_named(bodies, name, k) {
        Some(choose|k: int| is_first_named(bodies, name, k))
    } else {
        None
    }
}

/// The body that `new_rocket` takes in as a child of the body with the id
/// `parent` when `id_gen` is the next id.
pub open spec fn rocket_view<R>(
    id_gen: usize,
    parent: usize,
    orbit_color: Seq<char>,
    motion: Motion<R>,
    gm: R,
    radius: R,
    orbital_elements: OrbitalElements<R>,
) -> BodyView<R> {
    BodyView {
        id: id_gen,
        name: rocket_name_of(id_gen as nat),
        motion,
        orbit_color,
        children: Seq::empty(),
        parent: Some(parent),
        gm,
        radius,
        orbital_elements,
    }
}

/// A hierarchy of bodies with its simulation clock.
///
/// Ids are given out in rising order when a body is taken in and are never
/// used twice. A body refers to its parent and its children by id.
#[verifier::reject_recursive_types(R)]
#[derive(Debug)]
pub struct Universe<R> {
    bodies: Vec<CelestialBody<R>>,
    root: usize,
    id_gen: usize,
    sim_time: R,
    start_time: R,
    time: usize,
    time_scale: R,
}

impl<R> View for Universe<R> {
    type V = UniverseView<R>;

    closed spec fn view(&self) -> UniverseView<R> {
        UniverseView {
            bodies: views(self.bodies@),
            root: self.root,
            id_gen: self.id_gen,
            sim_time: self.sim_time,
            start_time: self.start_time,
            time: self.time,
            time_scale: self.time_scale,
        }
    }
}

impl<R: Copy> Universe<R> {
    /// The invariant of a universe.
    pub open spec fn wf(&self) -> bool {
        self@.wf()
    }

    /// An empty universe whose clock stands at `start_time` and advances by
    /// `time_scale` per tick.
    pub fn new(start_time: R, time_scale: R) -> (universe: Self)
        ensures
            universe.wf(),
            universe@ == (UniverseView {
                bodies: Seq::empty(),
                root: 0,
                id_gen: 0,
                sim_time: start_time,
                start_time,
                time: 0,
                time_scale,
            }),
    {
        let universe = Universe {
            bodies: Vec::new(),
            root: 0,
            id_gen: 0,
            sim_time: start_time,
            start_time,
            time: 0,
            time_scale,
        };
        assert(universe@.bodies =~= Seq::empty());
        universe
    }

    /// The position of the body with the id `id`, if there is one.
    pub fn index_of(&self, id: usize) -> (found: Option<usize>)
        requires
            self.wf(),
        ensures
            match found {
                Some(k) => has_id(self@.bodies, id) && k == position_of(self@.bodies, id),
                None => !has_id(self@.bodies, id),
            },
    {
        let mut k: usize = 0;
        while k < self.bodies.len()
            invariant
                self.wf(),
                k <= self.bodies@.len(),
                forall|j: int| 0 <= j < k ==> (#[trigger] self@.bodies[j]).id != id,
            decreases self.bodies@.len() - k,
        {
            if self.bodies[k].id == id {
                proof {
                    lemma_position_of(self@.bodies, k as int);
                }
                return Some(k);
            }
            k += 1;
        }
        None
    }

    /// Takes `body` in: gives it the next id, clears its list of children,
    /// puts it at the end and, if it names a parent, at the end of that
    /// parent's children. Returns the id.
    pub fn add_body(&mut self, body: CelestialBody<R>) -> (id: usize)
        requires
            old(self).wf(),
            old(self)@.admits(body@),
        ensures
            final(self).wf(),
            final(self)@ == old(self)@.with_body(body@),
            id == old(self)@.id_gen,
    {
        let id = self.id_gen;
        let mut body = body;
        let ghost given = body@;
        body.id = id;
        body.children = Vec::new();
        assert(body@ == given.enrolled(id));
        let ghost before = self@.bodies;
        match body.parent {
            Some(p) => {
                let found = self.index_of(p);
                let k = found.unwrap();
                self.bodies[k].children.push(id);
                assert(views(self.bodies@) =~= before.update(
                    k as int,
                    before[k as int].with_child(id),
                ));
            },
            None => {
                self.root = id;
            },
        }
        self.bodies.push(body);
        self.id_gen = id + 1;
        proof {
            lemma_with_body_consistent(before, old(self)@.root, id, given);
            assert(self@.bodies =~= with_body(before, given, id));
        }
        id
    }

    /// The id of the first body named `name`, if there is one.
    pub fn find_by_name(&self, name: &str) -> (found: Option<usize>)
        ensures
            match first_named(self@.bodies, name@) {
                Some(k) => found == Some(self@.bodies[k].id),
                None => found is None,
            },
    {
        let mut k: usize = 0;
        while k < self.bodies.len()
            invariant
                k <= self.bodies@.len(),
                forall|j: int| 0 <= j < k ==> (#[trigger] self@.bodies[j]).name != name@,
            decreases self.bodies@.len() - k,
        {
            if *self.bodies[k].name.as_str() == *name {
                proof {
                    assert(is_first_named(self@.bodies, name@, k as int));
                    let chosen = choose|c: int| is_first_named(self@.bodies, name@, c);
                    assert(is_first_named(self@.bodies, name@, chosen));
                    if chosen < k {
                        assert(self@.bodies[chosen].name != name@);
                    } else if k < chosen {
                        assert(self@.bodies[k as int].name != name@);
                    }
                }
                return Some(self.bodies[k].id);
            }
            k += 1;
        }
        proof {
            assert forall|c: int| !is_first_named(self@.bodies, name@, c) by {
                if 0 <= c < self@.bodies.len() {
                    assert(self@.bodies[c].name != name@);
                }
            }
        }
        None
    }

    /// Launches a spacecraft around the first body named "earth": takes in a
    /// body with the given colour, motion, gravitational parameter, radius
    /// and elements, named "rocket" followed by its id. Returns the id, or
    /// `None` where no body is named "earth"; the universe is then unchanged.
    pub fn new_rocket(
        &mut self,
        orbit_color: String,
        motion: Motion<R>,
        gm: R,
        radius: R,
        orbital_elements: OrbitalElements<R>,
    ) -> (launched: Option<usize>)
        requires
            old(self).wf(),
            old(self)@.id_gen < usize::MAX,
        ensures
            final(self).wf(),
            final(self)@ == old(self)@.launched(orbit_color@, motion, gm, radius, orbital_elements),
            launched == match first_named(old(self)@.bodies, "earth"@) {
                Some(k) => Some(old(self)@.id_gen),
                None => None,
            },
    {
        match self.find_by_name("earth") {
            Some(parent) => {
                let name = rocket_name(self.id_gen);
                let rocket = CelestialBody::new(
                    Some(parent),
                    name,
                    orbit_color,
                    motion,
                    gm,
                    radius,
                    orbital_elements,
                );
                proof {
                    let k = first_named(self@.bodies, "earth"@)->Some_0;
                    assert(is_first_named(self@.bodies, "earth"@, k));
                    let shown = rocket_view(
                        self@.id_gen,
                        parent,
                        orbit_color@,
                        motion,
                        gm,
                        radius,
                        orbital_elements,
                    );
                    assert(self@.with_body(rocket@) == self@.with_body(shown));
                }
                let id = self.add_body(rocket);
                Some(id)
            },
            None => None,
        }
    }

    /// Advances the universe by one tick.
    ///
    /// Runs `SUBSTEPS` substeps. In each, every body in turn, in the order
    /// of the bodies, gets the motion that `advance` returns for it, for the
    /// other bodies as they stand at that moment, the time scale and the
    /// number of substeps. Then every body that has a parent gets the
    /// elements that `derive` returns for it and its parent. At the end the
    /// tick is counted and the simulated time becomes what `clock` returns
    /// for the simulated time and the time scale.
    pub fn update<A, D, C>(&mut self, advance: A, derive: D, clock: C) where
        A: Fn(&CelestialBody<R>, &Others<CelestialBody<R>>, R, usize) -> Motion<R>,
        D: Fn(&CelestialBody<R>, &CelestialBody<R>) -> DerivedElements<R>,
        C: Fn(R, R) -> R,

        requires
            old(self).wf(),
            old(self)@.time < usize::MAX,
            forall|c: &CelestialBody<R>, r: &Others<CelestialBody<R>>, t: R, d: usize|
                call_requires(advance, (c, r, t, d)),
            forall|b: &CelestialBody<R>, p: &CelestialBody<R>| call_requires(derive, (b, p)),
            forall|t: R, s: R| call_requires(clock, (t, s)),
        ensures
            final(self).wf(),
            ticked(advance, derive, clock, old(self)@, final(self)@),
    {
        let ghost start = self@.bodies;
        substeps(&mut self.bodies, self.time_scale, SUBSTEPS, &advance);
        let ghost mid = views(self.bodies@);
        proof {
            lemma_kept_consistent(start, mid, self.root, self.id_gen);
            lemma_consistent_parents_present(mid, self.root, self.id_gen);
        }
        refresh_all(&mut self.bodies, &derive);
        proof {
            lemma_kept_trans(start, mid, views(self.bodies@));
            lemma_kept_consistent(start, views(self.bodies@), self.root, self.id_gen);
        }
        self.time = self.time + 1;
        self.sim_time = clock(self.sim_time, self.time_scale);
        proof {
            let time_scale = old(self)@.time_scale;
            assert(substepped(advance, time_scale, SUBSTEPS, start, SUBSTEPS as nat, mid));
            assert(refreshed(derive, mid, mid.len(), self@.bodies));
            assert(call_ensures(clock, (old(self)@.sim_time, time_scale), self@.sim_time));
        }
    }

    /// Whether `body` can be taken in.
    pub fn admits(&self, body: &CelestialBody<R>) -> (ok: bool)
        requires
            self.wf(),
        ensures
            ok == self@.admits(body@),
    {
        if self.id_gen == usize::MAX {
            return false;
        }
        match body.parent {
            Some(p) => self.index_of(p).is_some(),
            None => self.bodies.len() == 0,
        }
    }

    /// The body with the id `id`, if there is one.
    pub fn body(&self, id: usize) -> (found: Option<&CelestialBody<R>>)
        requires
            self.wf(),
        ensures
            match found {
                Some(body) => has_id(self@.bodies, id) && body@ == self@.bodies[position_of(
                    self@.bodies,
                    id,
                )],
                None => !has_id(self@.bodies, id),
            },
    {
        match self.index_of(id) {
            Some(k) => Some(&self.bodies[k]),
            None => None,
        }
    }

    /// The parent of the body with the id `id`: `None` for the root and
    /// where no body has that id.
    pub fn parent_of(&self, id: usize) -> (found: Option<&CelestialBody<R>>)
        requires
            self.wf(),
        ensures
            match found {
                Some(parent) => has_id(self@.bodies, id) && self@.bodies[position_of(
                    self@.bodies,
                    id,
                )].parent == Some(parent@.id) && parent@ == self@.bodies[position_of(
                    self@.bodies,
                    parent@.id,
                )],
                None => !has_id(self@.bodies, id) || id == self@.root,
            },
    {
        match self.index_of(id) {
            Some(k) => match self.bodies[k].parent {
                Some(p) => {
                    assert(parent_resolves(self@.bodies, self@.root, k as int));
                    self.body(p)
                },
                None => {
                    assert(parent_resolves(self@.bodies, self@.root, k as int));
                    None
                },
            },
            None => None,
        }
    }

    /// The bodies, in the order in which they were taken in.
    pub fn bodies(&self) -> (bodies: &[CelestialBody<R>])
        ensures
            views(bodies@) == self@.bodies,
    {
        self.bodies.as_slice()
    }

    /// The number of bodies.
    pub fn len(&self) -> (len: usize)
        ensures
            len == self@.bodies.len(),
    {
        self.bodies.len()
    }

    /// Whether there is no body.
    pub fn is_empty(&self) -> (empty: bool)
        ensures
            empty == (self@.bodies.len() == 0),
    {
        self.bodies.len() == 0
    }

    /// The id of the body without a parent.
    pub fn root(&self) -> (root: usize)
        ensures
            root == self@.root,
    {
        self.root
    }

    /// The next id to give out.
    pub fn id_gen(&self) -> (id_gen: usize)
        ensures
            id_gen == self@.id_gen,
    {
        self.id_gen
    }

    /// Simulated time at the start.
    pub fn start_time(&self) -> (start_time: R)
        ensures
            start_time == self@.start_time,
    {
        self.start_time
    }

    /// Simulated time per tick.
    pub fn time_scale(&self) -> (time_scale: R)
        ensures
            time_scale == self@.time_scale,
    {
        self.time_scale
    }

    /// Sets the simulated time per tick.
    pub fn set_time_scale(&mut self, time_scale: R)
        ensures
            final(self)@ == old(self)@.with_time_scale(time_scale),
    {
        self.time_scale = time_scale;
    }

    /// The number of ticks so far.
    pub fn get_time(&self) -> (time: usize)
        ensures
            time == self@.time,
    {
        self.time
    }

    /// Simulated time so far.
    pub fn get_sim_time(&self) -> (sim_time: R)
        ensures
            sim_time == self@.sim_time,
    {
        self.sim_time
    }
}

} // verus!
