use vstd::prelude::*;
use crate::body::{views, BodyView, CelestialBody, Motion};
use crate::derivation::{AscendingNodeRule, Geometry, PerihelionRule};
use crate::elements::{DerivedElements, OrbitalElements};
use crate::partition::Others;
use crate::lineage::{found, lemma_found_among_others, lineage, surrounds};
use crate::tick::{advance_step, refresh_step, refreshed, substepped, swept, ticked, SUBSTEPS};
use crate::tree::{
    child_is_body, has_id, kept, lemma_kept_consistent, lemma_kept_trans, lemma_position_of,
    lemma_with_body_consistent, lists_child, parent_resolves, position_of,
};
use crate::universe::{first_named, is_first_named, rocket_view, UniverseView};

verus! {

/// Whether `id` stands at exactly one place of `list`.
pub open spec fn listed_once(list: Seq<usize>, id: usize) -> bool {
    exists|k: int|
        0 <= k < list.len() && #[trigger] list[k] == id && forall|j: int|
            0 <= j < list.len() && #[trigger] list[j] == id ==> j == k
}

/// In a universe that meets its invariant, every body but the root has a
/// parent that is there, and that parent lists the body exactly once among
/// its children. The body without a parent is the root.
pub proof fn lemma_parent_lists_child_once<R>(universe: UniverseView<R>, i: int)
    requires
        universe.wf(),
        0 <= i < universe.bodies.len(),
    ensures
        match universe.bodies[i].parent {
            None => universe.bodies[i].id == universe.root,
            Some(p) => {
                &&& universe.bodies[i].id != universe.root
                &&& has_id(universe.bodies, p)
                &&& listed_once(
                    universe.bodies[position_of(universe.bodies, p)].children,
                    universe.bodies[i].id,
                )
            },
        },
{
    let bodies = universe.bodies;
    assert(parent_resolves(bodies, universe.root, i));
    match bodies[i].parent {
        None => {},
        Some(p) => {
            let at = position_of(bodies, p);
            assert(0 <= at < bodies.len() && bodies[at].id == p);
            let list = bodies[at].children;
            assert(lists_child(bodies, at, i));
            assert(list.contains(bodies[i].id));
            let k = choose|k: int| 0 <= k < list.len() && list[k] == bodies[i].id;
            assert(list.no_duplicates());
            assert forall|j: int|
                0 <= j < list.len() && #[trigger] list[j] == bodies[i].id implies j == k by {
                if j != k {
                    assert(list[j] != list[k]);
                }
            }
        },
    }
}

/// In a universe that meets its invariant, every id that a body lists among
/// its children is the id of a body that is there and that names the lister
/// as its parent.
pub proof fn lemma_listed_child_names_parent<R>(universe: UniverseView<R>, i: int, c: int)
    requires
        universe.wf(),
        0 <= i < universe.bodies.len(),
        0 <= c < universe.bodies[i].children.len(),
    ensures
        has_id(universe.bodies, universe.bodies[i].children[c]),
        universe.bodies[position_of(universe.bodies, universe.bodies[i].children[c])].parent
            == Some(universe.bodies[i].id),
{
    let bodies = universe.bodies;
    let child = bodies[i].children[c];
    assert(child_is_body(bodies, i, c));
    let j = choose|j: int|
        0 <= j < bodies.len() && (#[trigger] bodies[j]).id == child && bodies[j].parent == Some(
            bodies[i].id,
        );
    lemma_position_of(bodies, j);
}

/// In a universe that meets its invariant and holds a body, the root is
/// there and is the only body without a parent.
pub proof fn lemma_one_root<R>(universe: UniverseView<R>)
    requires
        universe.wf(),
        universe.bodies.len() > 0,
    ensures
        has_id(universe.bodies, universe.root),
        universe.bodies[position_of(universe.bodies, universe.root)].parent is None,
        forall|i: int|
            0 <= i < universe.bodies.len() && (#[trigger] universe.bodies[i]).parent is None ==> i
                == position_of(universe.bodies, universe.root),
{
    let bodies = universe.bodies;
    let r = position_of(bodies, universe.root);
    assert(0 <= r < bodies.len() && bodies[r].id == universe.root);
    assert(parent_resolves(bodies, universe.root, r));
    assert forall|i: int| 0 <= i < bodies.len() && (#[trigger] bodies[i]).parent is None implies i
        == r by {
        assert(parent_resolves(bodies, universe.root, i));
        lemma_position_of(bodies, i);
    }
}

/// In a universe that meets its invariant, every body descends from the
/// root: seen from any body and the others around it, the line of ancestors
/// of a body starts with its parent, and ends with the root. Only the root
/// has no ancestors.
pub proof fn lemma_every_body_descends_from_the_root<R>(
    universe: UniverseView<R>,
    i: int,
    center: CelestialBody<R>,
    rest: Others<CelestialBody<R>>,
    j: int,
    body: CelestialBody<R>,
)
    requires
        universe.wf(),
        0 <= i < universe.bodies.len(),
        center@ == universe.bodies[i],
        surrounds(&rest, universe.bodies, i),
        0 <= j < universe.bodies.len(),
        body@ == universe.bodies[j],
    ensures
        ({
            let line = lineage(body, center, rest@);
            match body.parent {
                None => line.len() == 0,
                Some(p) => {
                    &&& line.len() > 0
                    &&& line[0]@ == universe.bodies[position_of(universe.bodies, p)]
                    &&& line.last().id == universe.root
                    &&& line.last().parent is None
                },
            }
        }),
    decreases body.id,
{
    let bodies = universe.bodies;
    assert(parent_resolves(bodies, universe.root, j));
    match body.parent {
        None => {},
        Some(p) => {
            let w = position_of(bodies, p);
            assert(0 <= w < bodies.len() && bodies[w].id == p);
            if center.id != p {
                lemma_found_among_others(bodies, i, rest, p);
            } else {
                lemma_position_of(bodies, i);
            }
            let parent = found(p, center, rest@)->Some_0;
            assert(parent@ == bodies[w]);
            assert(parent_resolves(bodies, universe.root, w));
            lemma_every_body_descends_from_the_root(universe, i, center, rest, w, parent);
            let line = lineage(body, center, rest@);
            let further = lineage(parent, center, rest@);
            assert(line == seq![parent] + further);
            assert(line[0] == parent);
            if further.len() > 0 {
                assert(line.last() == further.last());
            }
        },
    }
}

/// Neither angle is ever taken by dividing by a degenerate vector: a rule
/// that divides by the length of `n`, or of `n` and `e`, is chosen only where
/// those vectors are not degenerate.
pub proof fn lemma_no_division_by_degenerate(geometry: Geometry)
    ensures
        geometry.ascending_node_rule_of().divides_by_node() ==> !geometry.node_degenerate,
        geometry.perihelion_rule_of().divides_by_node_and_eccentricity()
            ==> !geometry.node_degenerate && !geometry.eccentricity_degenerate,
{
}

/// An orbit whose node vector and eccentricity vector are both degenerate,
/// as for a circular orbit in the reference plane, takes both fallbacks: the
/// ascending node is 0 and the argument of perihelion is an arc tangent.
pub proof fn lemma_degenerate_orbit_takes_fallbacks(geometry: Geometry)
    requires
        geometry.node_degenerate,
        geometry.eccentricity_degenerate,
    ensures
        geometry.ascending_node_rule_of() == AscendingNodeRule::Zero,
        geometry.perihelion_rule_of() == (PerihelionRule::Atan2 {
            y_negated: geometry.momentum_z_negative,
        }),
{
}

/// Whether `advance` is repeatable: it returns one motion only for a body,
/// the others around it, a time scale and a number of substeps, and that
/// motion depends on the bodies only through their views.
pub open spec fn advance_repeatable<R, A>(advance: A) -> bool where
    A: Fn(&CelestialBody<R>, &Others<CelestialBody<R>>, R, usize) -> Motion<R>,
 {
    forall|
        center_a: &CelestialBody<R>,
        rest_a: &Others<CelestialBody<R>>,
        center_b: &CelestialBody<R>,
        rest_b: &Others<CelestialBody<R>>,
        t: R,
        d: usize,
        motion_a: Motion<R>,
        motion_b: Motion<R>,
    |
        {
            &&& center_a@ == center_b@
            &&& views(rest_a.before@) == views(rest_b.before@)
            &&& views(rest_a.after@) == views(rest_b.after@)
            &&& #[trigger] call_ensures(advance, (center_a, rest_a, t, d), motion_a)
            &&& #[trigger] call_ensures(advance, (center_b, rest_b, t, d), motion_b)
        } ==> motion_a == motion_b
}

/// Whether `derive` is repeatable: it returns one set of elements only for
/// a body and its parent, and that set depends on the two bodies only
/// through their views.
pub open spec fn derive_repeatable<R, D>(derive: D) -> bool where
    D: Fn(&CelestialBody<R>, &CelestialBody<R>) -> DerivedElements<R>,
 {
    forall|
        body_a: &CelestialBody<R>,
        parent_a: &CelestialBody<R>,
        body_b: &CelestialBody<R>,
        parent_b: &CelestialBody<R>,
        derived_a: DerivedElements<R>,
        derived_b: DerivedElements<R>,
    |
        {
            &&& body_a@ == body_b@
            &&& parent_a@ == parent_b@
            &&& #[trigger] call_ensures(derive, (body_a, parent_a), derived_a)
            &&& #[trigger] call_ensures(derive, (body_b, parent_b), derived_b)
        } ==> derived_a == derived_b
}

/// Whether `clock` is repeatable: it returns one time only for a time and a
/// time scale.
pub open spec fn clock_repeatable<R, C>(clock: C) -> bool where C: Fn(R, R) -> R {
    forall|t: R, s: R, time_a: R, time_b: R|
        {
            &&& #[trigger] call_ensures(clock, (t, s), time_a)
            &&& #[trigger] call_ensures(clock, (t, s), time_b)
        } ==> time_a == time_b
}

proof fn lemma_advance_step_repeatable<R, A>(
    advance: A,
    time_scale: R,
    div: usize,
    pre: Seq<BodyView<R>>,
    i: int,
    post_a: Seq<BodyView<R>>,
    post_b: Seq<BodyView<R>>,
) where A: Fn(&CelestialBody<R>, &Others<CelestialBody<R>>, R, usize) -> Motion<R>
    requires
        advance_repeatable(advance),
        advance_step(advance, time_scale, div, pre, i, post_a),
        advance_step(advance, time_scale, div, pre, i, post_b),
    ensures
        post_a == post_b,
{
    let (center_a, rest_a, motion_a) = choose|
        c: &CelestialBody<R>,
        r: &Others<CelestialBody<R>>,
        m: Motion<R>,
    |
        c@ == pre[i] && surrounds(r, pre, i) && #[trigger] call_ensures(
            advance,
            (c, r, time_scale, div),
            m,
        ) && post_a == pre.update(i, pre[i].with_motion(m));
    let (center_b, rest_b, motion_b) = choose|
        c: &CelestialBody<R>,
        r: &Others<CelestialBody<R>>,
        m: Motion<R>,
    |
        c@ == pre[i] && surrounds(r, pre, i) && #[trigger] call_ensures(
            advance,
            (c, r, time_scale, div),
            m,
        ) && post_b == pre.update(i, pre[i].with_motion(m));
    assert(motion_a == motion_b);
}

proof fn lemma_swept_repeatable<R, A>(
    advance: A,
    time_scale: R,
    div: usize,
    pre: Seq<BodyView<R>>,
    upto: nat,
    post_a: Seq<BodyView<R>>,
    post_b: Seq<BodyView<R>>,
) where A: Fn(&CelestialBody<R>, &Others<CelestialBody<R>>, R, usize) -> Motion<R>
    requires
        advance_repeatable(advance),
        swept(advance, time_scale, div, pre, upto, post_a),
        swept(advance, time_scale, div, pre, upto, post_b),
    ensures
        post_a == post_b,
    decreases upto,
{
    if upto > 0 {
        let mid_a = choose|mid: Seq<BodyView<R>>|
            swept(advance, time_scale, div, pre, (upto - 1) as nat, mid) && #[trigger] advance_step(
                advance,
                time_scale,
                div,
                mid,
                upto - 1,
                post_a,
            );
        let mid_b = choose|mid: Seq<BodyView<R>>|
            swept(advance, time_scale, div, pre, (upto - 1) as nat, mid) && #[trigger] advance_step(
                advance,
                time_scale,
                div,
                mid,
                upto - 1,
                post_b,
            );
        lemma_swept_repeatable(advance, time_scale, div, pre, (upto - 1) as nat, mid_a, mid_b);
        lemma_advance_step_repeatable(advance, time_scale, div, mid_a, upto - 1, post_a, post_b);
    }
}

proof fn lemma_substepped_repeatable<R, A>(
    advance: A,
    time_scale: R,
    div: usize,
    pre: Seq<BodyView<R>>,
    rounds: nat,
    post_a: Seq<BodyView<R>>,
    post_b: Seq<BodyView<R>>,
) where A: Fn(&CelestialBody<R>, &Others<CelestialBody<R>>, R, usize) -> Motion<R>
    requires
        advance_repeatable(advance),
        substepped(advance, time_scale, div, pre, rounds, post_a),
        substepped(advance, time_scale, div, pre, rounds, post_b),
    ensures
        post_a == post_b,
    decreases rounds,
{
    if rounds > 0 {
        let mid_a = choose|mid: Seq<BodyView<R>>|
            substepped(advance, time_scale, div, pre, (rounds - 1) as nat, mid) && #[trigger] swept(
                advance,
                time_scale,
                div,
                mid,
                mid.len(),
                post_a,
            );
        let mid_b = choose|mid: Seq<BodyView<R>>|
            substepped(advance, time_scale, div, pre, (rounds - 1) as nat, mid) && #[trigger] swept(
                advance,
                time_scale,
                div,
                mid,
                mid.len(),
                post_b,
            );
        lemma_substepped_repeatable(
            advance,
            time_scale,
            div,
            pre,
            (rounds - 1) as nat,
            mid_a,
            mid_b,
        );
        lemma_swept_repeatable(advance, time_scale, div, mid_a, mid_a.len(), post_a, post_b);
    }
}

proof fn lemma_refresh_step_repeatable<R, D>(
    derive: D,
    pre: Seq<BodyView<R>>,
    i: int,
    post_a: Seq<BodyView<R>>,
    post_b: Seq<BodyView<R>>,
) where D: Fn(&CelestialBody<R>, &CelestialBody<R>) -> DerivedElements<R>
    requires
        derive_repeatable(derive),
        refresh_step(derive, pre, i, post_a),
        refresh_step(derive, pre, i, post_b),
    ensures
        post_a == post_b,
{
    match pre[i].parent {
        None => {},
        Some(p) => {
            let (body_a, parent_a, derived_a) = choose|
                body: &CelestialBody<R>,
                parent: &CelestialBody<R>,
                derived: DerivedElements<R>,
            |
                body@ == pre[i] && parent@ == pre[position_of(pre, p)] && #[trigger] call_ensures(
                    derive,
                    (body, parent),
                    derived,
                ) && post_a == pre.update(i, pre[i].with_derived(derived));
            let (body_b, parent_b, derived_b) = choose|
                body: &CelestialBody<R>,
                parent: &CelestialBody<R>,
                derived: DerivedElements<R>,
            |
                body@ == pre[i] && parent@ == pre[position_of(pre, p)] && #[trigger] call_ensures(
                    derive,
                    (body, parent),
                    derived,
                ) && post_b == pre.update(i, pre[i].with_derived(derived));
            assert(derived_a == derived_b);
        },
    }
}

proof fn lemma_refreshed_repeatable<R, D>(
    derive: D,
    pre: Seq<BodyView<R>>,
    upto: nat,
    post_a: Seq<BodyView<R>>,
    post_b: Seq<BodyView<R>>,
) where D: Fn(&CelestialBody<R>, &CelestialBody<R>) -> DerivedElements<R>
    requires
        derive_repeatable(derive),
        refreshed(derive, pre, upto, post_a),
        refreshed(derive, pre, upto, post_b),
    ensures
        post_a == post_b,
    decreases upto,
{
    if upto > 0 {
        let mid_a = choose|mid: Seq<BodyView<R>>|
            refreshed(derive, pre, (upto - 1) as nat, mid) && #[trigger] refresh_step(
                derive,
                mid,
                upto - 1,
                post_a,
            );
        let mid_b = choose|mid: Seq<BodyView<R>>|
            refreshed(derive, pre, (upto - 1) as nat, mid) && #[trigger] refresh_step(
                derive,
                mid,
                upto - 1,
                post_b,
            );
        lemma_refreshed_repeatable(derive, pre, (upto - 1) as nat, mid_a, mid_b);
        lemma_refresh_step_repeatable(derive, mid_a, upto - 1, post_a, post_b);
    }
}

/// A tick has one outcome: where the three functions handed to `update`
/// are repeatable, two ticks from the same universe end in the same universe.
pub proof fn lemma_tick_repeatable<R, A, D, C>(
    advance: A,
    derive: D,
    clock: C,
    pre: UniverseView<R>,
    post_a: UniverseView<R>,
    post_b: UniverseView<R>,
) where
    A: Fn(&CelestialBody<R>, &Others<CelestialBody<R>>, R, usize) -> Motion<R>,
    D: Fn(&CelestialBody<R>, &CelestialBody<R>) -> DerivedElements<R>,
    C: Fn(R, R) -> R,

    requires
        advance_repeatable(advance),
        derive_repeatable(derive),
        clock_repeatable(clock),
        ticked(advance, derive, clock, pre, post_a),
        ticked(advance, derive, clock, pre, post_b),
    ensures
        post_a == post_b,
{
    let rounds = SUBSTEPS;
    let mid_a = choose|mid: Seq<BodyView<R>>|
        substepped(advance, pre.time_scale, rounds, pre.bodies, rounds as nat, mid)
            && #[trigger] refreshed(derive, mid, mid.len(), post_a.bodies);
    let mid_b = choose|mid: Seq<BodyView<R>>|
        substepped(advance, pre.time_scale, rounds, pre.bodies, rounds as nat, mid)
            && #[trigger] refreshed(derive, mid, mid.len(), post_b.bodies);
    lemma_substepped_repeatable(
        advance,
        pre.time_scale,
        rounds,
        pre.bodies,
        rounds as nat,
        mid_a,
        mid_b,
    );
    lemma_refreshed_repeatable(derive, mid_a, mid_a.len(), post_a.bodies, post_b.bodies);
    assert(post_a.sim_time == post_b.sim_time);
}

proof fn lemma_advance_step_keeps<R, A>(
    advance: A,
    time_scale: R,
    div: usize,
    pre: Seq<BodyView<R>>,
    i: int,
    post: Seq<BodyView<R>>,
) where A: Fn(&CelestialBody<R>, &Others<CelestialBody<R>>, R, usize) -> Motion<R>
    requires
        0 <= i < pre.len(),
        advance_step(advance, time_scale, div, pre, i, post),
    ensures
        kept(pre, post),
{
    assert forall|j: int| 0 <= j < pre.len() implies pre[j].kept_in(post[j]) by {}
}

proof fn lemma_swept_keeps<R, A>(
    advance: A,
    time_scale: R,
    div: usize,
    pre: Seq<BodyView<R>>,
    upto: nat,
    post: Seq<BodyView<R>>,
) where A: Fn(&CelestialBody<R>, &Others<CelestialBody<R>>, R, usize) -> Motion<R>
    requires
        upto <= pre.len(),
        swept(advance, time_scale, div, pre, upto, post),
    ensures
        kept(pre, post),
    decreases upto,
{
    if upto == 0 {
        assert forall|j: int| 0 <= j < pre.len() implies pre[j].kept_in(post[j]) by {}
    } else {
        let mid = choose|mid: Seq<BodyView<R>>|
            swept(advance, time_scale, div, pre, (upto - 1) as nat, mid) && #[trigger] advance_step(
                advance,
                time_scale,
                div,
                mid,
                upto - 1,
                post,
            );
        lemma_swept_keeps(advance, time_scale, div, pre, (upto - 1) as nat, mid);
        lemma_advance_step_keeps(advance, time_scale, div, mid, upto - 1, post);
        lemma_kept_trans(pre, mid, post);
    }
}

proof fn lemma_substepped_keeps<R, A>(
    advance: A,
    time_scale: R,
    div: usize,
    pre: Seq<BodyView<R>>,
    rounds: nat,
    post: Seq<BodyView<R>>,
) where A: Fn(&CelestialBody<R>, &Others<CelestialBody<R>>, R, usize) -> Motion<R>
    requires
        substepped(advance, time_scale, div, pre, rounds, post),
    ensures
        kept(pre, post),
    decreases rounds,
{
    if rounds == 0 {
        assert forall|j: int| 0 <= j < pre.len() implies pre[j].kept_in(post[j]) by {}
    } else {
        let mid = choose|mid: Seq<BodyView<R>>|
            substepped(advance, time_scale, div, pre, (rounds - 1) as nat, mid) && #[trigger] swept(
                advance,
                time_scale,
                div,
                mid,
                mid.len(),
                post,
            );
        lemma_substepped_keeps(advance, time_scale, div, pre, (rounds - 1) as nat, mid);
        lemma_swept_keeps(advance, time_scale, div, mid, mid.len(), post);
        lemma_kept_trans(pre, mid, post);
    }
}

proof fn lemma_refresh_step_keeps<R, D>(
    derive: D,
    pre: Seq<BodyView<R>>,
    i: int,
    post: Seq<BodyView<R>>,
) where D: Fn(&CelestialBody<R>, &CelestialBody<R>) -> DerivedElements<R>
    requires
        0 <= i < pre.len(),
        refresh_step(derive, pre, i, post),
    ensures
        kept(pre, post),
{
    assert forall|j: int| 0 <= j < pre.len() implies pre[j].kept_in(post[j]) by {}
}

proof fn lemma_refreshed_keeps<R, D>(
    derive: D,
    pre: Seq<BodyView<R>>,
    upto: nat,
    post: Seq<BodyView<R>>,
) where D: Fn(&CelestialBody<R>, &CelestialBody<R>) -> DerivedElements<R>
    requires
        upto <= pre.len(),
        refreshed(derive, pre, upto, post),
    ensures
        kept(pre, post),
    decreases upto,
{
    if upto == 0 {
        assert forall|j: int| 0 <= j < pre.len() implies pre[j].kept_in(post[j]) by {}
    } else {
        let mid = choose|mid: Seq<BodyView<R>>|
            refreshed(derive, pre, (upto - 1) as nat, mid) && #[trigger] refresh_step(
                derive,
                mid,
                upto - 1,
                post,
            );
        lemma_refreshed_keeps(derive, pre, (upto - 1) as nat, mid);
        lemma_refresh_step_keeps(derive, mid, upto - 1, post);
        lemma_kept_trans(pre, mid, post);
    }
}

/// A tick changes no body but in its motion and its five derived elements:
/// the bodies stay in their places with their ids, names, colours, parents,
/// children, gravitational parameters and radii, and with the epoch, mean
/// anomaly and sphere of influence of their elements. So a tick keeps a
/// consistent hierarchy consistent.
pub proof fn lemma_tick_keeps<R, A, D, C>(
    advance: A,
    derive: D,
    clock: C,
    pre: UniverseView<R>,
    post: UniverseView<R>,
) where
    A: Fn(&CelestialBody<R>, &Others<CelestialBody<R>>, R, usize) -> Motion<R>,
    D: Fn(&CelestialBody<R>, &CelestialBody<R>) -> DerivedElements<R>,
    C: Fn(R, R) -> R,

    requires
        ticked(advance, derive, clock, pre, post),
    ensures
        kept(pre.bodies, post.bodies),
        pre.wf() ==> post.wf(),
{
    let rounds = SUBSTEPS;
    let mid = choose|mid: Seq<BodyView<R>>|
        substepped(advance, pre.time_scale, rounds, pre.bodies, rounds as nat, mid)
            && #[trigger] refreshed(derive, mid, mid.len(), post.bodies);
    lemma_substepped_keeps(advance, pre.time_scale, rounds, pre.bodies, rounds as nat, mid);
    lemma_refreshed_keeps(derive, mid, mid.len(), post.bodies);
    lemma_kept_trans(pre.bodies, mid, post.bodies);
    if pre.wf() {
        lemma_kept_consistent(pre.bodies, post.bodies, pre.root, pre.id_gen);
    }
}

/// One operation on a universe.
#[verifier::reject_recursive_types(R)]
pub enum Step<R> {
    /// `add_body` with this body.
    AddBody { body: BodyView<R> },
    /// `new_rocket` with these values.
    NewRocket {
        orbit_color: Seq<char>,
        motion: Motion<R>,
        gm: R,
        radius: R,
        orbital_elements: OrbitalElements<R>,
    },
    /// `set_time_scale` with this value.
    SetTimeScale { time_scale: R },
    /// `update`.
    Update,
}

/// Whether `pre` allows the operation and `post` is what the operation can
/// make of it.
pub open spec fn stepped<R, A, D, C>(
    advance: A,
    derive: D,
    clock: C,
    pre: UniverseView<R>,
    step: Step<R>,
    post: UniverseView<R>,
) -> bool where
    A: Fn(&CelestialBody<R>, &Others<CelestialBody<R>>, R, usize) -> Motion<R>,
    D: Fn(&CelestialBody<R>, &CelestialBody<R>) -> DerivedElements<R>,
    C: Fn(R, R) -> R,
 {
    match step {
        Step::AddBody { body } => pre.admits(body) && post == pre.with_body(body),
        Step::NewRocket { orbit_color, motion, gm, radius, orbital_elements } => pre.id_gen
            < usize::MAX && post == pre.launched(orbit_color, motion, gm, radius, orbital_elements),
        Step::SetTimeScale { time_scale } => post == pre.with_time_scale(time_scale),
        Step::Update => pre.time < usize::MAX && ticked(advance, derive, clock, pre, post),
    }
}

/// Whether `post` is what the operations `steps`, one after the other, can
/// make of `pre`.
pub open spec fn ran<R, A, D, C>(
    advance: A,
    derive: D,
    clock: C,
    pre: UniverseView<R>,
    steps: Seq<Step<R>>,
    post: UniverseView<R>,
) -> bool where
    A: Fn(&CelestialBody<R>, &Others<CelestialBody<R>>, R, usize) -> Motion<R>,
    D: Fn(&CelestialBody<R>, &CelestialBody<R>) -> DerivedElements<R>,
    C: Fn(R, R) -> R,

    decreases steps.len(),
{
    if steps.len() == 0 {
        post == pre
    } else {
        exists|mid: UniverseView<R>|
            ran(advance, derive, clock, pre, steps.drop_last(), mid) && #[trigger] stepped(
                advance,
                derive,
                clock,
                mid,
                steps.last(),
                post,
            )
    }
}

/// Two universes that start alike and go through the same operations, with
/// the same repeatable functions handed to every `update`, end alike.
pub proof fn lemma_same_history_same_universe<R, A, D, C>(
    advance: A,
    derive: D,
    clock: C,
    start: UniverseView<R>,
    steps: Seq<Step<R>>,
    end_a: UniverseView<R>,
    end_b: UniverseView<R>,
) where
    A: Fn(&CelestialBody<R>, &Others<CelestialBody<R>>, R, usize) -> Motion<R>,
    D: Fn(&CelestialBody<R>, &CelestialBody<R>) -> DerivedElements<R>,
    C: Fn(R, R) -> R,

    requires
        advance_repeatable(advance),
        derive_repeatable(derive),
        clock_repeatable(clock),
        ran(advance, derive, clock, start, steps, end_a),
        ran(advance, derive, clock, start, steps, end_b),
    ensures
        end_a == end_b,
    decreases steps.len(),
{
    if steps.len() > 0 {
        let mid_a = choose|mid: UniverseView<R>|
            ran(advance, derive, clock, start, steps.drop_last(), mid) && #[trigger] stepped(
                advance,
                derive,
                clock,
                mid,
                steps.last(),
                end_a,
            );
        let mid_b = choose|mid: UniverseView<R>|
            ran(advance, derive, clock, start, steps.drop_last(), mid) && #[trigger] stepped(
                advance,
                derive,
                clock,
                mid,
                steps.last(),
                end_b,
            );
        lemma_same_history_same_universe(
            advance,
            derive,
            clock,
            start,
            steps.drop_last(),
            mid_a,
            mid_b,
        );
        match steps.last() {
            Step::Update => {
                lemma_tick_repeatable(advance, derive, clock, mid_a, end_a, end_b);
            },
            _ => {},
        }
    }
}

/// Whether `later` still holds every body of `earlier` in its place, under
/// its id and with its parent, and gives out no id that `earlier` gave out.
pub open spec fn extends<R>(earlier: UniverseView<R>, later: UniverseView<R>) -> bool {
    &&& earlier.id_gen <= later.id_gen
    &&& earlier.bodies.len() <= later.bodies.len()
    &&& forall|i: int|
        #![trigger earlier.bodies[i]]
        #![trigger later.bodies[i]]
        0 <= i < earlier.bodies.len() ==> later.bodies[i].id == earlier.bodies[i].id
            && later.bodies[i].parent == earlier.bodies[i].parent
}

proof fn lemma_step_keeps_invariant<R, A, D, C>(
    advance: A,
    derive: D,
    clock: C,
    pre: UniverseView<R>,
    step: Step<R>,
    post: UniverseView<R>,
) where
    A: Fn(&CelestialBody<R>, &Others<CelestialBody<R>>, R, usize) -> Motion<R>,
    D: Fn(&CelestialBody<R>, &CelestialBody<R>) -> DerivedElements<R>,
    C: Fn(R, R) -> R,

    requires
        pre.wf(),
        stepped(advance, derive, clock, pre, step, post),
    ensures
        post.wf(),
        extends(pre, post),
{
    match step {
        Step::AddBody { body } => {
            lemma_with_body_consistent(pre.bodies, pre.root, pre.id_gen, body);
        },
        Step::NewRocket { orbit_color, motion, gm, radius, orbital_elements } => {
            match first_named(pre.bodies, "earth"@) {
                Some(k) => {
                    assert(is_first_named(pre.bodies, "earth"@, k));
                    let rocket = rocket_view(
                        pre.id_gen,
                        pre.bodies[k].id,
                        orbit_color,
                        motion,
                        gm,
                        radius,
                        orbital_elements,
                    );
                    lemma_position_of(pre.bodies, k);
                    lemma_with_body_consistent(pre.bodies, pre.root, pre.id_gen, rocket);
                },
                None => {},
            }
        },
        Step::SetTimeScale { time_scale } => {},
        Step::Update => {
            lemma_tick_keeps(advance, derive, clock, pre, post);
            assert forall|i: int| 0 <= i < pre.bodies.len() implies post.bodies[i].id
                == pre.bodies[i].id && post.bodies[i].parent == pre.bodies[i].parent by {
                assert(pre.bodies[i].kept_in(post.bodies[i]));
            }
        },
    }
}

/// Every universe that the operations make of a universe that meets its
/// invariant meets it too, and an id, once given, stays with its body: the
/// bodies that were there are still in their places under their ids and
/// with their parents, and no id is given out twice.
pub proof fn lemma_history_keeps_invariant<R, A, D, C>(
    advance: A,
    derive: D,
    clock: C,
    start: UniverseView<R>,
    steps: Seq<Step<R>>,
    end: UniverseView<R>,
) where
    A: Fn(&CelestialBody<R>, &Others<CelestialBody<R>>, R, usize) -> Motion<R>,
    D: Fn(&CelestialBody<R>, &CelestialBody<R>) -> DerivedElements<R>,
    C: Fn(R, R) -> R,

    requires
        start.wf(),
        ran(advance, derive, clock, start, steps, end),
    ensures
        end.wf(),
        extends(start, end),
    decreases steps.len(),
{
    if steps.len() > 0 {
        let mid = choose|mid: UniverseView<R>|
            ran(advance, derive, clock, start, steps.drop_last(), mid) && #[trigger] stepped(
                advance,
                derive,
                clock,
                mid,
                steps.last(),
                end,
            );
        lemma_history_keeps_invariant(advance, derive, clock, start, steps.drop_last(), mid);
        lemma_step_keeps_invariant(advance, derive, clock, mid, steps.last(), end);
        assert forall|i: int| 0 <= i < start.bodies.len() implies end.bodies[i].id
            == start.bodies[i].id && end.bodies[i].parent == start.bodies[i].parent by {
            assert(mid.bodies[i].id == start.bodies[i].id);
            assert(end.bodies[i].id == mid.bodies[i].id);
        }
    }
}

} // verus!
