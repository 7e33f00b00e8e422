use vstd::prelude::*;
use crate::body::{views, BodyView, CelestialBody, Motion};
use crate::elements::DerivedElements;
use crate::lineage::{first_with_id, lemma_found_among_others, surrounds};
use crate::partition::{split_bodies, Others};
use crate::tree::{
    ids_unique, kept, lemma_kept_links, lemma_kept_trans, parent_present, parents_present,
    position_of,
};
use crate::universe::UniverseView;

verus! {

/// The number of substeps of one tick.
pub const SUBSTEPS: usize = 100;

/// One body advanced by one substep: `advance` was given the body at `i`
/// and the others as they stand in `pre`, and the motion that it returned
/// has replaced that body's motion. Nothing else differs in `post`.
pub open spec fn advance_step<R, A>(
    advance: A,
    time_scale: R,
    div: usize,
    pre: Seq<BodyView<R>>,
    i: int,
    post: Seq<BodyView<R>>,
) -> bool where A: Fn(&CelestialBody<R>, &Others<CelestialBody<R>>, R, usize) -> Motion<R> {
    exists|center: &CelestialBody<R>, rest: &Others<CelestialBody<R>>, motion: Motion<R>|
        center@ == pre[i] && surrounds(rest, pre, i) && #[trigger] call_ensures(
            advance,
            (center, rest, time_scale, div),
            motion,
        ) && post == pre.update(i, pre[i].with_motion(motion))
}

/// The first `upto` bodies advanced by one substep, in the order of the
/// sequence and in place: each body is advanced against the others as they
/// stand when its turn comes.
pub open spec fn swept<R, A>(
    advance: A,
    time_scale: R,
    div: usize,
    pre: Seq<BodyView<R>>,
    upto: nat,
    post: Seq<BodyView<R>>,
) -> bool where A: Fn(&CelestialBody<R>, &Others<CelestialBody<R>>, R, usize) -> Motion<R>
    decreases upto,
{
    if upto == 0 {
        post == pre
    } else {
        exists|mid: Seq<BodyView<R>>|
            swept(advance, time_scale, div, pre, (upto - 1) as nat, mid) && #[trigger] advance_step(
                advance,
                time_scale,
                div,
                mid,
                upto - 1,
                post,
            )
    }
}

/// `rounds` substeps, each a sweep over all bodies.
pub open spec fn substepped<R, A>(
    advance: A,
    time_scale: R,
    div: usize,
    pre: Seq<BodyView<R>>,
    rounds: nat,
    post: Seq<BodyView<R>>,
) -> bool where A: Fn(&CelestialBody<R>, &Others<CelestialBody<R>>, R, usize) -> Motion<R>
    decreases rounds,
{
    if rounds == 0 {
        post == pre
    } else {
        exists|mid: Seq<BodyView<R>>|
            substepped(advance, time_scale, div, pre, (rounds - 1) as nat, mid) && #[trigger] swept(
                advance,
                time_scale,
                div,
                mid,
                mid.len(),
                post,
            )
    }
}

/// The elements of one body derived anew: a body without a parent is left
/// as it is; for any other, `derive` was given the body and its parent as
/// they stand in `pre`, and what it returned has replaced the body's five
/// derived elements.
pub open spec fn refresh_step<R, D>(
    derive: D,
    pre: Seq<BodyView<R>>,
    i: int,
    post: Seq<BodyView<R>>,
) -> bool where D: Fn(&CelestialBody<R>, &CelestialBody<R>) -> DerivedElements<R> {
    match pre[i].parent {
        None => post == pre,
        Some(p) => exists|
            body: &CelestialBody<R>,
            parent: &CelestialBody<R>,
            derived: DerivedElements<R>,
        |
            body@ == pre[i] && parent@ == pre[position_of(pre, p)] && #[trigger] call_ensures(
                derive,
                (body, parent),
                derived,
            ) && post == pre.update(i, pre[i].with_derived(derived)),
    }
}

/// The elements of the first `upto` bodies derived anew, in the order of
/// the sequence.
pub open spec fn refreshed<R, D>(
    derive: D,
    pre: Seq<BodyView<R>>,
    upto: nat,
    post: Seq<BodyView<R>>,
) -> bool where D: Fn(&CelestialBody<R>, &CelestialBody<R>) -> DerivedElements<R>
    decreases upto,
{
    if upto == 0 {
        post == pre
    } else {
        exists|mid: Seq<BodyView<R>>|
            refreshed(derive, pre, (upto - 1) as nat, mid) && #[trigger] refresh_step(
                derive,
                mid,
                upto - 1,
                post,
            )
    }
}

/// One tick: `SUBSTEPS` substeps at the time scale of `pre`, then the
/// elements of every body derived anew, the tick counted and the clock
/// advanced by `clock`, which was given the simulated time and the time
/// scale. Root, next id, start time and time scale stay.
pub open spec fn ticked<R, A, D, C>(
    advance: A,
    derive: D,
    clock: C,
    pre: UniverseView<R>,
    post: UniverseView<R>,
) -> bool where
    A: Fn(&CelestialBody<R>, &Others<CelestialBody<R>>, R, usize) -> Motion<R>,
    D: Fn(&CelestialBody<R>, &CelestialBody<R>) -> DerivedElements<R>,
    C: Fn(R, R) -> R,
 {
    &&& exists|mid: Seq<BodyView<R>>|
        substepped(advance, pre.time_scale, SUBSTEPS, pre.bodies, SUBSTEPS as nat, mid)
            && #[trigger] refreshed(derive, mid, mid.len(), post.bodies)
    &&& call_ensures(clock, (pre.sim_time, pre.time_scale), post.sim_time)
    &&& post.time == pre.time + 1
    &&& post.root == pre.root
    &&& post.id_gen == pre.id_gen
    &&& post.start_time == pre.start_time
    &&& post.time_scale == pre.time_scale
}

proof fn lemma_swept_extend<R, A>(
    advance: A,
    time_scale: R,
    div: usize,
    pre: Seq<BodyView<R>>,
    upto: nat,
    mid: Seq<BodyView<R>>,
    post: Seq<BodyView<R>>,
) where A: Fn(&CelestialBody<R>, &Others<CelestialBody<R>>, R, usize) -> Motion<R>
    requires
        swept(advance, time_scale, div, pre, upto, mid),
        advance_step(advance, time_scale, div, mid, upto as int, post),
    ensures
        swept(advance, time_scale, div, pre, upto + 1, post),
{
    assert(swept(advance, time_scale, div, pre, ((upto + 1) - 1) as nat, mid));
}

/// Advances every body by one substep, in the order of `bodies` and in place.
pub(crate) fn sweep<R: Copy, A>(
    bodies: &mut Vec<CelestialBody<R>>,
    time_scale: R,
    div: usize,
    advance: &A,
) where A: Fn(&CelestialBody<R>, &Others<CelestialBody<R>>, R, usize) -> Motion<R>
    requires
        forall|c: &CelestialBody<R>, r: &Others<CelestialBody<R>>, t: R, d: usize|
            call_requires(*advance, (c, r, t, d)),
    ensures
        swept(
            *advance,
            time_scale,
            div,
            views(old(bodies)@),
            old(bodies)@.len(),
            views(final(bodies)@),
        ),
        kept(views(old(bodies)@), views(final(bodies)@)),
{
    let ghost start = views(bodies@);
    let n = bodies.len();
    let mut i: usize = 0;
    while i < n
        invariant
            i <= n,
            bodies@.len() == n,
            start.len() == n,
            swept(*advance, time_scale, div, start, i as nat, views(bodies@)),
            kept(start, views(bodies@)),
            forall|c: &CelestialBody<R>, r: &Others<CelestialBody<R>>, t: R, d: usize|
                call_requires(*advance, (c, r, t, d)),
        decreases n - i,
    {
        let ghost mid = views(bodies@);
        let (center, rest) = split_bodies(bodies.as_mut_slice(), i);
        let ghost given: &CelestialBody<R> = &*center;
        center.simulate_body(&rest, time_scale, div, advance);
        proof {
            let post = views(bodies@);
            let motion = choose|motion: Motion<R>| #[trigger]
                call_ensures(*advance, (given, &rest, time_scale, div), motion) && post[i as int]
                    == given@.with_motion(motion);
            assert(views(rest.before@) =~= mid.subrange(0, i as int));
            assert(views(rest.after@) =~= mid.subrange(i + 1, mid.len() as int));
            assert(given@ == mid[i as int]);
            assert(post =~= mid.update(i as int, mid[i as int].with_motion(motion)));
            assert(advance_step(*advance, time_scale, div, mid, i as int, post));
            lemma_swept_extend(*advance, time_scale, div, start, i as nat, mid, post);
            assert forall|j: int| 0 <= j < start.len() implies (#[trigger] start[j]).kept_in(
                post[j],
            ) by {
                assert(start[j].kept_in(mid[j]));
            }
        }
        i += 1;
    }
}

proof fn lemma_substepped_extend<R, A>(
    advance: A,
    time_scale: R,
    div: usize,
    pre: Seq<BodyView<R>>,
    rounds: nat,
    mid: Seq<BodyView<R>>,
    post: Seq<BodyView<R>>,
) where A: Fn(&CelestialBody<R>, &Others<CelestialBody<R>>, R, usize) -> Motion<R>
    requires
        substepped(advance, time_scale, div, pre, rounds, mid),
        swept(advance, time_scale, div, mid, mid.len(), post),
    ensures
        substepped(advance, time_scale, div, pre, rounds + 1, post),
{
    assert(substepped(advance, time_scale, div, pre, ((rounds + 1) - 1) as nat, mid));
}

proof fn lemma_refreshed_extend<R, D>(
    derive: D,
    pre: Seq<BodyView<R>>,
    upto: nat,
    mid: Seq<BodyView<R>>,
    post: Seq<BodyView<R>>,
) where D: Fn(&CelestialBody<R>, &CelestialBody<R>) -> DerivedElements<R>
    requires
        refreshed(derive, pre, upto, mid),
        refresh_step(derive, mid, upto as int, post),
    ensures
        refreshed(derive, pre, upto + 1, post),
{
    assert(refreshed(derive, pre, ((upto + 1) - 1) as nat, mid));
}

/// Runs `rounds` substeps, each a sweep over all bodies.
pub(crate) fn substeps<R: Copy, A>(
    bodies: &mut Vec<CelestialBody<R>>,
    time_scale: R,
    rounds: usize,
    advance: &A,
) where A: Fn(&CelestialBody<R>, &Others<CelestialBody<R>>, R, usize) -> Motion<R>
    requires
        forall|c: &CelestialBody<R>, r: &Others<CelestialBody<R>>, t: R, d: usize|
            call_requires(*advance, (c, r, t, d)),
    ensures
        substepped(
            *advance,
            time_scale,
            rounds,
            views(old(bodies)@),
            rounds as nat,
            views(final(bodies)@),
        ),
        kept(views(old(bodies)@), views(final(bodies)@)),
{
    let ghost start = views(bodies@);
    let mut round: usize = 0;
    while round < rounds
        invariant
            round <= rounds,
            substepped(*advance, time_scale, rounds, start, round as nat, views(bodies@)),
            kept(start, views(bodies@)),
            forall|c: &CelestialBody<R>, r: &Others<CelestialBody<R>>, t: R, d: usize|
                call_requires(*advance, (c, r, t, d)),
        decreases rounds - round,
    {
        let ghost mid = views(bodies@);
        sweep(bodies, time_scale, rounds, advance);
        proof {
            let post = views(bodies@);
            lemma_substepped_extend(*advance, time_scale, rounds, start, round as nat, mid, post);
            lemma_kept_trans(start, mid, post);
        }
        round += 1;
    }
}

/// Derives the elements of every body anew, in the order of `bodies`.
pub(crate) fn refresh_all<R: Copy, D>(bodies: &mut Vec<CelestialBody<R>>, derive: &D) where
    D: Fn(&CelestialBody<R>, &CelestialBody<R>) -> DerivedElements<R>,

    requires
        ids_unique(views(old(bodies)@)),
        parents_present(views(old(bodies)@)),
        forall|b: &CelestialBody<R>, p: &CelestialBody<R>| call_requires(*derive, (b, p)),
    ensures
        refreshed(*derive, views(old(bodies)@), old(bodies)@.len(), views(final(bodies)@)),
        kept(views(old(bodies)@), views(final(bodies)@)),
{
    let ghost start = views(bodies@);
    let n = bodies.len();
    let mut i: usize = 0;
    while i < n
        invariant
            i <= n,
            bodies@.len() == n,
            start.len() == n,
            ids_unique(start),
            parents_present(start),
            refreshed(*derive, start, i as nat, views(bodies@)),
            kept(start, views(bodies@)),
            forall|b: &CelestialBody<R>, p: &CelestialBody<R>| call_requires(*derive, (b, p)),
        decreases n - i,
    {
        let ghost mid = views(bodies@);
        proof {
            lemma_kept_links(start, mid);
        }
        let (center, rest) = split_bodies(bodies.as_mut_slice(), i);
        let ghost given: &CelestialBody<R> = &*center;
        proof {
            assert(views(rest.before@) =~= mid.subrange(0, i as int));
            assert(views(rest.after@) =~= mid.subrange(i + 1, mid.len() as int));
            assert(given@ == mid[i as int]);
            assert(parent_present(mid, i as int));
            if given.parent is Some {
                // The parent is there and is not the body itself: it is
                // among the others.
                lemma_found_among_others(mid, i as int, rest, given.parent->Some_0);
            }
        }
        center.update(&rest, derive);
        proof {
            let post = views(bodies@);
            match mid[i as int].parent {
                None => {
                    assert(post =~= mid);
                },
                Some(p) => {
                    lemma_found_among_others(mid, i as int, rest, p);
                    let k = first_with_id(rest@, p)->Some_0;
                    let derived = choose|derived: DerivedElements<R>|
                        post[i as int] == given@.with_derived(derived) && #[trigger] call_ensures(
                            *derive,
                            (given, &rest@[k]),
                            derived,
                        );
                    assert(post =~= mid.update(i as int, mid[i as int].with_derived(derived)));
                },
            }
            assert(refresh_step(*derive, mid, i as int, post));
            lemma_refreshed_extend(*derive, start, i as nat, mid, post);
            assert forall|j: int| 0 <= j < start.len() implies (#[trigger] start[j]).kept_in(
                post[j],
            ) by {
                assert(start[j].kept_in(mid[j]));
            }
        }
        i += 1;
    }
}

} // verus!
