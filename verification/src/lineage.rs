use vstd::prelude::*;
use crate::body::{is_first_with_id, views, BodyView, CelestialBody};
use crate::partition::Others;
use crate::tree::{has_id, ids_unique, position_of};

verus! {

/// The position of the first of `siblings` with the id `id`, if there is one.
pub open spec fn first_with_id<R>(siblings: Seq<CelestialBody<R>>, id: usize) -> Option<int> {
    if exists|k: int| is_first_with_id(siblings, id, k) {
        Some(choose|k: int| is_first_with_id(siblings, id, k))
    } else {
        None
    }
}

/// The body with the id `id` among a body and its siblings: the body itself
/// if it has that id, else the first sibling that has it.
pub open spec fn found<R>(
    id: usize,
    center: CelestialBody<R>,
    siblings: Seq<CelestialBody<R>>,
) -> Option<CelestialBody<R>> {
    if center.id == id {
        Some(center)
    } else {
        match first_with_id(siblings, id) {
            Some(k) => Some(siblings[k]),
            None => None,
        }
    }
}

/// The ancestors of `body` among a body and its siblings, the parent first.
/// A link counts only where it leads to an older body, one with a smaller
/// id: the line ends where a body has no parent, names one that is not
/// older, or names one that is not there.
pub open spec fn lineage<R>(
    body: CelestialBody<R>,
    center: CelestialBody<R>,
    siblings: Seq<CelestialBody<R>>,
) -> Seq<CelestialBody<R>>
    decreases body.id,
{
    if body.parent is Some && body.parent->Some_0 < body.id {
        match found(body.parent->Some_0, center, siblings) {
            Some(parent) => seq![parent] + lineage(parent, center, siblings),
            None => Seq::empty(),
        }
    } else {
        Seq::empty()
    }
}

/// Whether `rest` holds the bodies of `bodies` around position `i`: those
/// before it and those after it.
pub open spec fn surrounds<R>(
    rest: &Others<CelestialBody<R>>,
    bodies: Seq<BodyView<R>>,
    i: int,
) -> bool {
    &&& views(rest.before@) == bodies.subrange(0, i)
    &&& views(rest.after@) == bodies.subrange(i + 1, bodies.len() as int)
}

/// There is one first position only.
proof fn lemma_first_is_chosen<R>(siblings: Seq<CelestialBody<R>>, id: usize, k: int)
    requires
        is_first_with_id(siblings, id, k),
    ensures
        first_with_id(siblings, id) == Some(k),
{
    let chosen = choose|c: int| is_first_with_id(siblings, id, c);
    assert(is_first_with_id(siblings, id, chosen));
    if chosen < k {
        assert(siblings[chosen].id != id);
    } else if k < chosen {
        assert(siblings[k].id != id);
    }
}

/// What is found has the id that was asked for.
pub proof fn lemma_found_has_id<R>(
    id: usize,
    center: CelestialBody<R>,
    siblings: Seq<CelestialBody<R>>,
)
    ensures
        found(id, center, siblings) matches Some(body) ==> body.id == id,
{
    if center.id != id {
        if exists|k: int| is_first_with_id(siblings, id, k) {
            let k = choose|k: int| is_first_with_id(siblings, id, k);
            assert(is_first_with_id(siblings, id, k));
        }
    }
}

/// The first of `siblings` with the id `id`, if there is one.
pub fn sibling_with_id<'a, R>(siblings: &Others<'a, CelestialBody<R>>, id: usize) -> (sibling:
    Option<&'a CelestialBody<R>>)
    ensures
        match first_with_id(siblings@, id) {
            Some(k) => sibling == Some(&siblings@[k]),
            None => sibling is None,
        },
{
    let before = siblings.before;
    let after = siblings.after;
    let mut k: usize = 0;
    while k < before.len()
        invariant
            k <= before@.len(),
            siblings@ == before@ + after@,
            forall|j: int| 0 <= j < k ==> (#[trigger] siblings@[j]).id != id,
        decreases before@.len() - k,
    {
        if before[k].id == id {
            proof {
                assert(siblings@[k as int] == before@[k as int]);
                lemma_first_is_chosen(siblings@, id, k as int);
            }
            return Some(&before[k]);
        }
        assert(siblings@[k as int] == before@[k as int]);
        k += 1;
    }
    let mut k: usize = 0;
    while k < after.len()
        invariant
            k <= after@.len(),
            siblings@ == before@ + after@,
            forall|j: int| 0 <= j < before@.len() + k ==> (#[trigger] siblings@[j]).id != id,
        decreases after@.len() - k,
    {
        if after[k].id == id {
            proof {
                assert(siblings@[before@.len() + k] == after@[k as int]);
                lemma_first_is_chosen(siblings@, id, before@.len() + k);
            }
            return Some(&after[k]);
        }
        assert(siblings@[before@.len() + k] == after@[k as int]);
        k += 1;
    }
    proof {
        assert forall|c: int| !is_first_with_id(siblings@, id, c) by {
            if 0 <= c < siblings@.len() {
                assert(siblings@[c].id != id);
            }
        }
    }
    None
}

/// The body with the id `id` among `center` and its siblings.
pub fn lookup<'a, R>(
    id: usize,
    center: &'a CelestialBody<R>,
    siblings: &Others<'a, CelestialBody<R>>,
) -> (body: Option<&'a CelestialBody<R>>)
    ensures
        match found(id, *center, siblings@) {
            Some(b) => body == Some(&b),
            None => body is None,
        },
{
    if center.id == id {
        Some(center)
    } else {
        sibling_with_id(siblings, id)
    }
}

/// The ancestors of `body` among `center` and its siblings, the parent first.
pub fn ancestors<'a, R>(
    body: &'a CelestialBody<R>,
    center: &'a CelestialBody<R>,
    siblings: &Others<'a, CelestialBody<R>>,
) -> (line: Vec<&'a CelestialBody<R>>)
    ensures
        line@.len() == lineage(*body, *center, siblings@).len(),
        forall|i: int|
            0 <= i < line@.len() ==> *(#[trigger] line@[i]) == lineage(
                *body,
                *center,
                siblings@,
            )[i],
{
    let mut line: Vec<&'a CelestialBody<R>> = Vec::new();
    let mut current = body;
    let ghost whole = lineage(*body, *center, siblings@);
    loop
        invariant
            whole == lineage(*body, *center, siblings@),
            line@.len() + lineage(*current, *center, siblings@).len() == whole.len(),
            forall|i: int| 0 <= i < line@.len() ==> *(#[trigger] line@[i]) == whole[i],
            forall|i: int|
                0 <= i < lineage(*current, *center, siblings@).len() ==> (#[trigger] lineage(
                    *current,
                    *center,
                    siblings@,
                )[i]) == whole[line@.len() + i],
        ensures
            line@.len() == whole.len(),
            forall|i: int| 0 <= i < line@.len() ==> *(#[trigger] line@[i]) == whole[i],
        decreases current.id,
    {
        let ghost rest = lineage(*current, *center, siblings@);
        match current.parent {
            Some(p) => {
                if p < current.id {
                    match lookup(p, center, siblings) {
                        Some(parent) => {
                            proof {
                                lemma_found_has_id(p, *center, siblings@);
                                let next = lineage(*parent, *center, siblings@);
                                assert(rest == seq![*parent] + next);
                                assert(rest[0] == *parent);
                                assert forall|i: int| 0 <= i < next.len() implies (
                                #[trigger] next[i]) == whole[line@.len() + 1 + i] by {
                                    assert(rest[i + 1] == next[i]);
                                }
                            }
                            line.push(parent);
                            current = parent;
                        },
                        None => {
                            break ;
                        },
                    }
                } else {
                    break ;
                }
            },
            None => {
                break ;
            },
        }
    }
    line
}

/// Where ids are unique and `rest` holds the bodies around position `i`, a
/// body with the id `id` that is there and is not the body at `i` is the
/// first of `rest` with that id.
pub proof fn lemma_found_among_others<R>(
    bodies: Seq<BodyView<R>>,
    i: int,
    rest: Others<CelestialBody<R>>,
    id: usize,
)
    requires
        0 <= i < bodies.len(),
        ids_unique(bodies),
        has_id(bodies, id),
        bodies[i].id != id,
        surrounds(&rest, bodies, i),
    ensures
        first_with_id(rest@, id) is Some,
        rest@[first_with_id(rest@, id)->Some_0]@ == bodies[position_of(bodies, id)],
{
    let w = position_of(bodies, id);
    assert(0 <= w < bodies.len() && bodies[w].id == id);
    assert(views(rest.before@).len() == i);
    assert(views(rest.after@).len() == bodies.len() - i - 1);
    let at: int = if w < i {
        w
    } else {
        w - 1
    };
    if w < i {
        assert(views(rest.before@)[w] == bodies[w]);
        assert(rest@[at] == rest.before@[w]);
    } else {
        assert(views(rest.after@)[w - i - 1] == bodies[w]);
        assert(rest@[at] == rest.after@[w - i - 1]);
    }
    assert(rest@[at]@ == bodies[w]);
    assert forall|j: int| 0 <= j < rest@.len() && j != at implies (#[trigger] rest@[j]).id
        != id by {
        let from: int = if j < i {
            j
        } else {
            j + 1
        };
        if j < i {
            assert(views(rest.before@)[j] == bodies[from]);
            assert(rest@[j] == rest.before@[j]);
        } else {
            assert(views(rest.after@)[j - i] == bodies[from]);
            assert(rest@[j] == rest.after@[j - i]);
        }
        assert(rest@[j]@ == bodies[from]);
        if from < w {
            assert(bodies[from].id != bodies[w].id);
        } else {
            assert(bodies[w].id != bodies[from].id);
        }
    }
    assert(is_first_with_id(rest@, id, at));
    lemma_first_is_chosen(rest@, id, at);
}

} // verus!
