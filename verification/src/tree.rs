use vstd::prelude::*;
use crate::body::BodyView;

verus! {

/// Whether some body of `bodies` has the id `id`.
pub open spec fn has_id<R>(bodies: Seq<BodyView<R>>, id: usize) -> bool {
    exists|k: int| 0 <= k < bodies.len() && (#[trigger] bodies[k]).id == id
}

/// The position of a body with the id `id`; meaningful where `has_id` holds.
pub open spec fn position_of<R>(bodies: Seq<BodyView<R>>, id: usize) -> int {
    choose|k: int| 0 <= k < bodies.len() && (#[trigger] bodies[k]).id == id
}

/// No two bodies share an id.
pub open spec fn ids_unique<R>(bodies: Seq<BodyView<R>>) -> bool {
    forall|i: int, j: int|
        0 <= i < j < bodies.len() ==> (#[trigger] bodies[i]).id != (#[trigger] bodies[j]).id
}

/// Every id in use is below `id_gen`, the next id to give out.
pub open spec fn ids_below<R>(bodies: Seq<BodyView<R>>, id_gen: usize) -> bool {
    forall|i: int| 0 <= i < bodies.len() ==> (#[trigger] bodies[i]).id < id_gen
}

/// The body at `i` is the root and has no parent, or it names as its parent
/// a body that is there and that is older than itself.
pub open spec fn parent_resolves<R>(bodies: Seq<BodyView<R>>, root: usize, i: int) -> bool {
    match bodies[i].parent {
        None => bodies[i].id == root,
        Some(p) => bodies[i].id != root && p < bodies[i].id && has_id(bodies, p),
    }
}

/// Whether some body has the id `child` and names `parent` as its parent.
pub open spec fn is_child<R>(bodies: Seq<BodyView<R>>, child: usize, parent: usize) -> bool {
    exists|j: int|
        0 <= j < bodies.len() && (#[trigger] bodies[j]).id == child && bodies[j].parent == Some(
            parent,
        )
}

/// If the body at `j` names the body at `i` as its parent, the body at `i`
/// lists it among its children.
pub open spec fn lists_child<R>(bodies: Seq<BodyView<R>>, i: int, j: int) -> bool {
    bodies[j].parent == Some(bodies[i].id) ==> bodies[i].children.contains(bodies[j].id)
}

/// The child at place `w` in the list of the body at `i` is the id of a
/// body that names the body at `i` as its parent.
pub open spec fn child_is_body<R>(bodies: Seq<BodyView<R>>, i: int, w: int) -> bool {
    is_child(bodies, bodies[i].children[w], bodies[i].id)
}

/// The invariant of a hierarchy of bodies.
///
/// Ids are unique and below the next id to give out. The body with the id
/// `root` is the only one without a parent, and it is there unless there is
/// no body at all. Every other body names a parent that is there. The lists
/// of children say what the parent links say: a body lists exactly the
/// bodies that name it as their parent, each once.
pub open spec fn consistent<R>(bodies: Seq<BodyView<R>>, root: usize, id_gen: usize) -> bool {
    &&& ids_unique(bodies)
    &&& ids_below(bodies, id_gen)
    &&& forall|i: int| 0 <= i < bodies.len() ==> #[trigger] parent_resolves(bodies, root, i)
    &&& forall|i: int| 0 <= i < bodies.len() ==> (#[trigger] bodies[i]).children.no_duplicates()
    &&& forall|i: int, j: int|
        0 <= i < bodies.len() && 0 <= j < bodies.len() ==> #[trigger] lists_child(bodies, i, j)
    &&& forall|i: int, w: int|
        0 <= i < bodies.len() && 0 <= w < bodies[i].children.len() ==> #[trigger] child_is_body(
            bodies,
            i,
            w,
        )
    &&& bodies.len() > 0 ==> has_id(bodies, root)
}

/// `bodies` after a new body has been taken in under the id `id`: it stands
/// at the end, and its parent, if it names one, lists it as its last child.
pub open spec fn with_body<R>(bodies: Seq<BodyView<R>>, body: BodyView<R>, id: usize) -> Seq<
    BodyView<R>,
> {
    let linked = match body.parent {
        Some(p) => {
            let k = position_of(bodies, p);
            bodies.update(k, bodies[k].with_child(id))
        },
        None => bodies,
    };
    linked.push(body.enrolled(id))
}

/// Where ids are unique, a body's position is the position of its id.
pub proof fn lemma_position_of<R>(bodies: Seq<BodyView<R>>, k: int)
    requires
        ids_unique(bodies),
        0 <= k < bodies.len(),
    ensures
        has_id(bodies, bodies[k].id),
        position_of(bodies, bodies[k].id) == k,
{
    let id = bodies[k].id;
    let found = position_of(bodies, id);
    assert(0 <= found < bodies.len() && bodies[found].id == id);
    if found < k {
        assert(bodies[found].id != bodies[k].id);
    } else if k < found {
        assert(bodies[k].id != bodies[found].id);
    }
}

/// `after` is `bodies` with one more body `node` at the end, which the body
/// at `k` lists as its last child.
spec fn grown<R>(
    bodies: Seq<BodyView<R>>,
    k: int,
    node: BodyView<R>,
    after: Seq<BodyView<R>>,
) -> bool {
    &&& 0 <= k < bodies.len()
    &&& node.parent == Some(bodies[k].id)
    &&& node.children == Seq::<usize>::empty()
    &&& after.len() == bodies.len() + 1
    &&& after[bodies.len() as int] == node
    &&& forall|i: int|
        0 <= i < bodies.len() ==> (#[trigger] after[i]).id == bodies[i].id && after[i].parent
            == bodies[i].parent && after[i].children == (if i == k {
            bodies[i].children.push(node.id)
        } else {
            bodies[i].children
        })
}

proof fn lemma_grown_ids<R>(
    bodies: Seq<BodyView<R>>,
    root: usize,
    k: int,
    node: BodyView<R>,
    after: Seq<BodyView<R>>,
)
    requires
        consistent(bodies, root, node.id),
        node.id < usize::MAX,
        grown(bodies, k, node, after),
    ensures
        ids_unique(after),
        ids_below(after, (node.id + 1) as usize),
        has_id(after, root),
{
    let n = bodies.len() as int;
    assert forall|i: int, j: int| 0 <= i < j < after.len() implies (#[trigger] after[i]).id != (
    #[trigger] after[j]).id by {
        assert(after[i].id == bodies[i].id);
        if j < n {
            assert(after[j].id == bodies[j].id);
        }
    }
    assert forall|i: int| 0 <= i < after.len() implies (#[trigger] after[i]).id < node.id + 1 by {
        if i < n {
            assert(after[i].id == bodies[i].id);
        }
    }
    let r = position_of(bodies, root);
    assert(0 <= r < n && bodies[r].id == root);
    assert(after[r].id == root);
}

proof fn lemma_grown_parents<R>(
    bodies: Seq<BodyView<R>>,
    root: usize,
    k: int,
    node: BodyView<R>,
    after: Seq<BodyView<R>>,
)
    requires
        consistent(bodies, root, node.id),
        grown(bodies, k, node, after),
    ensures
        forall|i: int| 0 <= i < after.len() ==> #[trigger] parent_resolves(after, root, i),
{
    let n = bodies.len() as int;
    assert forall|i: int| 0 <= i < after.len() implies #[trigger] parent_resolves(
        after,
        root,
        i,
    ) by {
        if i < n {
            assert(parent_resolves(bodies, root, i));
            assert(after[i].id == bodies[i].id && after[i].parent == bodies[i].parent);
            match bodies[i].parent {
                Some(q) => {
                    let w = position_of(bodies, q);
                    assert(0 <= w < n && bodies[w].id == q);
                    assert(after[w].id == q);
                },
                None => {},
            }
        } else {
            assert(after[k].id == bodies[k].id);
            assert(bodies[k].id < node.id);
            let r = position_of(bodies, root);
            assert(0 <= r < n && bodies[r].id == root);
            assert(bodies[r].id < node.id);
        }
    }
}

proof fn lemma_grown_no_duplicates<R>(
    bodies: Seq<BodyView<R>>,
    root: usize,
    k: int,
    node: BodyView<R>,
    after: Seq<BodyView<R>>,
)
    requires
        consistent(bodies, root, node.id),
        grown(bodies, k, node, after),
    ensures
        forall|i: int| 0 <= i < after.len() ==> (#[trigger] after[i]).children.no_duplicates(),
{
    let n = bodies.len() as int;
    let listed = bodies[k].children;
    assert forall|w: int| 0 <= w < listed.len() implies listed[w] != node.id by {
        assert(child_is_body(bodies, k, w));
        let j = choose|j: int|
            0 <= j < bodies.len() && (#[trigger] bodies[j]).id == listed[w] && bodies[j].parent
                == Some(bodies[k].id);
        assert(bodies[j].id < node.id);
    }
    assert forall|i: int|
        0 <= i < after.len() implies (#[trigger] after[i]).children.no_duplicates() by {
        if i == k {
            let longer = after[k].children;
            assert(longer == listed.push(node.id));
            assert(listed.no_duplicates());
            assert forall|a: int, b: int|
                0 <= a < longer.len() && 0 <= b < longer.len() && a != b implies longer[a]
                != longer[b] by {
                if a < listed.len() && b < listed.len() {
                    assert(listed[a] != listed[b]);
                }
            }
        } else if i < n {
            assert(after[i].children == bodies[i].children);
            assert(bodies[i].children.no_duplicates());
        } else {
            assert(after[i].children == Seq::<usize>::empty());
        }
    }
}

proof fn lemma_grown_lists_children<R>(
    bodies: Seq<BodyView<R>>,
    root: usize,
    k: int,
    node: BodyView<R>,
    after: Seq<BodyView<R>>,
)
    requires
        consistent(bodies, root, node.id),
        grown(bodies, k, node, after),
    ensures
        forall|i: int, j: int|
            0 <= i < after.len() && 0 <= j < after.len() ==> #[trigger] lists_child(after, i, j),
{
    let n = bodies.len() as int;
    assert forall|i: int, j: int|
        0 <= i < after.len() && 0 <= j < after.len() implies #[trigger] lists_child(
        after,
        i,
        j,
    ) by {
        if after[j].parent == Some(after[i].id) {
            if j < n {
                assert(after[j].id == bodies[j].id && after[j].parent == bodies[j].parent);
                if i < n {
                    assert(after[i].id == bodies[i].id);
                    assert(lists_child(bodies, i, j));
                    let w = choose|w: int|
                        0 <= w < bodies[i].children.len() && bodies[i].children[w] == bodies[j].id;
                    assert(after[i].children[w] == bodies[j].id);
                } else {
                    assert(parent_resolves(bodies, root, j));
                }
            } else {
                if i < n {
                    assert(after[i].id == bodies[i].id);
                    lemma_position_of(bodies, i);
                    lemma_position_of(bodies, k);
                    assert(i == k);
                    assert(after[k].children == bodies[k].children.push(node.id));
                    assert(after[k].children[bodies[k].children.len() as int] == node.id);
                } else {
                    assert(bodies[k].id < node.id);
                }
            }
        }
    }
}

proof fn lemma_grown_children_listed<R>(
    bodies: Seq<BodyView<R>>,
    root: usize,
    k: int,
    node: BodyView<R>,
    after: Seq<BodyView<R>>,
)
    requires
        consistent(bodies, root, node.id),
        grown(bodies, k, node, after),
    ensures
        forall|i: int, w: int|
            0 <= i < after.len() && 0 <= w < after[i].children.len() ==> #[trigger] child_is_body(
                after,
                i,
                w,
            ),
{
    let n = bodies.len() as int;
    assert forall|i: int, w: int|
        0 <= i < after.len() && 0 <= w < after[i].children.len() implies #[trigger] child_is_body(
        after,
        i,
        w,
    ) by {
        if i < n {
            assert(after[i].id == bodies[i].id);
            if i == k && w == bodies[k].children.len() {
                assert(after[i].children[w] == node.id);
                assert(after[n].id == node.id && after[n].parent == Some(after[i].id));
            } else {
                assert(after[i].children[w] == bodies[i].children[w]);
                assert(child_is_body(bodies, i, w));
                let c = bodies[i].children[w];
                let j = choose|j: int|
                    0 <= j < bodies.len() && (#[trigger] bodies[j]).id == c && bodies[j].parent
                        == Some(bodies[i].id);
                assert(after[j].id == c && after[j].parent == Some(after[i].id));
            }
        } else {
            assert(after[i].children == Seq::<usize>::empty());
        }
    }
}

/// Taking a body in keeps the hierarchy consistent.
pub proof fn lemma_with_body_consistent<R>(
    bodies: Seq<BodyView<R>>,
    root: usize,
    id_gen: usize,
    body: BodyView<R>,
)
    requires
        consistent(bodies, root, id_gen),
        id_gen < usize::MAX,
        match body.parent {
            Some(p) => has_id(bodies, p),
            None => bodies.len() == 0,
        },
    ensures
        consistent(
            with_body(bodies, body, id_gen),
            if body.parent is None {
                id_gen
            } else {
                root
            },
            (id_gen + 1) as usize,
        ),
{
    let after = with_body(bodies, body, id_gen);
    let node = body.enrolled(id_gen);
    match body.parent {
        Some(p) => {
            let k = position_of(bodies, p);
            assert(0 <= k < bodies.len() && bodies[k].id == p);
            assert(grown(bodies, k, node, after));
            lemma_grown_ids(bodies, root, k, node, after);
            lemma_grown_parents(bodies, root, k, node, after);
            lemma_grown_no_duplicates(bodies, root, k, node, after);
            lemma_grown_lists_children(bodies, root, k, node, after);
            lemma_grown_children_listed(bodies, root, k, node, after);
        },
        None => {
            assert(after =~= seq![node]);
            assert(after[0] == node);
            assert(parent_resolves(after, id_gen, 0));
            assert(lists_child(after, 0, 0));
        },
    }
}

/// The body at `i` has no parent, or names one that is there and is not
/// itself.
pub open spec fn parent_present<R>(bodies: Seq<BodyView<R>>, i: int) -> bool {
    match bodies[i].parent {
        None => true,
        Some(p) => p != bodies[i].id && has_id(bodies, p),
    }
}

/// Every body that names a parent names one that is there and is not itself.
pub open spec fn parents_present<R>(bodies: Seq<BodyView<R>>) -> bool {
    forall|i: int| 0 <= i < bodies.len() ==> #[trigger] parent_present(bodies, i)
}

/// Whether `post` holds the bodies of `pre` in the same places, none of them
/// changed but in its motion and its five derived elements.
pub open spec fn kept<R>(pre: Seq<BodyView<R>>, post: Seq<BodyView<R>>) -> bool {
    &&& post.len() == pre.len()
    &&& forall|i: int|
        #![trigger pre[i]]
        #![trigger post[i]]
        0 <= i < pre.len() ==> pre[i].kept_in(post[i])
}

/// Bodies that are kept keep their ids and their parents.
pub proof fn lemma_kept_links<R>(pre: Seq<BodyView<R>>, post: Seq<BodyView<R>>)
    requires
        kept(pre, post),
    ensures
        post.len() == pre.len(),
        forall|i: int| 0 <= i < pre.len() ==> (#[trigger] post[i]).same_node(pre[i]),
        forall|id: usize| has_id(pre, id) <==> has_id(post, id),
        ids_unique(pre) ==> ids_unique(post),
        parents_present(pre) ==> parents_present(post),
{
    assert forall|i: int| 0 <= i < pre.len() implies (#[trigger] post[i]).same_node(pre[i]) by {
        assert(pre[i].kept_in(post[i]));
    }
    assert forall|id: usize| has_id(pre, id) <==> has_id(post, id) by {
        if has_id(pre, id) {
            let k = position_of(pre, id);
            assert(post[k].same_node(pre[k]));
        }
        if has_id(post, id) {
            let k = position_of(post, id);
            assert(post[k].same_node(pre[k]));
            assert(pre[k].id == id);
        }
    }
    if ids_unique(pre) {
        assert forall|i: int, j: int| 0 <= i < j < post.len() implies (#[trigger] post[i]).id != (
        #[trigger] post[j]).id by {
            assert(post[i].same_node(pre[i]));
            assert(post[j].same_node(pre[j]));
        }
    }
    if parents_present(pre) {
        assert forall|i: int| 0 <= i < post.len() implies #[trigger] parent_present(post, i) by {
            assert(parent_present(pre, i));
            assert(post[i].same_node(pre[i]));
        }
    }
}

/// A consistent hierarchy has every parent present.
pub proof fn lemma_consistent_parents_present<R>(
    bodies: Seq<BodyView<R>>,
    root: usize,
    id_gen: usize,
)
    requires
        consistent(bodies, root, id_gen),
    ensures
        ids_unique(bodies),
        parents_present(bodies),
{
    assert forall|i: int| 0 <= i < bodies.len() implies #[trigger] parent_present(bodies, i) by {
        assert(parent_resolves(bodies, root, i));
    }
}

/// Bodies that are kept stay consistent.
pub proof fn lemma_kept_consistent<R>(
    pre: Seq<BodyView<R>>,
    post: Seq<BodyView<R>>,
    root: usize,
    id_gen: usize,
)
    requires
        consistent(pre, root, id_gen),
        kept(pre, post),
    ensures
        consistent(post, root, id_gen),
{
    lemma_kept_links(pre, post);
    assert forall|i: int| 0 <= i < post.len() implies (#[trigger] post[i]).id < id_gen by {
        assert(post[i].same_node(pre[i]));
    }
    assert(ids_below(post, id_gen));
    assert forall|i: int| 0 <= i < post.len() implies #[trigger] parent_resolves(post, root, i) by {
        assert(parent_resolves(pre, root, i));
        assert(post[i].same_node(pre[i]));
    }
    assert forall|i: int|
        0 <= i < post.len() implies (#[trigger] post[i]).children.no_duplicates() by {
        assert(post[i].same_node(pre[i]));
        assert(pre[i].children.no_duplicates());
    }
    assert forall|i: int, j: int|
        0 <= i < post.len() && 0 <= j < post.len() implies #[trigger] lists_child(
        post,
        i,
        j,
    ) by {
        assert(lists_child(pre, i, j));
        assert(post[i].same_node(pre[i]));
        assert(post[j].same_node(pre[j]));
    }
    assert forall|i: int, w: int|
        0 <= i < post.len() && 0 <= w < post[i].children.len() implies #[trigger] child_is_body(
        post,
        i,
        w,
    ) by {
        assert(post[i].same_node(pre[i]));
        assert(child_is_body(pre, i, w));
        let c = pre[i].children[w];
        let j = choose|j: int|
            0 <= j < pre.len() && (#[trigger] pre[j]).id == c && pre[j].parent == Some(pre[i].id);
        assert(post[j].same_node(pre[j]));
    }
}

/// Keeping is transitive.
pub proof fn lemma_kept_trans<R>(
    first: Seq<BodyView<R>>,
    second: Seq<BodyView<R>>,
    third: Seq<BodyView<R>>,
)
    requires
        kept(first, second),
        kept(second, third),
    ensures
        kept(first, third),
{
    assert forall|i: int| 0 <= i < first.len() implies (#[trigger] first[i]).kept_in(third[i]) by {
        assert(first[i].kept_in(second[i]));
        assert(second[i].kept_in(third[i]));
    }
}

} // verus!
