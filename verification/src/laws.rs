//! What holds of requests whatever the tree: where a request works, what it
//! leaves there, and what a second application does.

use crate::patch::{
    patched, patched_all, patched_at, put_child, settled, without_child, Failure, Fault, Request,
};
use crate::tree::{
    first_match, has_child, is_first_match, lemma_first_match_exists, lemma_first_match_is, Node,
};
use vstd::prelude::*;

verus! {

/// The node that `path` leads to from `root`, each segment taken to the first
/// child of that name; nothing where a segment names no child.
pub open spec fn node_at(root: Node, path: Seq<Seq<char>>) -> Option<Node>
    decreases path.len(),
{
    if path.len() == 0 {
        Some(root)
    } else if has_child(root.children, path.first()) {
        node_at(root.children[first_match(root.children, path.first())], path.drop_first())
    } else {
        None
    }
}

/// A request that asks for `value` to be put under the name it carries.
pub open spec fn by_name(request: Request) -> bool {
    request.value matches Some(v) ==> request.path.len() > 0 ==> v.name == request.path.last()
}

/// A child that is replaced by one of its own name is still the first of that
/// name.
pub proof fn lemma_replaced_stays_first(children: Seq<Node>, name: Seq<char>, at: int, by: Node)
    requires
        is_first_match(children, name, at),
        by.name == name,
    ensures
        has_child(children.update(at, by), name),
        first_match(children.update(at, by), name) == at,
{
    let after = children.update(at, by);
    assert forall|j: int| 0 <= j < at implies (#[trigger] after[j]).name != name by {
        assert(children[j].name != name);
    }
    assert(is_first_match(after, name, at));
    lemma_first_match_is(after, name, at);
}

/// A child put behind children of other names is the first of its name.
pub proof fn lemma_appended_is_first(children: Seq<Node>, name: Seq<char>, by: Node)
    requires
        !has_child(children, name),
        by.name == name,
    ensures
        has_child(children.push(by), name),
        first_match(children.push(by), name) == children.len(),
{
    let after = children.push(by);
    assert forall|j: int| 0 <= j < children.len() implies (#[trigger] after[j]).name != name by {
        assert(children[j].name != name);
    }
    assert(is_first_match(after, name, children.len() as int));
    lemma_first_match_is(after, name, children.len() as int);
}

/// A put that finds a child of the name changes that child and no other: the
/// first of the name is replaced where it stands, by the value as it was
/// given or, if the child hands its children on, by the value with those.
pub proof fn lemma_put_replaces_the_first_only(
    children: Seq<Node>,
    name: Seq<char>,
    value: Node,
    keep: bool,
)
    requires
        has_child(children, name),
    ensures
        put_child(children, name, value, keep).len() == children.len(),
        forall|j: int|
            0 <= j < children.len() && j != first_match(children, name) ==> (#[trigger] put_child(
                children,
                name,
                value,
                keep,
            )[j]) == children[j],
        keep ==> put_child(children, name, value, keep)[first_match(children, name)] == (Node {
            children: children[first_match(children, name)].children,
            ..value
        }),
        !keep ==> put_child(children, name, value, keep)[first_match(children, name)] == value,
{
    lemma_first_match_exists(children, name);
}

/// A put that finds no child of the name leaves every child as it was and
/// sets the value behind them, as it was given.
pub proof fn lemma_put_appends_the_new(
    children: Seq<Node>,
    name: Seq<char>,
    value: Node,
    keep: bool,
)
    requires
        !has_child(children, name),
    ensures
        put_child(children, name, value, keep) == children.push(value),
{
}

/// A tree that each request of a batch leaves as it is, is left as it is by
/// the batch.
pub proof fn lemma_settled_batch(root: Node, batch: Seq<Request>)
    requires
        forall|i: int|
            0 <= i < batch.len() ==> patched(root, #[trigger] batch[i]) == Ok::<Node, Fault>(
                root,
            ),
    ensures
        patched_all(root, batch) == Ok::<Node, Failure>(root),
    decreases batch.len(),
{
    if batch.len() > 0 {
        lemma_settled_batch(root, batch.drop_last());
    }
}

/// What a filter has let through it lets through again, all of it.
pub proof fn lemma_filter_settles<A>(items: Seq<A>, keep: spec_fn(A) -> bool)
    requires
        forall|i: int| 0 <= i < items.len() ==> keep(#[trigger] items[i]),
    ensures
        items.filter(keep) == items,
    decreases items.len(),
{
    reveal(Seq::filter);
    if items.len() > 0 {
        lemma_filter_settles(items.drop_last(), keep);
        assert(items.drop_last().push(items.last()) =~= items);
    }
}

/// After a delete no child has the name, and a second delete finds nothing
/// to do.
pub proof fn lemma_delete_takes_all(children: Seq<Node>, name: Seq<char>)
    ensures
        !has_child(without_child(children, name), name),
        without_child(without_child(children, name), name) == without_child(children, name),
{
    let stays = |c: Node| c.name != name;
    let left = children.filter(stays);
    assert forall|i: int| 0 <= i < left.len() implies stays(#[trigger] left[i]) by {
        children.lemma_filter_pred(stays, i);
    }
    lemma_filter_settles(left, stays);
}

/// A delete leaves alone what has another name.
pub proof fn lemma_delete_spares_the_rest(children: Seq<Node>, name: Seq<char>)
    requires
        !has_child(children, name),
    ensures
        without_child(children, name) == children,
{
    lemma_filter_settles(children, |c: Node| c.name != name);
}

/// A request changes the children of the node its address leads to, and of
/// that node nothing else: it succeeds exactly when every segment before the
/// last names a child.
pub proof fn lemma_patch_changes_the_parent(
    root: Node,
    path: Seq<Seq<char>>,
    value: Option<Node>,
    keep: bool,
)
    requires
        path.len() > 0,
    ensures
        match node_at(root, path.drop_last()) {
            Some(parent) => {
                &&& patched_at(root, path, value, keep) is Ok
                &&& node_at(patched_at(root, path, value, keep)->Ok_0, path.drop_last()) == Some(
                    Node { children: settled(parent.children, path.last(), value, keep), ..parent },
                )
            },
            None => patched_at(root, path, value, keep) is Err,
        },
    decreases path.len(),
{
    if path.len() > 1 {
        let first = path.first();
        assert(path.drop_last().first() == first);
        assert(path.drop_last().drop_first() =~= path.drop_first().drop_last());
        assert(path.drop_first().last() == path.last());
        if has_child(root.children, first) {
            let at = first_match(root.children, first);
            lemma_first_match_exists(root.children, first);
            let child = root.children[at];
            lemma_patch_changes_the_parent(child, path.drop_first(), value, keep);
            if patched_at(child, path.drop_first(), value, keep) is Ok {
                let next = patched_at(child, path.drop_first(), value, keep)->Ok_0;
                lemma_replaced_stays_first(root.children, first, at, next);
            }
        }
    }
}

/// A request fails on the first segment before the last that names no child,
/// and says which segment that was and in which node it was looked for.
pub proof fn lemma_missing_segment(
    root: Node,
    path: Seq<Seq<char>>,
    value: Option<Node>,
    keep: bool,
    at: int,
)
    requires
        0 <= at < path.len() - 1,
        node_at(root, path.take(at)) is Some,
        !has_child(node_at(root, path.take(at))->0.children, path[at]),
    ensures
        patched_at(root, path, value, keep) == Err::<Node, Fault>(
            Fault::MissingSegment {
                segment: path[at],
                parent_class_name: node_at(root, path.take(at))->0.class_name,
                parent_name: node_at(root, path.take(at))->0.name,
            },
        ),
    decreases at,
{
    if at > 0 {
        let first = path.first();
        assert(path.take(at).first() == first);
        assert(path.take(at).drop_first() =~= path.drop_first().take(at - 1));
        let child = root.children[first_match(root.children, first)];
        lemma_missing_segment(child, path.drop_first(), value, keep, at - 1);
    }
}

/// The request that fails first decides how its batch ends.
pub proof fn lemma_batch_stops_at_failure(root: Node, batch: Seq<Request>, at: int, fault: Fault)
    requires
        0 <= at < batch.len(),
        patched_all(root, batch.take(at)) is Ok,
        patched(patched_all(root, batch.take(at))->Ok_0, batch[at]) == Err::<Node, Fault>(fault),
    ensures
        patched_all(root, batch) == Err::<Node, Failure>(Failure { index: at, fault }),
{
    assert(batch.take(at + 1).drop_last() =~= batch.take(at));
    crate::patch::lemma_failure_is_final(root, batch, at + 1);
}

/// A request applied to its own result changes nothing: neither a put by
/// name nor a delete does anything the second time.
pub proof fn lemma_request_is_idempotent(root: Node, request: Request)
    requires
        by_name(request),
        patched(root, request) is Ok,
    ensures
        patched(patched(root, request)->Ok_0, request) == patched(root, request),
{
    if request.path.len() > 0 {
        lemma_patch_at_is_idempotent(
            root,
            request.path,
            request.value,
            request.no_overwrite_children,
        );
    }
}

proof fn lemma_patch_at_is_idempotent(
    node: Node,
    path: Seq<Seq<char>>,
    value: Option<Node>,
    keep: bool,
)
    requires
        path.len() > 0,
        value matches Some(v) ==> v.name == path.last(),
        patched_at(node, path, value, keep) is Ok,
    ensures
        patched_at(patched_at(node, path, value, keep)->Ok_0, path, value, keep) == patched_at(
            node,
            path,
            value,
            keep,
        ),
    decreases path.len(),
{
    let once = patched_at(node, path, value, keep)->Ok_0;
    if path.len() == 1 {
        lemma_settled_is_idempotent(node.children, path.last(), value, keep);
    } else {
        let first = path.first();
        let at = first_match(node.children, first);
        lemma_first_match_exists(node.children, first);
        let child = node.children[at];
        assert(path.drop_first().last() == path.last());
        lemma_patch_at_is_idempotent(child, path.drop_first(), value, keep);
        let next = patched_at(child, path.drop_first(), value, keep)->Ok_0;
        lemma_replaced_stays_first(node.children, first, at, next);
        assert(once.children.update(at, next) =~= once.children);
    }
}

/// Children that a request has settled are settled: the same request leaves
/// them as they are.
pub proof fn lemma_settled_is_idempotent(
    children: Seq<Node>,
    name: Seq<char>,
    value: Option<Node>,
    keep: bool,
)
    requires
        value matches Some(v) ==> v.name == name,
    ensures
        settled(settled(children, name, value, keep), name, value, keep) == settled(
            children,
            name,
            value,
            keep,
        ),
{
    match value {
        Some(v) => {
            let once = put_child(children, name, v, keep);
            if has_child(children, name) {
                let at = first_match(children, name);
                lemma_first_match_exists(children, name);
                lemma_replaced_stays_first(children, name, at, once[at]);
                assert(once.update(at, once[at]) =~= once);
                assert(put_child(once, name, v, keep) =~= once);
            } else {
                lemma_appended_is_first(children, name, v);
                assert(put_child(once, name, v, keep) =~= once);
            }
        },
        None => {
            lemma_delete_takes_all(children, name);
        },
    }
}

/// The node at an address is the first child of that name under the node at
/// the address without its last segment.
pub proof fn lemma_node_at_step(root: Node, path: Seq<Seq<char>>)
    requires
        path.len() > 0,
    ensures
        node_at(root, path) == match node_at(root, path.drop_last()) {
            Some(parent) => if has_child(parent.children, path.last()) {
                Some(parent.children[first_match(parent.children, path.last())])
            } else {
                None
            },
            None => None,
        },
    decreases path.len(),
{
    if path.len() == 1 {
        assert(path.drop_first() =~= Seq::<Seq<char>>::empty());
        assert(path.drop_last() =~= Seq::<Seq<char>>::empty());
        if has_child(root.children, path.first()) {
            assert(node_at(
                root.children[first_match(root.children, path.first())],
                path.drop_first(),
            ) == Some(root.children[first_match(root.children, path.first())]));
        }
    } else {
        assert(path.drop_last().first() == path.first());
        assert(path.drop_last().drop_first() =~= path.drop_first().drop_last());
        assert(path.drop_first().last() == path.last());
        if has_child(root.children, path.first()) {
            lemma_node_at_step(
                root.children[first_match(root.children, path.first())],
                path.drop_first(),
            );
        }
    }
}

/// The request that puts `value` at `path`.
pub open spec fn put(path: Seq<Seq<char>>, value: Node, keep: bool) -> Request {
    Request { path, value: Some(value), no_overwrite_children: keep }
}

/// The request that deletes what is at `path`.
pub open spec fn delete(path: Seq<Seq<char>>) -> Request {
    Request { path, value: None, no_overwrite_children: false }
}

/// A batch of two requests is the second applied to what the first left.
pub proof fn lemma_batch_of_two(root: Node, first: Request, second: Request)
    ensures
        patched_all(root, seq![first, second]) == match patched(root, first) {
            Ok(tree) => match patched(tree, second) {
                Ok(next) => Ok::<Node, Failure>(next),
                Err(fault) => Err(Failure { index: 1, fault }),
            },
            Err(fault) => Err(Failure { index: 0, fault }),
        },
{
    let batch = seq![first, second];
    assert(batch.drop_last() =~= seq![first]);
    assert(seq![first].drop_last() =~= Seq::<Request>::empty());
    assert(batch.last() == second);
    assert(seq![first].last() == first);
    reveal_with_fuel(patched_all, 3);
}

/// After a delete that succeeded, the address leads nowhere: no sibling of
/// that name is left, and the siblings of other names stay as they were, in
/// their order.
pub proof fn lemma_delete_leaves_none(root: Node, path: Seq<Seq<char>>)
    requires
        path.len() > 0,
        patched(root, delete(path)) is Ok,
    ensures
        node_at(patched(root, delete(path))->Ok_0, path) is None,
        node_at(root, path.drop_last()) is Some,
        node_at(patched(root, delete(path))->Ok_0, path.drop_last()) == Some(
            Node {
                children: without_child(
                    node_at(root, path.drop_last())->0.children,
                    path.last(),
                ),
                ..node_at(root, path.drop_last())->0
            },
        ),
{
    lemma_patch_changes_the_parent(root, path, None, false);
    let parent = node_at(root, path.drop_last())->0;
    lemma_delete_takes_all(parent.children, path.last());
    lemma_node_at_step(patched(root, delete(path))->Ok_0, path);
}

/// After a put by name that succeeded, the address leads to the value. Where
/// a node was there before and was to hand on its children, the value has
/// those in place of its own; in every other case it stands as it was given.
/// The first sibling of that name is the only one replaced, and where there
/// was none the value comes last.
pub proof fn lemma_put_leaves_value(root: Node, path: Seq<Seq<char>>, value: Node, keep: bool)
    requires
        path.len() > 0,
        value.name == path.last(),
        patched(root, put(path, value, keep)) is Ok,
    ensures
        node_at(root, path.drop_last()) is Some,
        node_at(patched(root, put(path, value, keep))->Ok_0, path.drop_last()) == Some(
            Node {
                children: put_child(
                    node_at(root, path.drop_last())->0.children,
                    path.last(),
                    value,
                    keep,
                ),
                ..node_at(root, path.drop_last())->0
            },
        ),
        node_at(patched(root, put(path, value, keep))->Ok_0, path) == Some(
            match node_at(root, path) {
                Some(found) => if keep {
                    Node { children: found.children, ..value }
                } else {
                    value
                },
                None => value,
            },
        ),
{
    lemma_patch_changes_the_parent(root, path, Some(value), keep);
    let parent = node_at(root, path.drop_last())->0;
    let after = patched(root, put(path, value, keep))->Ok_0;
    lemma_node_at_step(root, path);
    lemma_node_at_step(after, path);
    if has_child(parent.children, path.last()) {
        let at = first_match(parent.children, path.last());
        lemma_first_match_exists(parent.children, path.last());
        lemma_replaced_stays_first(
            parent.children,
            path.last(),
            at,
            put_child(parent.children, path.last(), value, keep)[at],
        );
    } else {
        lemma_appended_is_first(parent.children, path.last(), value);
    }
}

/// Put, then delete: nothing of that name is left at the address.
pub proof fn lemma_put_then_delete(root: Node, path: Seq<Seq<char>>, value: Node, keep: bool)
    requires
        path.len() > 0,
        patched_all(root, seq![put(path, value, keep), delete(path)]) is Ok,
    ensures
        node_at(
            patched_all(root, seq![put(path, value, keep), delete(path)])->Ok_0,
            path,
        ) is None,
{
    lemma_batch_of_two(root, put(path, value, keep), delete(path));
    lemma_delete_leaves_none(patched(root, put(path, value, keep))->Ok_0, path);
}

/// Delete, then put by name: the address leads to the value as it was given,
/// and the value is the only sibling of its name.
pub proof fn lemma_delete_then_put(root: Node, path: Seq<Seq<char>>, value: Node, keep: bool)
    requires
        path.len() > 0,
        value.name == path.last(),
        patched_all(root, seq![delete(path), put(path, value, keep)]) is Ok,
    ensures
        node_at(
            patched_all(root, seq![delete(path), put(path, value, keep)])->Ok_0,
            path,
        ) == Some(value),
        node_at(
            patched_all(root, seq![delete(path), put(path, value, keep)])->Ok_0,
            path.drop_last(),
        ) is Some,
        node_at(
            patched_all(root, seq![delete(path), put(path, value, keep)])->Ok_0,
            path.drop_last(),
        )->0.children.filter(|c: Node| c.name == path.last()) == seq![value],
{
    lemma_batch_of_two(root, delete(path), put(path, value, keep));
    let mid = patched(root, delete(path))->Ok_0;
    let end = patched(mid, put(path, value, keep))->Ok_0;
    lemma_delete_leaves_none(root, path);
    lemma_put_leaves_value(mid, path, value, keep);
    let left = node_at(mid, path.drop_last())->0.children;
    lemma_node_at_step(mid, path);
    assert(!has_child(left, path.last()));
    let named = |c: Node| c.name == path.last();
    lemma_filter_none(left, named);
    left.lemma_filter_push(value, named);
    assert(left.filter(named).push(value) =~= seq![value]);
}

/// A filter that nothing passes leaves nothing.
pub proof fn lemma_filter_none<A>(items: Seq<A>, keep: spec_fn(A) -> bool)
    requires
        forall|i: int| 0 <= i < items.len() ==> !keep(#[trigger] items[i]),
    ensures
        items.filter(keep) == Seq::<A>::empty(),
    decreases items.len(),
{
    reveal(Seq::filter);
    if items.len() > 0 {
        lemma_filter_none(items.drop_last(), keep);
    }
}

} // verus!
