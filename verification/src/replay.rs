//! Replaying a batch on what it left: requests that keep out of each
//! other's way change nothing the second time.

use crate::laws::{
    by_name, lemma_appended_is_first, lemma_delete_spares_the_rest, lemma_delete_takes_all,
    lemma_replaced_stays_first, lemma_request_is_idempotent, lemma_settled_batch,
};
use crate::patch::{
    lemma_failure_is_final, patched, patched_all, patched_at, put_child, settled, without_child,
    Failure, Fault, Request,
};
use crate::tree::{
    first_match, has_child, is_first_match, lemma_first_match_exists, lemma_first_match_is, Node,
};
use vstd::prelude::*;

verus! {

/// The two addresses part ways: at some place both have a segment, and the
/// segments differ. Neither then leads through the node the other names.
pub open spec fn apart(p: Seq<Seq<char>>, q: Seq<Seq<char>>) -> bool {
    exists|k: int| 0 <= k < p.len() && k < q.len() && #[trigger] p[k] != q[k]
}

/// No two requests of the batch have addresses of which one leads through
/// the other.
pub open spec fn independent(batch: Seq<Request>) -> bool {
    forall|i: int, j: int|
        0 <= i < j < batch.len() ==> apart((#[trigger] batch[i]).path, (#[trigger] batch[j]).path)
}

/// The first child called `name`, where there is one.
pub open spec fn first_child(children: Seq<Node>, name: Seq<char>) -> Option<Node> {
    if has_child(children, name) {
        Some(children[first_match(children, name)])
    } else {
        None
    }
}

/// Addresses that part ways behind a common first segment part ways without
/// it, and each has more than that segment.
proof fn lemma_apart_below(p: Seq<Seq<char>>, q: Seq<Seq<char>>)
    requires
        apart(p, q),
        p.first() == q.first(),
    ensures
        p.len() > 1,
        q.len() > 1,
        apart(p.drop_first(), q.drop_first()),
{
    let k = choose|k: int| 0 <= k < p.len() && k < q.len() && #[trigger] p[k] != q[k];
    assert(k > 0);
    assert(p.drop_first()[k - 1] != q.drop_first()[k - 1]);
}

/// The first child of a name, after one more child was put behind the rest.
proof fn lemma_first_child_push(children: Seq<Node>, last: Node, name: Seq<char>)
    ensures
        first_child(children.push(last), name) == if has_child(children, name) {
            first_child(children, name)
        } else if last.name == name {
            Some(last)
        } else {
            None
        },
{
    let all = children.push(last);
    if has_child(children, name) {
        let at = first_match(children, name);
        lemma_first_match_exists(children, name);
        assert forall|j: int| 0 <= j < at implies (#[trigger] all[j]).name != name by {
            assert(children[j].name != name);
        }
        assert(is_first_match(all, name, at));
        lemma_first_match_is(all, name, at);
    } else if last.name == name {
        lemma_appended_is_first(children, name, last);
    } else {
        if has_child(all, name) {
            let at = choose|i: int| 0 <= i < all.len() && (#[trigger] all[i]).name == name;
            assert(children[at].name == name);
        }
    }
}

/// A child that is replaced by one of its own name does not change which
/// child is the first of another name.
proof fn lemma_first_child_beside_update(
    children: Seq<Node>,
    at: int,
    by: Node,
    name: Seq<char>,
)
    requires
        0 <= at < children.len(),
        children[at].name == by.name,
        by.name != name,
    ensures
        first_child(children.update(at, by), name) == first_child(children, name),
{
    let after = children.update(at, by);
    if has_child(children, name) {
        let k = first_match(children, name);
        lemma_first_match_exists(children, name);
        assert forall|j: int| 0 <= j < k implies (#[trigger] after[j]).name != name by {
            assert(children[j].name != name);
        }
        assert(is_first_match(after, name, k));
        lemma_first_match_is(after, name, k);
    } else {
        if has_child(after, name) {
            let k = choose|i: int| 0 <= i < after.len() && (#[trigger] after[i]).name == name;
            assert(children[k].name == name);
        }
    }
}

/// A delete does not change which child is the first of another name.
proof fn lemma_first_child_beside_delete(children: Seq<Node>, gone: Seq<char>, name: Seq<char>)
    requires
        gone != name,
    ensures
        first_child(without_child(children, gone), name) == first_child(children, name),
    decreases children.len(),
{
    let stays = |c: Node| c.name != gone;
    reveal(Seq::filter);
    if children.len() > 0 {
        let init = children.drop_last();
        let last = children.last();
        assert(init.push(last) =~= children);
        lemma_first_child_beside_delete(init, gone, name);
        lemma_first_child_push(init, last, name);
        if stays(last) {
            lemma_first_child_push(init.filter(stays), last, name);
        }
        assert(has_child(init.filter(stays), name) == has_child(init, name));
    } else {
        assert(children.filter(stays) =~= children);
    }
}

/// A request that is put by name, or deletes, does not change which child is
/// the first of another name.
proof fn lemma_first_child_beside_request(
    children: Seq<Node>,
    other: Seq<char>,
    value: Option<Node>,
    keep: bool,
    name: Seq<char>,
)
    requires
        other != name,
        value matches Some(v) ==> v.name == other,
    ensures
        first_child(settled(children, other, value, keep), name) == first_child(children, name),
{
    match value {
        Some(v) => {
            if has_child(children, other) {
                let at = first_match(children, other);
                lemma_first_match_exists(children, other);
                lemma_first_child_beside_update(
                    children,
                    at,
                    put_child(children, other, v, keep)[at],
                    name,
                );
            } else {
                lemma_first_child_push(children, v, name);
            }
        },
        None => {
            lemma_first_child_beside_delete(children, other, name);
        },
    }
}

/// What a request asks of the children it reaches, once it has nothing left
/// to do there: a put finds its value as the first child of the name, a
/// delete finds no child of the name.
pub open spec fn at_rest(children: Seq<Node>, name: Seq<char>, value: Option<Node>, keep: bool)
    -> bool {
    match value {
        Some(v) => first_child(children, name) matches Some(found) && found == if keep {
            Node { children: found.children, ..v }
        } else {
            v
        },
        None => first_child(children, name) is None,
    }
}

/// A request leaves children as they are exactly when it is at rest there.
proof fn lemma_at_rest(children: Seq<Node>, name: Seq<char>, value: Option<Node>, keep: bool)
    ensures
        at_rest(children, name, value, keep) <==> settled(children, name, value, keep) == children,
{
    match value {
        Some(v) => {
            if has_child(children, name) {
                let at = first_match(children, name);
                lemma_first_match_exists(children, name);
                let after = put_child(children, name, v, keep);
                if after == children {
                    assert(after[at] == children[at]);
                }
                if at_rest(children, name, value, keep) {
                    assert(after =~= children);
                }
            } else {
                assert(put_child(children, name, v, keep).len() == children.len() + 1);
            }
        },
        None => {
            lemma_delete_takes_all(children, name);
            if !has_child(children, name) {
                lemma_delete_spares_the_rest(children, name);
            }
        },
    }
}

/// A request that has nothing left to do in a tree still has nothing to do
/// there after another request, whose address parts ways with its own, went
/// through.
pub proof fn lemma_rest_outlasts_the_other(
    tree: Node,
    path: Seq<Seq<char>>,
    value: Option<Node>,
    keep: bool,
    other_path: Seq<Seq<char>>,
    other_value: Option<Node>,
    other_keep: bool,
)
    requires
        apart(path, other_path),
        value matches Some(v) ==> v.name == path.last(),
        other_value matches Some(v) ==> v.name == other_path.last(),
        patched_at(tree, path, value, keep) == Ok::<Node, Fault>(tree),
        patched_at(tree, other_path, other_value, other_keep) is Ok,
    ensures
        patched_at(
            patched_at(tree, other_path, other_value, other_keep)->Ok_0,
            path,
            value,
            keep,
        ) == Ok::<Node, Fault>(patched_at(tree, other_path, other_value, other_keep)->Ok_0),
    decreases path.len(),
{
    let after = patched_at(tree, other_path, other_value, other_keep)->Ok_0;
    let a = path.first();
    let b = other_path.first();
    let kids = tree.children;
    if a == b {
        lemma_apart_below(path, other_path);
        let at = first_match(kids, a);
        lemma_first_match_exists(kids, a);
        let child = kids[at];
        let same = patched_at(child, path.drop_first(), value, keep)->Ok_0;
        assert(kids.update(at, same)[at] == kids[at]);
        let next = patched_at(child, other_path.drop_first(), other_value, other_keep)->Ok_0;
        assert(path.drop_first().last() == path.last());
        assert(other_path.drop_first().last() == other_path.last());
        lemma_rest_outlasts_the_other(
            child,
            path.drop_first(),
            value,
            keep,
            other_path.drop_first(),
            other_value,
            other_keep,
        );
        lemma_replaced_stays_first(kids, a, at, next);
        assert(after.children.update(at, next) =~= after.children);
    } else {
        if other_path.len() <= 1 {
            assert(other_path.last() == b);
            lemma_first_child_beside_request(kids, b, other_value, other_keep, a);
        } else {
            let at = first_match(kids, b);
            lemma_first_match_exists(kids, b);
            let next = patched_at(
                kids[at],
                other_path.drop_first(),
                other_value,
                other_keep,
            )->Ok_0;
            lemma_first_child_beside_update(kids, at, next, a);
        }
        assert(first_child(after.children, a) == first_child(kids, a));
        if path.len() <= 1 {
            assert(path.last() == a);
            lemma_at_rest(kids, a, value, keep);
            lemma_at_rest(after.children, a, value, keep);
        } else {
            let at = first_match(kids, a);
            lemma_first_match_exists(kids, a);
            let same = patched_at(kids[at], path.drop_first(), value, keep)->Ok_0;
            assert(kids.update(at, same)[at] == kids[at]);
            let now = first_match(after.children, a);
            lemma_first_match_exists(after.children, a);
            assert(after.children.update(now, same) =~= after.children);
        }
    }
}

/// What the first requests of a batch that went through have left.
pub open spec fn after_first(root: Node, batch: Seq<Request>, done: int) -> Node {
    patched_all(root, batch.take(done))->Ok_0
}

/// Of a batch that went through, every beginning went through.
proof fn lemma_beginnings_go_through(root: Node, batch: Seq<Request>, done: int)
    requires
        patched_all(root, batch) is Ok,
        0 <= done <= batch.len(),
    ensures
        patched_all(root, batch.take(done)) is Ok,
        done < batch.len() ==> patched(after_first(root, batch, done), batch[done])
            == Ok::<Node, Fault>(after_first(root, batch, done + 1)),
{
    if patched_all(root, batch.take(done)) is Err {
        lemma_failure_is_final(root, batch, done);
    }
    if done < batch.len() {
        assert(batch.take(done + 1).drop_last() =~= batch.take(done));
        if patched_all(root, batch.take(done + 1)) is Err {
            lemma_failure_is_final(root, batch, done + 1);
        }
    }
}

/// In a batch of independent requests by name that went through, a request
/// has nothing left to do in what any later beginning of the batch has left.
proof fn lemma_request_stays_at_rest(root: Node, batch: Seq<Request>, at: int, done: int)
    requires
        forall|i: int| 0 <= i < batch.len() ==> by_name(#[trigger] batch[i]),
        independent(batch),
        patched_all(root, batch) is Ok,
        0 <= at < done <= batch.len(),
    ensures
        patched(after_first(root, batch, done), batch[at]) == Ok::<Node, Fault>(
            after_first(root, batch, done),
        ),
    decreases done,
{
    lemma_beginnings_go_through(root, batch, done - 1);
    let before = after_first(root, batch, done - 1);
    if done == at + 1 {
        lemma_request_is_idempotent(before, batch[at]);
    } else {
        lemma_request_stays_at_rest(root, batch, at, done - 1);
        let request = batch[at];
        let other = batch[done - 1];
        assert(apart(request.path, other.path));
        lemma_rest_outlasts_the_other(
            before,
            request.path,
            request.value,
            request.no_overwrite_children,
            other.path,
            other.value,
            other.no_overwrite_children,
        );
    }
}

/// A batch of independent requests by name, replayed on what it left, leaves
/// it as it is.
pub proof fn lemma_replay_changes_nothing(root: Node, batch: Seq<Request>)
    requires
        forall|i: int| 0 <= i < batch.len() ==> by_name(#[trigger] batch[i]),
        independent(batch),
        patched_all(root, batch) is Ok,
    ensures
        patched_all(patched_all(root, batch)->Ok_0, batch) == patched_all(root, batch),
{
    let left = patched_all(root, batch)->Ok_0;
    assert(batch.take(batch.len() as int) =~= batch);
    assert forall|i: int| 0 <= i < batch.len() implies patched(left, #[trigger] batch[i]) == Ok::<
        Node,
        Fault,
    >(left) by {
        lemma_request_stays_at_rest(root, batch, i, batch.len() as int);
    }
    lemma_settled_batch(left, batch);
}

} // verus!
