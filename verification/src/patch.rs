//! Requests against the tree and the engine that applies them, one by one
//! or as a batch.

use crate::text::{decimal, push_decimal};
use crate::tree::{
    clone_texts, first_match, has_child, lemma_first_match_exists, lemma_first_match_is,
    nodes_of, texts_of, Node, SourcemapInstance,
};
use vstd::prelude::*;
use vstd::string::StringExecFns;

verus! {

/// The children of a node after `value` was put under `name`: in the place of
/// the first child of that name, which may hand its own children on to it, or
/// behind the last child where no child has that name.
pub open spec fn put_child(children: Seq<Node>, name: Seq<char>, value: Node, keep: bool) -> Seq<
    Node,
> {
    if has_child(children, name) {
        let at = first_match(children, name);
        children.update(
            at,
            if keep {
                Node { children: children[at].children, ..value }
            } else {
                value
            },
        )
    } else {
        children.push(value)
    }
}

/// The children of a node after every child called `name` left.
pub open spec fn without_child(children: Seq<Node>, name: Seq<char>) -> Seq<Node> {
    children.filter(|c: Node| c.name != name)
}

/// The children of a node after a request whose last segment is `name`
/// reached it: `value` is put under that name, or, without a value, every
/// child of that name leaves.
pub open spec fn settled(children: Seq<Node>, name: Seq<char>, value: Option<Node>, keep: bool)
    -> Seq<Node> {
    match value {
        Some(v) => put_child(children, name, v, keep),
        None => without_child(children, name),
    }
}

/// Why a request could not be applied.
pub enum Fault {
    /// The address is empty and no value came with it: the whole tree cannot
    /// be deleted.
    EmptyAddress,
    /// A segment before the last names no child of the node reached so far.
    MissingSegment { segment: Seq<char>, parent_class_name: Seq<char>, parent_name: Seq<char> },
}

/// The first request of a batch that failed, and why.
pub struct Failure {
    pub index: int,
    pub fault: Fault,
}

/// The value of one request: an address, what to put there (nothing means
/// delete), and whether a replaced node hands its children on.
#[verifier::ext_equal]
pub struct Request {
    pub path: Seq<Seq<char>>,
    pub value: Option<Node>,
    pub no_overwrite_children: bool,
}

/// `node` after a request with the non-empty address `path` below it. All
/// segments but the last are walked, each to the first child of that name; the
/// last names what is put or removed among the children of the node reached.
pub open spec fn patched_at(node: Node, path: Seq<Seq<char>>, value: Option<Node>, keep: bool)
    -> Result<Node, Fault>
    recommends
        path.len() > 0,
    decreases path.len(),
{
    if path.len() <= 1 {
        Ok(Node { children: settled(node.children, path.last(), value, keep), ..node })
    } else if has_child(node.children, path.first()) {
        let at = first_match(node.children, path.first());
        match patched_at(node.children[at], path.drop_first(), value, keep) {
            Ok(child) => Ok(Node { children: node.children.update(at, child), ..node }),
            Err(fault) => Err(fault),
        }
    } else {
        Err(
            Fault::MissingSegment {
                segment: path.first(),
                parent_class_name: node.class_name,
                parent_name: node.name,
            },
        )
    }
}

/// The tree after one request. An empty address stands for the tree itself:
/// a value replaces it whole, and there is nothing to delete.
pub open spec fn patched(root: Node, request: Request) -> Result<Node, Fault> {
    if request.path.len() == 0 {
        match request.value {
            Some(v) => Ok(v),
            None => Err(Fault::EmptyAddress),
        }
    } else {
        patched_at(root, request.path, request.value, request.no_overwrite_children)
    }
}

/// The tree after a batch: each request works on what the ones before it
/// left, and the first that fails ends the batch with its position.
pub open spec fn patched_all(root: Node, batch: Seq<Request>) -> Result<Node, Failure>
    decreases batch.len(),
{
    if batch.len() == 0 {
        Ok(root)
    } else {
        match patched_all(root, batch.drop_last()) {
            Ok(tree) => match patched(tree, batch.last()) {
                Ok(next) => Ok(next),
                Err(fault) => Err(Failure { index: batch.len() - 1, fault }),
            },
            Err(failure) => Err(failure),
        }
    }
}

/// A batch that has failed on its first requests fails in the same way,
/// whatever follows them.
pub proof fn lemma_failure_is_final(root: Node, batch: Seq<Request>, done: int)
    requires
        0 <= done <= batch.len(),
        patched_all(root, batch.take(done)) is Err,
    ensures
        patched_all(root, batch) == patched_all(root, batch.take(done)),
    decreases batch.len() - done,
{
    if done < batch.len() {
        assert(batch.take(done + 1).drop_last() =~= batch.take(done));
        lemma_failure_is_final(root, batch, done + 1);
    } else {
        assert(batch.take(done) =~= batch);
    }
}

/// One operation of a batch.
#[derive(Debug)]
pub struct SourcemapSetRequest {
    pub path: Vec<String>,
    pub value: Option<SourcemapInstance>,
    pub no_overwrite_children: bool,
}

/// The value of an optional node.
pub open spec fn value_of(value: Option<SourcemapInstance>) -> Option<Node> {
    match value {
        Some(v) => Some(v@),
        None => None,
    }
}

impl View for SourcemapSetRequest {
    type V = Request;

    open spec fn view(&self) -> Request {
        Request {
            path: texts_of(self.path@),
            value: value_of(self.value),
            no_overwrite_children: self.no_overwrite_children,
        }
    }
}

impl Default for SourcemapSetRequest {
    fn default() -> (request: Self)
        ensures
            request@ == (Request {
                path: Seq::empty(),
                value: None,
                no_overwrite_children: false,
            }),
    {
        let request = SourcemapSetRequest {
            path: Vec::new(),
            value: None,
            no_overwrite_children: false,
        };
        proof {
            assert(texts_of(request.path@) =~= Seq::<Seq<char>>::empty());
        }
        request
    }
}

impl Clone for SourcemapSetRequest {
    fn clone(&self) -> (copy: Self)
        ensures
            copy@ == self@,
    {
        SourcemapSetRequest {
            path: clone_texts(&self.path),
            value: match &self.value {
                Some(v) => Some(v.clone()),
                None => None,
            },
            no_overwrite_children: self.no_overwrite_children,
        }
    }
}

/// The values of a run of requests, one for one.
pub open spec fn requests_of(items: Seq<SourcemapSetRequest>) -> Seq<Request> {
    items.map_values(|r: SourcemapSetRequest| r@)
}

/// Why a request was refused.
#[derive(Debug)]
pub enum AddressFault {
    /// An empty address came without a value.
    EmptyAddress,
    /// `segment` is no child of the node `parent_class_name` `parent_name`.
    MissingSegment { segment: String, parent_class_name: String, parent_name: String },
}

impl View for AddressFault {
    type V = Fault;

    open spec fn view(&self) -> Fault {
        match self {
            AddressFault::EmptyAddress => Fault::EmptyAddress,
            AddressFault::MissingSegment { segment, parent_class_name, parent_name } => {
                Fault::MissingSegment {
                    segment: segment@,
                    parent_class_name: parent_class_name@,
                    parent_name: parent_name@,
                }
            },
        }
    }
}

/// What a fault says of itself.
pub open spec fn fault_text(fault: Fault) -> Seq<char> {
    match fault {
        Fault::EmptyAddress => "empty address requires a value"@,
        Fault::MissingSegment { segment, parent_class_name, parent_name } => "\""@ + segment
            + "\" is not a valid member of "@ + parent_class_name + " "@ + parent_name,
    }
}

/// What a failure says of itself: which request failed, and the fault.
pub open spec fn failure_text(failure: Failure) -> Seq<char> {
    "request "@ + decimal(failure.index as nat) + ": "@ + fault_text(failure.fault)
}

impl AddressFault {
    /// The fault in words.
    pub fn message(&self) -> (text: String)
        ensures
            text@ == fault_text(self@),
    {
        match self {
            AddressFault::EmptyAddress => String::from_str("empty address requires a value"),
            AddressFault::MissingSegment { segment, parent_class_name, parent_name } => {
                let mut text = String::from_str("\"");
                text.append(segment.as_str());
                text.append("\" is not a valid member of ");
                text.append(parent_class_name.as_str());
                text.append(" ");
                text.append(parent_name.as_str());
                text
            },
        }
    }
}

/// A batch that was refused: the position of the first request that failed,
/// and why it did.
#[derive(Debug)]
pub struct AddressError {
    pub index: usize,
    pub fault: AddressFault,
}

impl View for AddressError {
    type V = Failure;

    open spec fn view(&self) -> Failure {
        Failure { index: self.index as int, fault: self.fault@ }
    }
}

impl SourcemapInstance {
    /// Puts `value` under `name`: it replaces the first child of that name, or
    /// becomes the last child where there is none. With
    /// `no_overwrite_children` a replaced child's children become those of
    /// `value`.
    pub fn upsert_child(
        &mut self,
        name: &str,
        value: SourcemapInstance,
        no_overwrite_children: bool,
    )
        ensures
            final(self)@ == (Node {
                children: put_child(old(self)@.children, name@, value@, no_overwrite_children),
                ..old(self)@
            }),
    {
        let ghost given = value;
        let mut value = value;
        match self.first_child_index(name) {
            Some(i) => {
                proof {
                    lemma_first_match_is(self@.children, name@, i as int);
                }
                let slot = self.child_mut(i);
                let ghost found = *slot;
                if no_overwrite_children {
                    std::mem::swap(&mut value.children, &mut slot.children);
                }
                proof {
                    given.lemma_children_view();
                    found.lemma_children_view();
                    value.lemma_children_view();
                    assert(no_overwrite_children ==> value@ == (Node {
                        children: found@.children,
                        ..given@
                    }));
                }
                *slot = value;
                proof {
                    assert(self@.children =~= put_child(
                        old(self)@.children,
                        name@,
                        given@,
                        no_overwrite_children,
                    ));
                }
            },
            None => {
                self.children.push(value);
                proof {
                    self.lemma_children_view();
                    old(self).lemma_children_view();
                    assert(self@.children =~= put_child(
                        old(self)@.children,
                        name@,
                        value@,
                        no_overwrite_children,
                    ));
                }
            },
        }
    }

    /// Removes every child called `name`; the others keep their order.
    pub fn remove_children(&mut self, name: &str)
        ensures
            final(self)@ == (Node {
                children: without_child(old(self)@.children, name@),
                ..old(self)@
            }),
    {
        let mut kept: Vec<SourcemapInstance> = Vec::new();
        let mut rest: Vec<SourcemapInstance> = Vec::new();
        std::mem::swap(&mut rest, &mut self.children);
        let ghost items = rest@;
        let ghost all = nodes_of(items);
        let ghost stays = |c: Node| c.name != name@;
        proof {
            old(self).lemma_children_view();
            assert(all.take(0).filter(stays) =~= Seq::<Node>::empty()) by {
                reveal(Seq::filter);
            }
            assert(nodes_of(kept@) =~= Seq::<Node>::empty());
        }
        for child in it: rest
            invariant
                it.seq() == items,
                all == nodes_of(items),
                stays == |c: Node| c.name != name@,
                nodes_of(kept@) == all.take(it.index() as int).filter(stays),
        {
            proof {
                let k = it.index() as int;
                assert(all.take(k + 1) =~= all.take(k).push(child@));
                all.take(k).lemma_filter_push(child@, stays);
                assert(nodes_of(kept@.push(child)) =~= nodes_of(kept@).push(child@));
            }
            if !child.name.as_str().eq(name) {
                kept.push(child);
            }
        }
        self.children = kept;
        proof {
            assert(all.take(all.len() as int) =~= all);
            self.lemma_children_view();
        }
    }

    /// Applies a request whose address, from `depth` on, is relative to this
    /// node.
    fn apply_at(
        &mut self,
        path: &Vec<String>,
        depth: usize,
        value: Option<SourcemapInstance>,
        no_overwrite_children: bool,
    ) -> (done: Result<(), AddressFault>)
        requires
            depth < path.len(),
        ensures
            match patched_at(
                old(self)@,
                texts_of(path@).skip(depth as int),
                value_of(value),
                no_overwrite_children,
            ) {
                Ok(node) => done is Ok && final(self)@ == node,
                Err(fault) => done is Err && done->Err_0@ == fault && final(self)@ == old(self)@,
            },
        decreases path.len() - depth,
    {
        let ghost rest = texts_of(path@).skip(depth as int);
        let name = path[depth].as_str();
        assert(rest.first() == name@);
        if depth + 1 == path.len() {
            assert(rest.last() == name@);
            match value {
                Some(v) => self.upsert_child(name, v, no_overwrite_children),
                None => self.remove_children(name),
            }
            Ok(())
        } else {
            assert(rest.drop_first() =~= texts_of(path@).skip(depth + 1));
            match self.find_first_child_mut(name) {
                Some(child) => {
                    let done = child.apply_at(path, depth + 1, value, no_overwrite_children);
                    proof {
                        let kids = old(self)@.children;
                        let at = first_match(kids, name@);
                        lemma_first_match_exists(kids, name@);
                        assert(kids.update(at, kids[at]) =~= kids);
                    }
                    done
                },
                None => Err(
                    AddressFault::MissingSegment {
                        segment: path[depth].clone(),
                        parent_class_name: self.class_name.clone(),
                        parent_name: self.name.clone(),
                    },
                ),
            }
        }
    }

    /// Applies one request to the tree under this root. A request that fails
    /// leaves the tree as it was.
    pub fn apply(&mut self, request: SourcemapSetRequest) -> (done: Result<(), AddressFault>)
        ensures
            match patched(old(self)@, request@) {
                Ok(node) => done is Ok && final(self)@ == node,
                Err(fault) => done is Err && done->Err_0@ == fault && final(self)@ == old(self)@,
            },
    {
        let SourcemapSetRequest { path, value, no_overwrite_children } = request;
        if path.len() == 0 {
            match value {
                Some(v) => {
                    *self = v;
                    Ok(())
                },
                None => Err(AddressFault::EmptyAddress),
            }
        } else {
            assert(texts_of(path@).skip(0) =~= texts_of(path@));
            self.apply_at(&path, 0, value, no_overwrite_children)
        }
    }
}

impl AddressError {
    /// The failure in words, for whoever sent the batch.
    pub fn message(&self) -> (text: String)
        ensures
            text@ == failure_text(self@),
    {
        let mut text = String::from_str("request ");
        push_decimal(&mut text, self.index as u64);
        text.append(": ");
        let fault = self.fault.message();
        text.append(fault.as_str());
        text
    }
}

/// Applies a batch to `top`, request by request in the order given, each to
/// what the ones before it left. The result is the tree after the last
/// request, or the first failure with its position; no tree comes back from a
/// batch that failed.
pub fn sourcemap_set(top: SourcemapInstance, requests: Vec<SourcemapSetRequest>) -> (done: Result<
    SourcemapInstance,
    AddressError,
>)
    ensures
        match patched_all(top@, requests_of(requests@)) {
            Ok(tree) => done is Ok && done->Ok_0@ == tree,
            Err(failure) => done is Err && done->Err_0@ == failure,
        },
{
    let mut tree = top;
    let ghost batch = requests_of(requests@);
    let total = requests.len();
    let mut index: usize = 0;
    for request in it: requests
        invariant
            it.seq() == requests@,
            requests@.len() == total,
            batch == requests_of(requests@),
            index == it.index(),
            patched_all(top@, batch.take(index as int)) == Ok::<Node, Failure>(tree@),
    {
        assert(batch.take(index + 1).drop_last() =~= batch.take(index as int));
        assert(batch.take(index + 1).last() == request@);
        match tree.apply(request) {
            Ok(()) => {},
            Err(fault) => {
                proof {
                    lemma_failure_is_final(top@, batch, index + 1);
                }
                return Err(AddressError { index, fault });
            },
        }
        index += 1;
    }
    assert(batch.take(batch.len() as int) =~= batch);
    Ok(tree)
}

} // verus!
