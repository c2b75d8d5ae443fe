//! The instance tree: its nodes, their mathematical value, and how a child
//! is found by name.

use vstd::prelude::*;

verus! {

/// The mathematical value of a tree node: what two nodes must share to be the
/// same node, whatever buffers hold them.
#[verifier::ext_equal]
pub struct Node {
    pub name: Seq<char>,
    pub class_name: Seq<char>,
    pub plugin_managed: bool,
    pub file_paths: Seq<Seq<char>>,
    pub children: Seq<Node>,
}

/// `i` is the position of the first of `children` that is called `name`.
pub open spec fn is_first_match(children: Seq<Node>, name: Seq<char>, i: int) -> bool {
    &&& 0 <= i < children.len()
    &&& children[i].name == name
    &&& forall|j: int| 0 <= j < i ==> (#[trigger] children[j]).name != name
}

/// Some child is called `name`.
pub open spec fn has_child(children: Seq<Node>, name: Seq<char>) -> bool {
    exists|i: int| 0 <= i < children.len() && (#[trigger] children[i]).name == name
}

/// The position of the first child called `name`, where there is one.
pub open spec fn first_match(children: Seq<Node>, name: Seq<char>) -> int
    recommends
        has_child(children, name),
{
    choose|i: int| is_first_match(children, name, i)
}

/// A position that `is_first_match` accepts is the one `first_match` names.
pub proof fn lemma_first_match_is(children: Seq<Node>, name: Seq<char>, i: int)
    requires
        is_first_match(children, name, i),
    ensures
        has_child(children, name),
        first_match(children, name) == i,
{
    let k = first_match(children, name);
    assert(is_first_match(children, name, k));
    if k < i {
        assert(children[k].name != name);
    }
    if i < k {
        assert(children[i].name != name);
    }
}

/// Where some child is called `name`, `first_match` is a first match.
pub proof fn lemma_first_match_exists(children: Seq<Node>, name: Seq<char>)
    requires
        has_child(children, name),
    ensures
        is_first_match(children, name, first_match(children, name)),
    decreases children.len(),
{
    let w = choose|i: int| 0 <= i < children.len() && (#[trigger] children[i]).name == name;
    lemma_least_match(children, name, w);
}

proof fn lemma_least_match(children: Seq<Node>, name: Seq<char>, w: int)
    requires
        0 <= w < children.len(),
        children[w].name == name,
    ensures
        exists|i: int| is_first_match(children, name, i),
    decreases w,
{
    if exists|j: int| 0 <= j < w && (#[trigger] children[j]).name == name {
        let j = choose|j: int| 0 <= j < w && (#[trigger] children[j]).name == name;
        lemma_least_match(children, name, j);
    } else {
        assert(is_first_match(children, name, w));
    }
}

/// The value of a node that holds nothing: the tree before anything was saved.
pub open spec fn empty_node() -> Node {
    Node {
        name: Seq::empty(),
        class_name: Seq::empty(),
        plugin_managed: false,
        file_paths: Seq::empty(),
        children: Seq::empty(),
    }
}

/// One node of the instance tree, owning its descendants.
#[derive(Debug)]
pub struct SourcemapInstance {
    pub name: String,
    pub class_name: String,
    pub plugin_managed: bool,
    pub file_paths: Vec<String>,
    pub children: Vec<SourcemapInstance>,
}

/// The values of a run of nodes, one for one.
pub open spec fn nodes_of(items: Seq<SourcemapInstance>) -> Seq<Node> {
    items.map_values(|c: SourcemapInstance| c@)
}

/// The values of a run of strings, one for one.
pub open spec fn texts_of(items: Seq<String>) -> Seq<Seq<char>> {
    items.map_values(|s: String| s@)
}

/// The value of a node: its own fields and, in order, the values of its
/// children.
pub open spec fn node_of(item: SourcemapInstance) -> Node
    decreases item,
{
    Node {
        name: item.name@,
        class_name: item.class_name@,
        plugin_managed: item.plugin_managed,
        file_paths: texts_of(item.file_paths@),
        children: Seq::new(
            item.children@.len(),
            |i: int|
                if 0 <= i < item.children@.len() {
                    node_of(item.children@[i])
                } else {
                    arbitrary()
                },
        ),
    }
}

impl View for SourcemapInstance {
    type V = Node;

    open spec fn view(&self) -> Node {
        node_of(*self)
    }
}

impl Default for SourcemapInstance {
    fn default() -> (node: Self)
        ensures
            node@ == empty_node(),
    {
        let node = SourcemapInstance {
            name: String::new(),
            class_name: String::new(),
            plugin_managed: false,
            file_paths: Vec::new(),
            children: Vec::new(),
        };
        proof {
            node.lemma_children_view();
            assert(node@.file_paths =~= Seq::<Seq<char>>::empty());
            assert(node@.children =~= Seq::<Node>::empty());
        }
        node
    }
}

/// A copy of a list of strings.
pub fn clone_texts(items: &Vec<String>) -> (copy: Vec<String>)
    ensures
        texts_of(copy@) == texts_of(items@),
{
    let mut copy: Vec<String> = Vec::new();
    let mut i: usize = 0;
    while i < items.len()
        invariant
            i <= items.len(),
            texts_of(copy@) == texts_of(items@.take(i as int)),
        decreases items.len() - i,
    {
        let ghost before = copy@;
        copy.push(items[i].clone());
        proof {
            assert(texts_of(before.push(items[i as int])) =~= texts_of(before).push(
                items[i as int]@,
            ));
            assert(items@.take(i + 1) =~= items@.take(i as int).push(items[i as int]));
            assert(texts_of(items@.take(i as int).push(items[i as int])) =~= texts_of(
                items@.take(i as int),
            ).push(items[i as int]@));
        }
        i += 1;
    }
    proof {
        assert(items@.take(items.len() as int) =~= items@);
    }
    copy
}

impl Clone for SourcemapInstance {
    fn clone(&self) -> (copy: Self)
        ensures
            copy@ == self@,
        decreases self,
    {
        let mut children: Vec<SourcemapInstance> = Vec::new();
        let mut i: usize = 0;
        while i < self.children.len()
            invariant
                i <= self.children.len(),
                nodes_of(children@) == nodes_of(self.children@.take(i as int)),
            decreases self.children.len() - i,
        {
            let ghost before = children@;
            let child = self.children[i].clone();
            children.push(child);
            proof {
                let done = self.children@.take(i as int);
                assert(nodes_of(before.push(child)) =~= nodes_of(before).push(child@));
                assert(self.children@.take(i + 1) =~= done.push(self.children[i as int]));
                assert(nodes_of(done.push(self.children[i as int])) =~= nodes_of(done).push(
                    self.children[i as int]@,
                ));
            }
            i += 1;
        }
        let copy = SourcemapInstance {
            name: self.name.clone(),
            class_name: self.class_name.clone(),
            plugin_managed: self.plugin_managed,
            file_paths: clone_texts(&self.file_paths),
            children,
        };
        proof {
            assert(self.children@.take(self.children.len() as int) =~= self.children@);
            copy.lemma_children_view();
            self.lemma_children_view();
        }
        copy
    }
}

/// Whether two lists hold the same strings in the same order.
pub fn same_texts(a: &Vec<String>, b: &Vec<String>) -> (same: bool)
    ensures
        same == (texts_of(a@) == texts_of(b@)),
{
    if a.len() != b.len() {
        assert(texts_of(a@).len() != texts_of(b@).len());
        return false;
    }
    let mut i: usize = 0;
    while i < a.len()
        invariant
            i <= a.len(),
            a.len() == b.len(),
            forall|j: int| 0 <= j < i ==> (#[trigger] a@[j])@ == b@[j]@,
        decreases a.len() - i,
    {
        if a[i] != b[i] {
            assert(texts_of(a@)[i as int] != texts_of(b@)[i as int]);
            return false;
        }
        i += 1;
    }
    assert(texts_of(a@) =~= texts_of(b@));
    true
}

/// Whether two trees are the same tree: node for node the same fields and
/// the same children in the same order.
pub fn same_tree(a: &SourcemapInstance, b: &SourcemapInstance) -> (same: bool)
    ensures
        same == (a@ == b@),
    decreases a,
{
    proof {
        a.lemma_children_view();
        b.lemma_children_view();
    }
    if a.name != b.name || a.class_name != b.class_name || a.plugin_managed != b.plugin_managed {
        return false;
    }
    if !same_texts(&a.file_paths, &b.file_paths) {
        return false;
    }
    if a.children.len() != b.children.len() {
        return false;
    }
    let mut i: usize = 0;
    while i < a.children.len()
        invariant
            i <= a.children.len(),
            a.children.len() == b.children.len(),
            a@.children == nodes_of(a.children@),
            b@.children == nodes_of(b.children@),
            forall|j: int| 0 <= j < i ==> (#[trigger] a.children@[j])@ == b.children@[j]@,
        decreases a.children.len() - i,
    {
        if !same_tree(&a.children[i], &b.children[i]) {
            assert(a@.children[i as int] != b@.children[i as int]);
            return false;
        }
        i += 1;
    }
    assert(a@.children =~= b@.children);
    true
}

impl PartialEq for SourcemapInstance {
    fn eq(&self, other: &Self) -> (same: bool) {
        same_tree(self, other)
    }
}

impl vstd::std_specs::cmp::PartialEqSpecImpl for SourcemapInstance {
    open spec fn obeys_eq_spec() -> bool {
        true
    }

    open spec fn eq_spec(&self, other: &Self) -> bool {
        self@ == other@
    }
}

impl SourcemapInstance {
    /// The children of a node's value are the values of its children.
    pub proof fn lemma_children_view(&self)
        ensures
            self@.children == nodes_of(self.children@),
            self@.children.len() == self.children@.len(),
            forall|i: int|
                0 <= i < self.children@.len() ==> (#[trigger] self@.children[i])
                    == self.children@[i]@,
            forall|i: int|
                0 <= i < self.children@.len() ==> (#[trigger] self@.children[i]).name
                    == self.children@[i].name@,
    {
        assert(self@.children =~= nodes_of(self.children@));
    }

    /// The position of the first child called `name`, if any child is.
    pub fn first_child_index(&self, name: &str) -> (found: Option<usize>)
        ensures
            match found {
                Some(i) => is_first_match(self@.children, name@, i as int),
                None => !has_child(self@.children, name@),
            },
    {
        let mut i: usize = 0;
        while i < self.children.len()
            invariant
                i <= self.children.len(),
                forall|j: int| 0 <= j < i ==> (#[trigger] self.children@[j]).name@ != name@,
            decreases self.children.len() - i,
        {
            if self.children[i].name.as_str().eq(name) {
                proof {
                    self.lemma_children_view();
                }
                return Some(i);
            }
            i += 1;
        }
        proof {
            self.lemma_children_view();
        }
        None
    }

    /// The first child called `name`, if any child is.
    pub fn find_first_child(&self, name: &str) -> (found: Option<&SourcemapInstance>)
        ensures
            match found {
                Some(child) => {
                    &&& has_child(self@.children, name@)
                    &&& child@ == self@.children[first_match(self@.children, name@)]
                },
                None => !has_child(self@.children, name@),
            },
    {
        match self.first_child_index(name) {
            Some(i) => {
                proof {
                    self.lemma_children_view();
                    lemma_first_match_is(self@.children, name@, i as int);
                }
                Some(&self.children[i])
            },
            None => None,
        }
    }

    /// The child at position `i`, open to change.
    pub(crate) fn child_mut(&mut self, i: usize) -> (child: &mut SourcemapInstance)
        requires
            i < old(self).children.len(),
        ensures
            child@ == old(self)@.children[i as int],
            final(self)@.children =~= old(self)@.children.update(i as int, final(child)@),
            final(self)@.name == old(self)@.name,
            final(self)@.class_name == old(self)@.class_name,
            final(self)@.plugin_managed == old(self)@.plugin_managed,
            final(self)@.file_paths == old(self)@.file_paths,
    {
        &mut self.children[i]
    }

    /// The first child called `name`, if any child is, open to change: what
    /// the caller leaves in it takes that child's place and nothing else moves.
    pub fn find_first_child_mut(&mut self, name: &str) -> (found: Option<&mut SourcemapInstance>)
        ensures
            match found {
                Some(child) => {
                    let at = first_match(old(self)@.children, name@);
                    &&& has_child(old(self)@.children, name@)
                    &&& child@ == old(self)@.children[at]
                    &&& final(self)@ == (Node {
                        children: old(self)@.children.update(at, final(child)@),
                        ..old(self)@
                    })
                },
                None => !has_child(old(self)@.children, name@) && final(self)@ == old(self)@,
            },
    {
        match self.first_child_index(name) {
            Some(i) => {
                proof {
                    self.lemma_children_view();
                    lemma_first_match_is(self@.children, name@, i as int);
                }
                Some(self.child_mut(i))
            },
            None => None,
        }
    }
}

} // verus!
