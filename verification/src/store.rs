//! The tree as it is stored: which fields a document holds, and the tree
//! that a document stands for.

use crate::config::Config;
use crate::outside::{join_path, joined_path};
use crate::tree::{clone_texts, empty_node, texts_of, Node, SourcemapInstance};
use vstd::prelude::*;

verus! {

/// The value of a node as the stored document holds it: a flag that is not
/// set and a list that is empty are left out.
#[verifier::ext_equal]
pub struct Entry {
    pub name: Seq<char>,
    pub class_name: Seq<char>,
    pub plugin_managed: Option<bool>,
    pub file_paths: Option<Seq<Seq<char>>>,
    pub children: Option<Seq<Entry>>,
}

/// What is stored for a node: its name and class always, the flag only where
/// it is set, each list only where it holds something.
pub open spec fn written(node: Node) -> Entry
    decreases node,
{
    Entry {
        name: node.name,
        class_name: node.class_name,
        plugin_managed: if node.plugin_managed {
            Some(true)
        } else {
            None
        },
        file_paths: if node.file_paths.len() == 0 {
            None
        } else {
            Some(node.file_paths)
        },
        children: if node.children.len() == 0 {
            None
        } else {
            Some(
                Seq::new(
                    node.children.len(),
                    |i: int|
                        if 0 <= i < node.children.len() {
                            written(node.children[i])
                        } else {
                            arbitrary()
                        },
                ),
            )
        },
    }
}

/// The node that a stored entry stands for: what was left out is not set, or
/// empty.
pub open spec fn restored(entry: Entry) -> Node
    decreases entry,
{
    Node {
        name: entry.name,
        class_name: entry.class_name,
        plugin_managed: match entry.plugin_managed {
            Some(set) => set,
            None => false,
        },
        file_paths: match entry.file_paths {
            Some(paths) => paths,
            None => Seq::empty(),
        },
        children: match entry.children {
            Some(entries) => Seq::new(
                entries.len(),
                |i: int|
                    if 0 <= i < entries.len() {
                        restored(entries[i])
                    } else {
                        arbitrary()
                    },
            ),
            None => Seq::empty(),
        },
    }
}

/// A tree that is saved and then loaded is the tree that was saved: leaving
/// out what is not set or empty loses nothing.
pub proof fn lemma_save_then_load(node: Node)
    ensures
        restored(written(node)) == node,
    decreases node,
{
    let back = restored(written(node));
    assert(back.file_paths =~= node.file_paths);
    assert forall|i: int| 0 <= i < node.children.len() implies #[trigger] back.children[i]
        == node.children[i] by {
        lemma_save_then_load(node.children[i]);
    }
    assert(back.children =~= node.children);
}

/// A node as the stored document holds it. A field that the document leaves
/// out is `None`.
#[derive(Debug)]
pub struct StoredInstance {
    pub name: String,
    pub class_name: String,
    pub plugin_managed: Option<bool>,
    pub file_paths: Option<Vec<String>>,
    pub children: Option<Vec<StoredInstance>>,
}

/// The values of a run of stored nodes, one for one.
pub open spec fn entries_of(items: Seq<StoredInstance>) -> Seq<Entry> {
    items.map_values(|s: StoredInstance| s@)
}

/// The value of a stored node.
pub open spec fn entry_of(stored: StoredInstance) -> Entry
    decreases stored,
{
    Entry {
        name: stored.name@,
        class_name: stored.class_name@,
        plugin_managed: stored.plugin_managed,
        file_paths: match stored.file_paths {
            Some(paths) => Some(texts_of(paths@)),
            None => None,
        },
        children: match stored.children {
            Some(items) => Some(
                Seq::new(
                    items@.len(),
                    |i: int|
                        if 0 <= i < items@.len() {
                            entry_of(items@[i])
                        } else {
                            arbitrary()
                        },
                ),
            ),
            None => None,
        },
    }
}

impl View for StoredInstance {
    type V = Entry;

    open spec fn view(&self) -> Entry {
        entry_of(*self)
    }
}

impl StoredInstance {
    /// The children of a stored node's value are the values of its children.
    pub proof fn lemma_children_view(&self)
        ensures
            match self.children {
                Some(items) => self@.children == Some(entries_of(items@)),
                None => self@.children is None,
            },
    {
        match self.children {
            Some(items) => {
                assert(self@.children->0 =~= entries_of(items@));
            },
            None => {},
        }
    }
}

impl SourcemapInstance {
    /// Where the tree is kept: the file `sourcemap.json` in the directory
    /// that the settings name.
    pub fn path(config: &Config) -> (location: String)
        ensures
            location@ == joined_path(config@.sourcemap_directory, "sourcemap.json"@),
    {
        join_path(config.sourcemap_directory.as_str(), "sourcemap.json")
    }

    /// What is stored for this tree.
    pub fn save(&self) -> (stored: StoredInstance)
        ensures
            stored@ == written(self@),
        decreases self,
    {
        let mut items: Vec<StoredInstance> = Vec::new();
        let mut i: usize = 0;
        proof {
            self.lemma_children_view();
        }
        while i < self.children.len()
            invariant
                i <= self.children.len(),
                self@.children.len() == self.children.len(),
                items.len() == i,
                forall|j: int|
                    0 <= j < i ==> (#[trigger] items@[j])@ == written(self@.children[j]),
            decreases self.children.len() - i,
        {
            proof {
                self.lemma_children_view();
            }
            let item = self.children[i].save();
            items.push(item);
            i += 1;
        }
        let stored = StoredInstance {
            name: self.name.clone(),
            class_name: self.class_name.clone(),
            plugin_managed: if self.plugin_managed {
                Some(true)
            } else {
                None
            },
            file_paths: if self.file_paths.len() == 0 {
                None
            } else {
                Some(clone_texts(&self.file_paths))
            },
            children: if items.len() == 0 {
                None
            } else {
                Some(items)
            },
        };
        proof {
            stored.lemma_children_view();
            if self.children.len() > 0 {
                assert(stored@.children->0 =~= written(self@).children->0);
            }
        }
        stored
    }

    /// The tree that a stored node stands for.
    pub fn restore(stored: &StoredInstance) -> (tree: SourcemapInstance)
        ensures
            tree@ == restored(stored@),
        decreases stored,
    {
        let mut children: Vec<SourcemapInstance> = Vec::new();
        proof {
            stored.lemma_children_view();
        }
        match &stored.children {
            Some(items) => {
                let mut i: usize = 0;
                while i < items.len()
                    invariant
                        i <= items.len(),
                        stored.children == Some(*items),
                        stored@.children == Some(entries_of(items@)),
                        children.len() == i,
                        forall|j: int|
                            0 <= j < i ==> (#[trigger] children@[j])@ == restored(items@[j]@),
                    decreases items.len() - i,
                {
                    let child = SourcemapInstance::restore(&items[i]);
                    children.push(child);
                    i += 1;
                }
            },
            None => {},
        }
        let tree = SourcemapInstance {
            name: stored.name.clone(),
            class_name: stored.class_name.clone(),
            plugin_managed: match stored.plugin_managed {
                Some(set) => set,
                None => false,
            },
            file_paths: match &stored.file_paths {
                Some(paths) => clone_texts(paths),
                None => Vec::new(),
            },
            children,
        };
        proof {
            tree.lemma_children_view();
            assert(tree@.children =~= restored(stored@).children);
            assert(tree@.file_paths =~= restored(stored@).file_paths);
        }
        tree
    }

    /// The tree to work on: the one that was stored, or an empty root where
    /// nothing was stored yet.
    pub fn load(stored: Option<StoredInstance>) -> (tree: SourcemapInstance)
        ensures
            tree@ == match stored {
                Some(found) => restored(found@),
                None => empty_node(),
            },
    {
        match stored {
            Some(found) => SourcemapInstance::restore(&found),
            None => SourcemapInstance::default(),
        }
    }
}

} // verus!
