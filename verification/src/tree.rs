//! A snapshot of a directory tree, and its mathematical model.

use vstd::prelude::*;
use crate::ignore::ignored;

verus! {

/// One entry of a directory listing, as it was read.
#[derive(Debug, PartialEq, Eq)]
pub enum Entry {
    /// Anything that is not a directory, with its length in bytes.
    File { name: String, size: u64 },
    /// A directory: its name, the relative paths that were looked up beneath
    /// it and found to exist, and its own listing, in the order in which it
    /// was read.
    Dir { name: String, markers: Vec<String>, entries: Vec<Entry> },
}

/// What an [`Entry`] stands for.
pub enum Node {
    File { name: Seq<char>, size: nat },
    Dir { name: Seq<char>, markers: Seq<Seq<char>>, entries: Seq<Node> },
}

impl Entry {
    /// The model of this entry and of everything beneath it.
    pub open spec fn model(self) -> Node
        decreases self,
    {
        match self {
            Entry::File { name, size } => Node::File { name: name@, size: size as nat },
            Entry::Dir { name, markers, entries } => Node::Dir {
                name: name@,
                markers: markers.deep_view(),
                entries: Seq::new(
                    entries@.len(),
                    |i: int|
                        if 0 <= i < entries@.len() {
                            entries@[i].model()
                        } else {
                            arbitrary()
                        },
                ),
            },
        }
    }
}

impl DeepView for Entry {
    type V = Node;

    open spec fn deep_view(&self) -> Node {
        self.model()
    }
}

/// The name of an entry.
pub open spec fn node_name(node: Node) -> Seq<char> {
    match node {
        Node::File { name, size } => name,
        Node::Dir { name, markers, entries } => name,
    }
}

/// The number of directories that a walk enters at or beneath an entry.
pub open spec fn entry_dirs(node: Node, ignores: Seq<Seq<char>>) -> nat
    decreases node,
{
    match node {
        Node::File { name, size } => 0,
        Node::Dir { name, markers, entries } => if ignored(ignores, name, markers) {
            0
        } else {
            1 + listing_dirs(entries, ignores)
        },
    }
}

/// The number of directories that a walk enters beneath the directory whose
/// listing is `entries`.
pub open spec fn listing_dirs(entries: Seq<Node>, ignores: Seq<Seq<char>>) -> nat
    decreases entries,
{
    if entries.len() == 0 {
        0
    } else {
        entry_dirs(entries.first(), ignores) + listing_dirs(entries.drop_first(), ignores)
    }
}

/// An entry as its own directory lists it: a directory without what it
/// holds.
pub open spec fn shallow_entry(node: Node) -> Node {
    match node {
        Node::File { name, size } => node,
        Node::Dir { name, markers, entries } => Node::Dir { name, markers, entries: Seq::empty() },
    }
}

/// A listing on its own, without what the directories in it hold.
pub open spec fn shallow(entries: Seq<Node>) -> Seq<Node> {
    Seq::new(entries.len(), |i: int| shallow_entry(entries[i]))
}

/// An entry without what lies in the directories that `ignores` excludes.
pub open spec fn pruned_entry(node: Node, ignores: Seq<Seq<char>>) -> Node
    decreases node,
{
    match node {
        Node::File { name, size } => node,
        Node::Dir { name, markers, entries } => Node::Dir {
            name,
            markers,
            entries: if ignored(ignores, name, markers) {
                Seq::empty()
            } else {
                pruned(entries, ignores)
            },
        },
    }
}

/// A tree without what lies in the directories that `ignores` excludes:
/// all that a walk ever looks at.
pub open spec fn pruned(entries: Seq<Node>, ignores: Seq<Seq<char>>) -> Seq<Node>
    decreases entries,
{
    Seq::new(
        entries.len(),
        |i: int|
            if 0 <= i < entries.len() {
                pruned_entry(entries[i], ignores)
            } else {
                arbitrary()
            },
    )
}

/// A listing's model, entry by entry.
pub(crate) proof fn lemma_listing_model(entries: Vec<Entry>, i: int)
    requires
        0 <= i < entries.len(),
    ensures
        entries.deep_view()[i] == entries[i].model(),
        entries[i] matches Entry::Dir { name, markers, entries: inner } ==> entries.deep_view()[i]
            == (Node::Dir {
            name: name@,
            markers: markers.deep_view(),
            entries: inner.deep_view(),
        }),
        entries[i] matches Entry::File { name, size } ==> entries.deep_view()[i] == (Node::File {
            name: name@,
            size: size as nat,
        }),
{
    match entries[i] {
        Entry::Dir { name, markers, entries: inner } => {
            assert(entries[i].model()->Dir_entries =~= inner.deep_view());
        },
        Entry::File { name, size } => {},
    }
}

/// A copy of a list of texts.
pub(crate) fn copy_texts(list: &Vec<String>) -> (copy: Vec<String>)
    ensures
        copy.deep_view() == list.deep_view(),
{
    let mut copy: Vec<String> = Vec::new();
    let mut i: usize = 0;
    while i < list.len()
        invariant
            i <= list.len(),
            copy.deep_view() == list.deep_view().take(i as int),
        decreases list.len() - i,
    {
        copy.push(list[i].clone());
        assert(copy.deep_view() == list.deep_view().take(i as int).push(list[i as int]@));
        i += 1;
    }
    copy
}

} // verus!
