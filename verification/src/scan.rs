//! Reading a tree one directory at a time.
//!
//! A [`Scan`] says which directory to list next and takes the listing in
//! return. It never asks for a directory that the patterns exclude, and in
//! the end hands out the snapshot that the walk works on.

use vstd::prelude::*;
use crate::ignore::{ignored, should_ignore_dir};
use crate::tree::{
    copy_texts, entry_dirs, lemma_listing_model, listing_dirs, node_name, pruned, pruned_entry,
    shallow, shallow_entry, Entry, Node,
};

verus! {

/// A directory in the course of being read: its listing without what the
/// directories in it hold, the number of entries dealt with, and those
/// entries with all that was read beneath them.
struct Opened {
    listing: Seq<Node>,
    next: int,
    done: Seq<Node>,
}

/// Whether `frame` stands at a directory that is to be read.
spec fn waits(frame: Opened, ignores: Seq<Seq<char>>) -> bool {
    &&& 0 <= frame.next < frame.listing.len()
    &&& frame.listing[frame.next] matches Node::Dir { name, markers, .. } && !ignored(
        ignores,
        name,
        markers,
    )
}

/// Whether `frame` is a true account of the directory that lists `listing`:
/// it holds that listing, and what it has dealt with is what a walk looks
/// at of those entries.
spec fn fits(frame: Opened, listing: Seq<Node>, ignores: Seq<Seq<char>>) -> bool {
    &&& frame.listing == shallow(listing)
    &&& 0 <= frame.next <= listing.len()
    &&& frame.done == pruned(listing.take(frame.next), ignores)
}

/// The listing of the directory that is entry `at` of `listing`.
spec fn inner(listing: Seq<Node>, at: int) -> Seq<Node> {
    listing[at]->Dir_entries
}

/// Whether the frames from `from` on are a true account of the tree whose
/// top listing is `listing`, each frame of the directory at which the frame
/// before it stands.
spec fn chain(
    frames: Seq<Opened>,
    from: int,
    listing: Seq<Node>,
    ignores: Seq<Seq<char>>,
) -> bool
    decreases frames.len() - from,
{
    if 0 <= from < frames.len() {
        &&& fits(frames[from], listing, ignores)
        &&& chain(frames, from + 1, inner(listing, frames[from].next), ignores)
    } else {
        true
    }
}

/// The listing, in the tree whose top listing is `listing`, of the
/// directory at which the last frame stands.
spec fn awaited(frames: Seq<Opened>, from: int, listing: Seq<Node>) -> Seq<Node>
    decreases frames.len() - from,
{
    if 0 <= from < frames.len() {
        awaited(frames, from + 1, inner(listing, frames[from].next))
    } else {
        listing
    }
}

/// The names of the directories at which the frames stand, outermost
/// first.
spec fn names_along(frames: Seq<Opened>) -> Seq<Seq<char>> {
    Seq::new(frames.len(), |k: int| node_name(frames[k].listing[frames[k].next]))
}

/// Whether `path` leads from the directory that lists `listing` down to the
/// directory that lists `target`, name by name, through directories that
/// `ignores` does not exclude.
pub open spec fn descends(
    listing: Seq<Node>,
    path: Seq<Seq<char>>,
    target: Seq<Node>,
    ignores: Seq<Seq<char>>,
) -> bool
    decreases path.len(),
{
    if path.len() == 0 {
        target == listing
    } else {
        exists|i: int|
            0 <= i < listing.len() && (#[trigger] listing[i] matches Node::Dir {
                name,
                markers,
                entries,
            } && name == path[0] && !ignored(ignores, name, markers) && descends(
                entries,
                path.skip(1),
                target,
                ignores,
            ))
    }
}

proof fn lemma_chain_descends(
    frames: Seq<Opened>,
    from: int,
    listing: Seq<Node>,
    ignores: Seq<Seq<char>>,
)
    requires
        0 <= from <= frames.len(),
        chain(frames, from, listing, ignores),
        forall|k: int| from <= k < frames.len() ==> waits(#[trigger] frames[k], ignores),
    ensures
        descends(listing, names_along(frames).skip(from), awaited(frames, from, listing), ignores),
    decreases frames.len() - from,
{
    let path = names_along(frames).skip(from);
    if from < frames.len() {
        let frame = frames[from];
        lemma_chain_descends(frames, from + 1, inner(listing, frame.next), ignores);
        assert(path.skip(1) == names_along(frames).skip(from + 1));
    }
}

/// The number of directories still to be listed when the frames from
/// `from` on are open in the tree whose top listing is `listing`: the one
/// asked for with all that a walk enters beneath it, and all that a walk
/// enters after the places at which the frames stand.
spec fn unread(
    frames: Seq<Opened>,
    from: int,
    listing: Seq<Node>,
    ignores: Seq<Seq<char>>,
) -> nat
    decreases frames.len() - from,
{
    if 0 <= from < frames.len() {
        listing_dirs(listing.skip(frames[from].next + 1), ignores) + unread(
            frames,
            from + 1,
            inner(listing, frames[from].next),
            ignores,
        )
    } else {
        1 + listing_dirs(listing, ignores)
    }
}

/// The directories still to be listed once the directory asked for has
/// been opened and `next` of its entries are dealt with.
spec fn unread_within(
    frames: Seq<Opened>,
    from: int,
    listing: Seq<Node>,
    next: int,
    ignores: Seq<Seq<char>>,
) -> nat
    decreases frames.len() - from,
{
    if 0 <= from < frames.len() {
        listing_dirs(listing.skip(frames[from].next + 1), ignores) + unread_within(
            frames,
            from + 1,
            inner(listing, frames[from].next),
            next,
            ignores,
        )
    } else {
        listing_dirs(listing.skip(next), ignores)
    }
}

proof fn lemma_unread_positive(
    frames: Seq<Opened>,
    from: int,
    listing: Seq<Node>,
    ignores: Seq<Seq<char>>,
)
    ensures
        unread(frames, from, listing, ignores) > 0,
    decreases frames.len() - from,
{
    if 0 <= from < frames.len() {
        lemma_unread_positive(frames, from + 1, inner(listing, frames[from].next), ignores);
    }
}

proof fn lemma_unread_opened(
    frames: Seq<Opened>,
    from: int,
    listing: Seq<Node>,
    ignores: Seq<Seq<char>>,
)
    requires
        0 <= from <= frames.len(),
    ensures
        unread(frames, from, listing, ignores) == 1 + unread_within(
            frames,
            from,
            listing,
            0,
            ignores,
        ),
    decreases frames.len() - from,
{
    if from < frames.len() {
        lemma_unread_opened(frames, from + 1, inner(listing, frames[from].next), ignores);
    } else {
        assert(listing.skip(0) == listing);
    }
}

proof fn lemma_unread_step(
    frames: Seq<Opened>,
    from: int,
    listing: Seq<Node>,
    next: int,
    ignores: Seq<Seq<char>>,
)
    requires
        0 <= from <= frames.len(),
        0 <= next < awaited(frames, from, listing).len(),
    ensures
        unread_within(frames, from, listing, next, ignores) == unread_within(
            frames,
            from,
            listing,
            next + 1,
            ignores,
        ) + entry_dirs(awaited(frames, from, listing)[next], ignores),
    decreases frames.len() - from,
{
    if from < frames.len() {
        lemma_unread_step(frames, from + 1, inner(listing, frames[from].next), next, ignores);
    } else {
        assert(listing.skip(next).drop_first() == listing.skip(next + 1));
    }
}

proof fn lemma_unread_push(
    frames: Seq<Opened>,
    top: Opened,
    from: int,
    listing: Seq<Node>,
    ignores: Seq<Seq<char>>,
)
    requires
        0 <= from <= frames.len(),
        0 <= top.next < awaited(frames, from, listing).len(),
        entry_dirs(awaited(frames, from, listing)[top.next], ignores) == 1 + listing_dirs(
            inner(awaited(frames, from, listing), top.next),
            ignores,
        ),
    ensures
        unread(frames.push(top), from, listing, ignores) == unread_within(
            frames,
            from,
            listing,
            top.next,
            ignores,
        ),
    decreases frames.len() - from,
{
    let more = frames.push(top);
    if from < frames.len() {
        lemma_unread_push(frames, top, from + 1, inner(listing, frames[from].next), ignores);
    } else {
        assert(listing.skip(top.next).drop_first() == listing.skip(top.next + 1));
        assert(unread(more, from + 1, inner(listing, top.next), ignores) == 1 + listing_dirs(
            inner(listing, top.next),
            ignores,
        ));
    }
}

proof fn lemma_unread_pop(
    frames: Seq<Opened>,
    from: int,
    listing: Seq<Node>,
    ignores: Seq<Seq<char>>,
)
    requires
        0 <= from < frames.len(),
    ensures
        unread_within(
            frames,
            from,
            listing,
            awaited(frames, from, listing).len() as int,
            ignores,
        ) == unread_within(
            frames.drop_last(),
            from,
            listing,
            frames.last().next + 1,
            ignores,
        ),
    decreases frames.len() - from,
{
    if from < frames.len() - 1 {
        lemma_unread_pop(frames, from + 1, inner(listing, frames[from].next), ignores);
    } else {
        let here = inner(listing, frames[from].next);
        assert(awaited(frames, from + 1, here) == here);
        assert(unread_within(frames, from + 1, here, here.len() as int, ignores) == 0);
    }
}

proof fn lemma_chain_push(
    frames: Seq<Opened>,
    top: Opened,
    from: int,
    listing: Seq<Node>,
    ignores: Seq<Seq<char>>,
)
    requires
        0 <= from <= frames.len(),
        chain(frames, from, listing, ignores),
        fits(top, awaited(frames, from, listing), ignores),
    ensures
        chain(frames.push(top), from, listing, ignores),
        awaited(frames.push(top), from, listing) == inner(
            awaited(frames, from, listing),
            top.next,
        ),
    decreases frames.len() - from,
{
    let more = frames.push(top);
    if from == frames.len() {
        assert(awaited(more, from + 1, inner(listing, top.next)) == inner(listing, top.next));
        assert(chain(more, from + 1, inner(listing, top.next), ignores));
    } else {
        lemma_chain_push(frames, top, from + 1, inner(listing, frames[from].next), ignores);
    }
}

proof fn lemma_chain_pop(
    frames: Seq<Opened>,
    from: int,
    listing: Seq<Node>,
    ignores: Seq<Seq<char>>,
)
    requires
        0 <= from < frames.len(),
        chain(frames, from, listing, ignores),
    ensures
        chain(frames.drop_last(), from, listing, ignores),
        fits(frames.last(), awaited(frames.drop_last(), from, listing), ignores),
        awaited(frames, from, listing) == inner(
            awaited(frames.drop_last(), from, listing),
            frames.last().next,
        ),
    decreases frames.len() - from,
{
    if from == frames.len() - 1 {
        assert(awaited(frames, from + 1, inner(listing, frames[from].next)) == inner(
            listing,
            frames[from].next,
        ));
    } else {
        lemma_chain_pop(frames, from + 1, inner(listing, frames[from].next), ignores);
    }
}

/// What is dealt with after one more entry.
proof fn lemma_pruned_next(listing: Seq<Node>, at: int, ignores: Seq<Seq<char>>)
    requires
        0 <= at < listing.len(),
    ensures
        pruned(listing.take(at + 1), ignores) == pruned(listing.take(at), ignores).push(
            pruned_entry(listing[at], ignores),
        ),
{
}

/// One directory that is being read.
struct Frame {
    listing: Vec<Entry>,
    next: usize,
    done: Vec<Entry>,
}

impl Frame {
    spec fn model(self) -> Opened {
        Opened {
            listing: shallow(self.listing.deep_view()),
            next: self.next as int,
            done: self.done.deep_view(),
        }
    }
}

/// The entry as the snapshot keeps it where a walk will not enter it: a
/// file, or a directory that the patterns exclude, without what it holds.
/// `None` for a directory that is to be read.
fn settled(entry: &Entry, ignores: &Vec<String>) -> (kept: Option<Entry>)
    ensures
        kept is None <==> (entry.model() matches Node::Dir { name, markers, .. } && !ignored(
            ignores.deep_view(),
            name,
            markers,
        )),
        kept matches Some(copy) ==> copy.model() == shallow_entry(entry.model()),
{
    match entry {
        Entry::File { name, size } => Some(Entry::File { name: name.clone(), size: *size }),
        Entry::Dir { name, markers, entries } => {
            if should_ignore_dir(ignores, name.as_str(), markers) {
                let copy = Entry::Dir {
                    name: name.clone(),
                    markers: copy_texts(markers),
                    entries: Vec::new(),
                };
                assert(copy.model()->Dir_entries =~= Seq::<Node>::empty());
                Some(copy)
            } else {
                None
            }
        },
    }
}

/// The directory `entry` with `entries` for its listing.
fn filled(entry: &Entry, entries: Vec<Entry>) -> (dir: Entry)
    requires
        entry is Dir,
    ensures
        dir.model() == (Node::Dir {
            name: entry.model()->Dir_name,
            markers: entry.model()->Dir_markers,
            entries: entries.deep_view(),
        }),
{
    match entry {
        Entry::Dir { name, markers, entries: _ } => {
            let dir = Entry::Dir { name: name.clone(), markers: copy_texts(markers), entries };
            assert(dir.model()->Dir_entries =~= entries.deep_view());
            dir
        },
        Entry::File { name, size } => Entry::File { name: name.clone(), size: *size },
    }
}

/// The reading of a tree, directory by directory.
pub struct Scan {
    ignores: Vec<String>,
    frames: Vec<Frame>,
    tree: Option<Vec<Entry>>,
}

impl Scan {
    /// The patterns that decide which directories are read.
    pub closed spec fn ignores(&self) -> Seq<Seq<char>> {
        self.ignores.deep_view()
    }

    /// Whether the whole tree has been read.
    pub closed spec fn finished(&self) -> bool {
        self.tree is Some
    }

    spec fn stack(&self) -> Seq<Opened> {
        self.frames@.map_values(|frame: Frame| frame.model())
    }

    /// What holds of every scan: each directory that is open stands at a
    /// directory to be read, and none is open once the tree is there.
    pub closed spec fn wf(&self) -> bool {
        &&& self.tree is Some ==> self.frames@.len() == 0
        &&& forall|k: int|
            0 <= k < self.frames@.len() ==> waits(
                (#[trigger] self.frames@[k]).model(),
                self.ignores.deep_view(),
            )
    }

    /// Whether all that was supplied so far is true of the tree whose top
    /// listing is `tree`.
    pub closed spec fn agrees(&self, tree: Seq<Node>) -> bool {
        match self.tree {
            Some(read) => read.deep_view() == pruned(tree, self.ignores.deep_view()),
            None => chain(self.stack(), 0, tree, self.ignores.deep_view()),
        }
    }

    /// The listing, in the tree whose top listing is `tree`, of the
    /// directory that the scan asks for.
    pub closed spec fn awaits(&self, tree: Seq<Node>) -> Seq<Node> {
        awaited(self.stack(), 0, tree)
    }

    /// The number of directories still to be listed, if the tree is the
    /// one whose top listing is `tree`.
    pub closed spec fn remaining(&self, tree: Seq<Node>) -> nat {
        if self.tree is Some {
            0
        } else {
            unread(self.stack(), 0, tree, self.ignores.deep_view())
        }
    }

    /// The reading is over exactly when nothing is left to list.
    pub proof fn lemma_finished_when_none_remain(&self, tree: Seq<Node>)
        ensures
            self.finished() <==> self.remaining(tree) == 0,
    {
        lemma_unread_positive(self.stack(), 0, tree, self.ignores.deep_view());
    }

    /// The names that lead from the top of the tree to the directory that
    /// the scan asks for.
    pub closed spec fn pending_path(&self) -> Seq<Seq<char>> {
        names_along(self.stack())
    }

    /// The directory asked for is the one that the pending path names: in
    /// every tree that the scan agrees with, the path leads to it, through
    /// directories that are not excluded.
    pub proof fn lemma_asks_for_pending(&self, tree: Seq<Node>)
        requires
            self.wf(),
            !self.finished(),
            self.agrees(tree),
        ensures
            descends(tree, self.pending_path(), self.awaits(tree), self.ignores()),
    {
        lemma_chain_descends(self.stack(), 0, tree, self.ignores.deep_view());
        assert(names_along(self.stack()).skip(0) == names_along(self.stack()));
    }

    /// Begins the reading of a tree. The first directory asked for is the
    /// top of the tree.
    pub fn new(ignores: Vec<String>) -> (scan: Scan)
        ensures
            scan.wf(),
            !scan.finished(),
            scan.ignores() == ignores.deep_view(),
            forall|tree: Seq<Node>| #[trigger] scan.agrees(tree) && scan.awaits(tree) == tree,
            forall|tree: Seq<Node>| #[trigger]
                scan.remaining(tree) == 1 + listing_dirs(tree, ignores.deep_view()),
    {
        Scan { ignores, frames: Vec::new(), tree: None }
    }

    /// Takes the listing of the directory asked for. Of a directory in it
    /// only the name and the markers count: what it holds is asked for in
    /// its turn, unless the patterns exclude it.
    ///
    /// If all that was supplied before is true of a tree, and `listing` is
    /// what the directory asked for lists in that tree, then all that was
    /// supplied is still true of it, and one directory fewer is left to
    /// list. Once the tree is read, a further listing changes nothing.
    #[verifier::loop_isolation(false)]
    pub fn supply(&mut self, listing: Vec<Entry>)
        requires
            old(self).wf(),
        ensures
            final(self).wf(),
            final(self).ignores() == old(self).ignores(),
            old(self).finished() ==> *final(self) == *old(self),
            forall|tree: Seq<Node>|
                #[trigger] old(self).agrees(tree) && !old(self).finished() && shallow(
                    listing.deep_view(),
                ) == shallow(old(self).awaits(tree)) ==> final(self).agrees(tree)
                    && final(self).remaining(tree) + 1 == old(self).remaining(tree),
    {
        if self.tree.is_some() {
            return ;
        }
        let ghost pats = self.ignores.deep_view();
        let ghost given = shallow(listing.deep_view());
        let ghost start = self.stack();
        let mut top = Frame { listing, next: 0, done: Vec::new() };
        assert forall|tree: Seq<Node>|
            chain(start, 0, tree, pats) && given == shallow(awaited(start, 0, tree)) implies fits(
            top.model(),
            awaited(start, 0, tree),
            pats,
        ) by {
            assert(top.done.deep_view() == pruned(awaited(start, 0, tree).take(0), pats));
        }
        assert forall|tree: Seq<Node>|
            unread_within(start, 0, tree, 0, pats) + 1 == #[trigger] unread(
                start,
                0,
                tree,
                pats,
            ) by {
            lemma_unread_opened(start, 0, tree, pats);
        }
        loop
            invariant
                self.ignores.deep_view() == pats,
                self.tree is None,
                top.next <= top.listing.len(),
                forall|k: int|
                    0 <= k < self.frames@.len() ==> waits(
                        (#[trigger] self.frames@[k]).model(),
                        pats,
                    ),
                forall|tree: Seq<Node>|
                    #[trigger] chain(start, 0, tree, pats) && given == shallow(
                        awaited(start, 0, tree),
                    ) ==> chain(self.stack(), 0, tree, pats) && fits(
                        top.model(),
                        awaited(self.stack(), 0, tree),
                        pats,
                    ) && unread_within(self.stack(), 0, tree, top.next as int, pats) + 1 == unread(
                        start,
                        0,
                        tree,
                        pats,
                    ),
            decreases self.frames.len(), top.listing.len() - top.next,
        {
            let ghost stack = self.stack();
            let ghost before = top.model();
            assert(before.listing.len() == top.listing.len());
            if top.next < top.listing.len() {
                proof {
                    lemma_listing_model(top.listing, top.next as int);
                }
                match settled(&top.listing[top.next], &self.ignores) {
                    Some(entry) => {
                        top.done.push(entry);
                        top.next = top.next + 1;
                        assert(top.done.deep_view() == before.done.push(entry.model()));
                        assert forall|tree: Seq<Node>|
                            #[trigger] chain(start, 0, tree, pats) && given == shallow(
                                awaited(start, 0, tree),
                            ) implies fits(top.model(), awaited(stack, 0, tree), pats)
                            && unread_within(stack, 0, tree, top.next as int, pats) + 1 == unread(
                            start,
                            0,
                            tree,
                            pats,
                        ) by {
                            // The entry is kept as it is listed, and no
                            // directory is to be read for it.
                            let here = awaited(stack, 0, tree);
                            lemma_pruned_next(here, before.next, pats);
                            lemma_unread_step(stack, 0, tree, before.next, pats);
                        }
                    },
                    None => {
                        self.frames.push(top);
                        assert(self.stack() == stack.push(before));
                        assert forall|tree: Seq<Node>|
                            #[trigger] old(self).agrees(tree) && shallow(listing.deep_view())
                                == shallow(old(self).awaits(tree)) implies self.agrees(tree)
                            && self.remaining(tree) + 1 == old(self).remaining(tree) by {
                            // The directory stays open at an entry that is
                            // a directory to be read.
                            let here = awaited(stack, 0, tree);
                            assert(before.listing[before.next] == shallow_entry(here[before.next]));
                            lemma_chain_push(stack, before, 0, tree, pats);
                            lemma_unread_push(stack, before, 0, tree, pats);
                        }
                        return ;
                    },
                }
            } else {
                match self.frames.pop() {
                    None => {
                        assert forall|tree: Seq<Node>|
                            #[trigger] old(self).agrees(tree) && shallow(listing.deep_view())
                                == shallow(old(self).awaits(tree)) implies top.done.deep_view()
                            == pruned(tree, pats) && unread(start, 0, tree, pats) == 1 by {
                            // No directory is open any more: the top of the
                            // tree has been dealt with to its end.
                            assert(tree.take(before.next) == tree);
                        }
                        self.tree = Some(top.done);
                        return ;
                    },
                    Some(parent) => {
                        let ghost above = parent.model();
                        assert(above.listing.len() == parent.listing.len());
                        assert(self.stack() == stack.drop_last());
                        proof {
                            lemma_listing_model(parent.listing, parent.next as int);
                        }
                        let mut parent = parent;
                        let dir = filled(&parent.listing[parent.next], top.done);
                        parent.done.push(dir);
                        parent.next = parent.next + 1;
                        assert(parent.done.deep_view() == above.done.push(dir.model()));
                        assert forall|tree: Seq<Node>|
                            #[trigger] chain(start, 0, tree, pats) && given == shallow(
                                awaited(start, 0, tree),
                            ) implies chain(self.stack(), 0, tree, pats) && fits(
                            parent.model(),
                            awaited(self.stack(), 0, tree),
                            pats,
                        ) && unread_within(self.stack(), 0, tree, parent.next as int, pats) + 1
                            == unread(start, 0, tree, pats) by {
                            // The directory that is closed was dealt with
                            // to its end; it takes its place in the one
                            // that lists it.
                            lemma_chain_pop(stack, 0, tree, pats);
                            lemma_unread_pop(stack, 0, tree, pats);
                            let outer = awaited(stack.drop_last(), 0, tree);
                            let here = awaited(stack, 0, tree);
                            assert(here.take(before.next) == here);
                            lemma_pruned_next(outer, above.next, pats);
                        }
                        top = parent;
                    },
                }
            }
        }
    }

    /// Says which directory to list next: the names that lead to it from
    /// the top of the tree, none for the top itself. `None` once the whole
    /// tree is read.
    pub fn pending(&self) -> (path: Option<Vec<String>>)
        requires
            self.wf(),
        ensures
            path is None <==> self.finished(),
            path matches Some(names) ==> names.deep_view() == self.pending_path(),
    {
        if self.tree.is_some() {
            return None;
        }
        let mut names: Vec<String> = Vec::new();
        let mut k: usize = 0;
        while k < self.frames.len()
            invariant
                k <= self.frames.len(),
                self.wf(),
                names.deep_view() == names_along(self.stack()).take(k as int),
            decreases self.frames.len() - k,
        {
            let frame = &self.frames[k];
            proof {
                lemma_listing_model(frame.listing, frame.next as int);
            }
            let name = match &frame.listing[frame.next] {
                Entry::File { name, size } => name.clone(),
                Entry::Dir { name, markers, entries } => name.clone(),
            };
            names.push(name);
            assert(names_along(self.stack()).take(k + 1) == names_along(self.stack()).take(
                k as int,
            ).push(name@));
            k += 1;
        }
        assert(names_along(self.stack()).take(self.frames.len() as int) == names_along(
            self.stack(),
        ));
        Some(names)
    }

    /// Hands out the snapshot, once the whole tree is read.
    pub fn finish(self) -> (read: Option<Vec<Entry>>)
        ensures
            read is Some <==> self.finished(),
            forall|tree: Seq<Node>|
                #[trigger] self.agrees(tree) && read is Some ==> read->0.deep_view() == pruned(
                    tree,
                    self.ignores(),
                ),
    {
        self.tree
    }
}

} // verus!
