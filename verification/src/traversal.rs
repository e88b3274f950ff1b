//! The walk over a tree: what is counted, what is created and what is copied.

use vstd::prelude::*;
use crate::ignore::{ignored, should_ignore_dir};
use crate::tree::{copy_texts, lemma_listing_model, Entry, Node};

verus! {

/// One step of the copying pass.
pub enum Step {
    /// The directory at `path`, relative to the target, is created with all
    /// its missing parents. The empty path is the target itself.
    CreateDir { path: Seq<Seq<char>> },
    /// The source directory at `path` is passed over.
    Skip { path: Seq<Seq<char>> },
    /// The file at `path` is copied to the same path beneath the target;
    /// `position` is the number of bytes accounted for once it is counted.
    CopyFile { path: Seq<Seq<char>>, size: nat, position: nat },
}

/// The bytes that a walk counts for one entry.
pub open spec fn entry_bytes(node: Node, ignores: Seq<Seq<char>>) -> nat
    decreases node,
{
    match node {
        Node::File { name, size } => size,
        Node::Dir { name, markers, entries } => if ignored(ignores, name, markers) {
            0
        } else {
            listing_bytes(entries, ignores)
        },
    }
}

/// The bytes that a walk counts for a listing.
pub open spec fn listing_bytes(entries: Seq<Node>, ignores: Seq<Seq<char>>) -> nat
    decreases entries,
{
    if entries.len() == 0 {
        0
    } else {
        listing_bytes(entries.drop_last(), ignores) + entry_bytes(entries.last(), ignores)
    }
}

/// The files that a walk counts for one entry.
pub open spec fn entry_files(node: Node, ignores: Seq<Seq<char>>) -> nat
    decreases node,
{
    match node {
        Node::File { name, size } => 1,
        Node::Dir { name, markers, entries } => if ignored(ignores, name, markers) {
            0
        } else {
            listing_files(entries, ignores)
        },
    }
}

/// The files that a walk counts for a listing.
pub open spec fn listing_files(entries: Seq<Node>, ignores: Seq<Seq<char>>) -> nat
    decreases entries,
{
    if entries.len() == 0 {
        0
    } else {
        listing_files(entries.drop_last(), ignores) + entry_files(entries.last(), ignores)
    }
}

/// The steps of the copying pass for one entry of the directory at `prefix`,
/// when `start` bytes have been accounted for before it.
pub open spec fn entry_steps(
    node: Node,
    prefix: Seq<Seq<char>>,
    ignores: Seq<Seq<char>>,
    start: nat,
) -> Seq<Step>
    decreases node,
{
    match node {
        Node::File { name, size } => seq![
            Step::CopyFile { path: prefix.push(name), size, position: start + size },
        ],
        Node::Dir { name, markers, entries } => if ignored(ignores, name, markers) {
            seq![Step::Skip { path: prefix.push(name) }]
        } else {
            dir_steps(entries, prefix.push(name), ignores, start)
        },
    }
}

/// The steps for the entries of the directory at `prefix`, one after the
/// other in the order of the listing.
pub open spec fn listing_steps(
    entries: Seq<Node>,
    prefix: Seq<Seq<char>>,
    ignores: Seq<Seq<char>>,
    start: nat,
) -> Seq<Step>
    decreases entries, 0nat,
{
    if entries.len() == 0 {
        Seq::empty()
    } else {
        let before = entries.drop_last();
        listing_steps(before, prefix, ignores, start) + entry_steps(
            entries.last(),
            prefix,
            ignores,
            start + listing_bytes(before, ignores),
        )
    }
}

/// The steps of the copying pass for the directory at `prefix` whose listing
/// is `entries`: the directory is created, then its entries are dealt with.
pub open spec fn dir_steps(
    entries: Seq<Node>,
    prefix: Seq<Seq<char>>,
    ignores: Seq<Seq<char>>,
    start: nat,
) -> Seq<Step>
    decreases entries, 1nat,
{
    seq![Step::CreateDir { path: prefix }] + listing_steps(entries, prefix, ignores, start)
}

/// One action of the copying pass, to be carried out in the order given.
#[derive(Debug, PartialEq, Eq)]
pub enum Action {
    /// Create the directory at `path` beneath the target, with all its
    /// missing parents. The empty path is the target itself.
    CreateDir { path: Vec<String> },
    /// The source directory at `path` is passed over: worth a message, not
    /// an error.
    Skip { path: Vec<String> },
    /// Copy the file at `path` beneath the source to the same path beneath
    /// the target. `position` is the progress to show for it: the bytes of
    /// all files up to and including this one.
    CopyFile { path: Vec<String>, size: u64, position: u64 },
}

impl DeepView for Action {
    type V = Step;

    open spec fn deep_view(&self) -> Step {
        match self {
            Action::CreateDir { path } => Step::CreateDir { path: path.deep_view() },
            Action::Skip { path } => Step::Skip { path: path.deep_view() },
            Action::CopyFile { path, size, position } => Step::CopyFile {
                path: path.deep_view(),
                size: *size as nat,
                position: *position as nat,
            },
        }
    }
}

/// What a walk has counted.
#[derive(Debug, Clone, Copy, PartialEq, Eq)]
pub struct TraversalStats {
    pub total_bytes: u64,
    pub total_files: u64,
}

/// The outcome of a walk: the totals, and in copy mode the actions.
#[derive(Debug, PartialEq, Eq)]
pub struct Traversal {
    pub stats: TraversalStats,
    pub actions: Vec<Action>,
}

/// Why a walk gave no result.
#[derive(Debug, Clone, Copy, PartialEq, Eq)]
pub enum TraversalError {
    /// The number of files or of their bytes does not fit in 64 bits.
    TotalsOverflow,
}

/// A walk counts no fewer bytes and files for a listing than for the
/// entries it begins with.
proof fn lemma_totals_grow(entries: Seq<Node>, ignores: Seq<Seq<char>>, count: int)
    requires
        0 <= count <= entries.len(),
    ensures
        listing_bytes(entries.take(count), ignores) <= listing_bytes(entries, ignores),
        listing_files(entries.take(count), ignores) <= listing_files(entries, ignores),
    decreases entries.len(),
{
    if count == entries.len() {
        assert(entries.take(count) == entries);
    } else {
        lemma_totals_grow(entries.drop_last(), ignores, count);
        assert(entries.drop_last().take(count) == entries.take(count));
    }
}

/// The path of the entry called `name` in the directory at `prefix`.
fn child_path(prefix: &Vec<String>, name: &String) -> (path: Vec<String>)
    ensures
        path.deep_view() == prefix.deep_view().push(name@),
{
    let mut path: Vec<String> = Vec::new();
    let mut i: usize = 0;
    while i < prefix.len()
        invariant
            i <= prefix.len(),
            path.deep_view() == prefix.deep_view().take(i as int),
        decreases prefix.len() - i,
    {
        path.push(prefix[i].clone());
        assert(path.deep_view() == prefix.deep_view().take(i as int).push(prefix[i as int]@));
        i += 1;
    }
    path.push(name.clone());
    assert(prefix.deep_view().take(prefix.len() as int) == prefix.deep_view());
    path
}

/// Walks the listing of the directory at `prefix`, adding what it counts to
/// `stats` and, in copy mode, what is to be done to `actions`.
fn walk(
    entries: &Vec<Entry>,
    prefix: &Vec<String>,
    ignores: &Vec<String>,
    should_copy: bool,
    stats: &mut TraversalStats,
    actions: &mut Vec<Action>,
) -> (done: Result<(), TraversalError>)
    ensures
        match done {
            Ok(()) => {
                &&& final(stats).total_bytes == old(stats).total_bytes + listing_bytes(
                    entries.deep_view(),
                    ignores.deep_view(),
                )
                &&& final(stats).total_files == old(stats).total_files + listing_files(
                    entries.deep_view(),
                    ignores.deep_view(),
                )
                &&& final(actions).deep_view() == old(actions).deep_view() + (if should_copy {
                    dir_steps(
                        entries.deep_view(),
                        prefix.deep_view(),
                        ignores.deep_view(),
                        old(stats).total_bytes as nat,
                    )
                } else {
                    Seq::empty()
                })
            },
            Err(_) => {
                ||| old(stats).total_bytes + listing_bytes(entries.deep_view(), ignores.deep_view())
                    > u64::MAX
                ||| old(stats).total_files + listing_files(entries.deep_view(), ignores.deep_view())
                    > u64::MAX
            },
        },
    decreases entries,
{
    let ghost all = entries.deep_view();
    let ghost at = prefix.deep_view();
    let ghost pats = ignores.deep_view();
    let ghost start = old(stats).total_bytes as nat;
    let ghost given = old(actions).deep_view();
    if should_copy {
        actions.push(Action::CreateDir { path: copy_texts(prefix) });
    }
    let mut i: usize = 0;
    while i < entries.len()
        invariant
            i <= entries.len(),
            all == entries.deep_view(),
            at == prefix.deep_view(),
            pats == ignores.deep_view(),
            start == old(stats).total_bytes,
            given == old(actions).deep_view(),
            stats.total_bytes == start + listing_bytes(all.take(i as int), pats),
            stats.total_files == old(stats).total_files + listing_files(all.take(i as int), pats),
            actions.deep_view() == given + (if should_copy {
                seq![Step::CreateDir { path: at }] + listing_steps(
                    all.take(i as int),
                    at,
                    pats,
                    start,
                )
            } else {
                Seq::empty()
            }),
        decreases entries.len() - i,
    {
        let ghost seen = all.take(i as int);
        let ghost bytes_before = stats.total_bytes;
        let ghost acts_before = actions.deep_view();
        proof {
            lemma_listing_model(*entries, i as int);
            lemma_totals_grow(all, pats, i + 1);
            assert(all.take(i + 1).drop_last() == seen);
            assert(listing_bytes(all.take(i + 1), pats) == listing_bytes(seen, pats) + entry_bytes(
                all[i as int],
                pats,
            ));
            assert(listing_files(all.take(i + 1), pats) == listing_files(seen, pats) + entry_files(
                all[i as int],
                pats,
            ));
        }
        match &entries[i] {
            Entry::File { name, size } => {
                let bytes = match stats.total_bytes.checked_add(*size) {
                    Some(sum) => sum,
                    None => {
                        return Err(TraversalError::TotalsOverflow);
                    },
                };
                let files = match stats.total_files.checked_add(1) {
                    Some(sum) => sum,
                    None => {
                        return Err(TraversalError::TotalsOverflow);
                    },
                };
                stats.total_bytes = bytes;
                stats.total_files = files;
                if should_copy {
                    let path = child_path(prefix, name);
                    actions.push(Action::CopyFile { path, size: *size, position: bytes });
                    assert(actions.deep_view() == acts_before + entry_steps(
                        all[i as int],
                        at,
                        pats,
                        bytes_before as nat,
                    ));
                }
            },
            Entry::Dir { name, markers, entries: inner } => {
                if should_ignore_dir(ignores, name.as_str(), markers) {
                    if should_copy {
                        actions.push(Action::Skip { path: child_path(prefix, name) });
                        assert(actions.deep_view() == acts_before + entry_steps(
                            all[i as int],
                            at,
                            pats,
                            bytes_before as nat,
                        ));
                    }
                } else {
                    let below = child_path(prefix, name);
                    walk(inner, &below, ignores, should_copy, stats, actions)?;
                }
            },
        }
        i += 1;
    }
    assert(all.take(entries.len() as int) == all);
    Ok(())
}

/// Walks the tree whose top listing is `entries`.
///
/// Each entry is taken in the order of its listing. A directory that
/// `ignores` excludes is passed over with all that it holds; any other
/// directory is entered; anything else is a file and is counted. The totals
/// are those of the files reached. With `should_copy` the result also holds
/// the actions of the copying pass: every directory entered is created at
/// the same relative path before anything is copied into it, and every file
/// counted is copied to its relative path. Without it nothing is to be
/// done and `actions` is empty.
///
/// The walk fails only where a total does not fit in 64 bits.
pub fn copy_dir_all(
    entries: &Vec<Entry>,
    ignores: &Vec<String>,
    should_copy: bool,
) -> (done: Result<Traversal, TraversalError>)
    ensures
        match done {
            Ok(walked) => {
                &&& walked.stats.total_bytes == listing_bytes(
                    entries.deep_view(),
                    ignores.deep_view(),
                )
                &&& walked.stats.total_files == listing_files(
                    entries.deep_view(),
                    ignores.deep_view(),
                )
                &&& walked.actions.deep_view() == (if should_copy {
                    dir_steps(entries.deep_view(), Seq::empty(), ignores.deep_view(), 0)
                } else {
                    Seq::empty()
                })
            },
            Err(error) => {
                &&& error == TraversalError::TotalsOverflow
                &&& (listing_bytes(entries.deep_view(), ignores.deep_view()) > u64::MAX
                    || listing_files(entries.deep_view(), ignores.deep_view()) > u64::MAX)
            },
        },
{
    let mut stats = TraversalStats { total_bytes: 0, total_files: 0 };
    let mut actions: Vec<Action> = Vec::new();
    let root: Vec<String> = Vec::new();
    assert(root.deep_view() == Seq::<Seq<char>>::empty());
    match walk(entries, &root, ignores, should_copy, &mut stats, &mut actions) {
        Ok(()) => Ok(Traversal { stats, actions }),
        Err(error) => Err(error),
    }
}

} // verus!
