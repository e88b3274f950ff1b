//! What holds of every tree and every list of patterns.

use vstd::prelude::*;
use vstd::utf8::*;
use crate::ignore::{ignored, pattern_matches, pattern_of_line, patterns_of, split_lines};
use crate::traversal::{
    dir_steps, entry_bytes, entry_files, entry_steps, listing_bytes, listing_files, listing_steps,
    Step,
};
use crate::tree::{entry_dirs, listing_dirs, pruned, pruned_entry, Node};

verus! {

/// The bytes that a step copies.
pub open spec fn step_bytes(step: Step) -> nat {
    match step {
        Step::CopyFile { path, size, position } => size,
        _ => 0,
    }
}

/// The bytes that a sequence of steps copies.
pub open spec fn copied_bytes(steps: Seq<Step>) -> nat
    decreases steps.len(),
{
    if steps.len() == 0 {
        0
    } else {
        copied_bytes(steps.drop_last()) + step_bytes(steps.last())
    }
}

/// The number of files that a sequence of steps copies.
pub open spec fn copied_files(steps: Seq<Step>) -> nat
    decreases steps.len(),
{
    if steps.len() == 0 {
        0
    } else {
        copied_files(steps.drop_last()) + if steps.last() is CopyFile {
            1nat
        } else {
            0nat
        }
    }
}

/// What two runs of steps copy is what the first copies and what the
/// second copies.
proof fn lemma_copied_concat(first: Seq<Step>, second: Seq<Step>)
    ensures
        copied_bytes(first + second) == copied_bytes(first) + copied_bytes(second),
        copied_files(first + second) == copied_files(first) + copied_files(second),
    decreases second.len(),
{
    if second.len() > 0 {
        lemma_copied_concat(first, second.drop_last());
        assert((first + second).drop_last() == first + second.drop_last());
    }
}

/// What a single step copies.
proof fn lemma_copied_single(step: Step)
    ensures
        copied_bytes(seq![step]) == step_bytes(step),
        copied_files(seq![step]) == if step is CopyFile {
            1nat
        } else {
            0nat
        },
{
    reveal_with_fuel(copied_bytes, 2);
    reveal_with_fuel(copied_files, 2);
}

proof fn lemma_entry_totals(node: Node, prefix: Seq<Seq<char>>, ignores: Seq<Seq<char>>, start: nat)
    ensures
        copied_bytes(entry_steps(node, prefix, ignores, start)) == entry_bytes(node, ignores),
        copied_files(entry_steps(node, prefix, ignores, start)) == entry_files(node, ignores),
    decreases node,
{
    match node {
        Node::File { name, size } => {
            lemma_copied_single(entry_steps(node, prefix, ignores, start)[0]);
        },
        Node::Dir { name, markers, entries } => {
            if ignored(ignores, name, markers) {
                lemma_copied_single(Step::Skip { path: prefix.push(name) });
            } else {
                lemma_dir_totals(entries, prefix.push(name), ignores, start);
            }
        },
    }
}

proof fn lemma_listing_totals(
    entries: Seq<Node>,
    prefix: Seq<Seq<char>>,
    ignores: Seq<Seq<char>>,
    start: nat,
)
    ensures
        copied_bytes(listing_steps(entries, prefix, ignores, start)) == listing_bytes(
            entries,
            ignores,
        ),
        copied_files(listing_steps(entries, prefix, ignores, start)) == listing_files(
            entries,
            ignores,
        ),
    decreases entries, 0nat,
{
    if entries.len() > 0 {
        let before = entries.drop_last();
        let next = start + listing_bytes(before, ignores);
        lemma_listing_totals(before, prefix, ignores, start);
        lemma_entry_totals(entries.last(), prefix, ignores, next);
        lemma_copied_concat(
            listing_steps(before, prefix, ignores, start),
            entry_steps(entries.last(), prefix, ignores, next),
        );
    }
}

proof fn lemma_dir_totals(
    entries: Seq<Node>,
    prefix: Seq<Seq<char>>,
    ignores: Seq<Seq<char>>,
    start: nat,
)
    ensures
        copied_bytes(dir_steps(entries, prefix, ignores, start)) == listing_bytes(entries, ignores),
        copied_files(dir_steps(entries, prefix, ignores, start)) == listing_files(entries, ignores),
    decreases entries, 1nat,
{
    let create = seq![Step::CreateDir { path: prefix }];
    lemma_listing_totals(entries, prefix, ignores, start);
    lemma_copied_concat(create, listing_steps(entries, prefix, ignores, start));
    lemma_copied_single(Step::CreateDir { path: prefix });
}

/// The discovery pass counts exactly what the copying pass copies: as many
/// files, and as many bytes as the sizes of the copied files add up to.
pub proof fn law_discovery_matches_copy(entries: Seq<Node>, ignores: Seq<Seq<char>>)
    ensures
        listing_bytes(entries, ignores) == copied_bytes(
            dir_steps(entries, Seq::empty(), ignores, 0),
        ),
        listing_files(entries, ignores) == copied_files(
            dir_steps(entries, Seq::empty(), ignores, 0),
        ),
{
    lemma_dir_totals(entries, Seq::empty(), ignores, 0);
}

/// Every copy among `steps` shows as its position the bytes of the copies
/// up to and including it, on top of the `start` bytes that came before.
pub open spec fn positions_add_up(steps: Seq<Step>, start: nat) -> bool {
    forall|k: int|
        0 <= k < steps.len() ==> (#[trigger] steps[k] matches Step::CopyFile { position, .. }
            ==> position == start + copied_bytes(steps.take(k + 1)))
}

proof fn lemma_positions_concat(first: Seq<Step>, second: Seq<Step>, start: nat)
    requires
        positions_add_up(first, start),
        positions_add_up(second, start + copied_bytes(first)),
    ensures
        positions_add_up(first + second, start),
{
    let both = first + second;
    assert forall|k: int| 0 <= k < both.len() implies (#[trigger] both[k] matches Step::CopyFile {
        position,
        ..
    } ==> position == start + copied_bytes(both.take(k + 1))) by {
        if k < first.len() {
            assert(both.take(k + 1) == first.take(k + 1));
        } else {
            let at = k - first.len();
            assert(both.take(k + 1) == first + second.take(at + 1));
            lemma_copied_concat(first, second.take(at + 1));
        }
    }
}

proof fn lemma_positions_single(step: Step, start: nat)
    requires
        step matches Step::CopyFile { size, position, .. } ==> position == start + size,
    ensures
        positions_add_up(seq![step], start),
{
    lemma_copied_single(step);
    assert(seq![step].take(1) == seq![step]);
}

proof fn lemma_entry_positions(
    node: Node,
    prefix: Seq<Seq<char>>,
    ignores: Seq<Seq<char>>,
    start: nat,
)
    ensures
        positions_add_up(entry_steps(node, prefix, ignores, start), start),
    decreases node,
{
    match node {
        Node::File { name, size } => {
            lemma_positions_single(entry_steps(node, prefix, ignores, start)[0], start);
        },
        Node::Dir { name, markers, entries } => {
            if ignored(ignores, name, markers) {
                lemma_positions_single(Step::Skip { path: prefix.push(name) }, start);
            } else {
                lemma_dir_positions(entries, prefix.push(name), ignores, start);
            }
        },
    }
}

proof fn lemma_listing_positions(
    entries: Seq<Node>,
    prefix: Seq<Seq<char>>,
    ignores: Seq<Seq<char>>,
    start: nat,
)
    ensures
        positions_add_up(listing_steps(entries, prefix, ignores, start), start),
    decreases entries, 0nat,
{
    if entries.len() > 0 {
        let before = entries.drop_last();
        let next = start + listing_bytes(before, ignores);
        lemma_listing_positions(before, prefix, ignores, start);
        lemma_entry_positions(entries.last(), prefix, ignores, next);
        lemma_listing_totals(before, prefix, ignores, start);
        lemma_positions_concat(
            listing_steps(before, prefix, ignores, start),
            entry_steps(entries.last(), prefix, ignores, next),
            start,
        );
    }
}

proof fn lemma_dir_positions(
    entries: Seq<Node>,
    prefix: Seq<Seq<char>>,
    ignores: Seq<Seq<char>>,
    start: nat,
)
    ensures
        positions_add_up(dir_steps(entries, prefix, ignores, start), start),
    decreases entries, 1nat,
{
    let create = Step::CreateDir { path: prefix };
    lemma_positions_single(create, start);
    lemma_copied_single(create);
    lemma_listing_positions(entries, prefix, ignores, start);
    lemma_positions_concat(seq![create], listing_steps(entries, prefix, ignores, start), start);
}

/// The progress of the copying pass: the position shown with a file is the
/// sum of the sizes of the files copied up to and including it.
pub proof fn law_progress_adds_up(entries: Seq<Node>, ignores: Seq<Seq<char>>)
    ensures
        positions_add_up(dir_steps(entries, Seq::empty(), ignores, 0), 0),
{
    lemma_dir_positions(entries, Seq::empty(), ignores, 0);
}

/// The progress of the copying pass never falls, and never passes the bytes
/// that the discovery pass counted.
pub proof fn law_progress_never_falls(
    entries: Seq<Node>,
    ignores: Seq<Seq<char>>,
    earlier: int,
    later: int,
)
    requires
        0 <= earlier <= later < dir_steps(entries, Seq::empty(), ignores, 0).len(),
        dir_steps(entries, Seq::empty(), ignores, 0)[earlier] is CopyFile,
        dir_steps(entries, Seq::empty(), ignores, 0)[later] is CopyFile,
    ensures
        dir_steps(entries, Seq::empty(), ignores, 0)[earlier]->position <= dir_steps(
            entries,
            Seq::empty(),
            ignores,
            0,
        )[later]->position,
        dir_steps(entries, Seq::empty(), ignores, 0)[later]->position <= listing_bytes(
            entries,
            ignores,
        ),
{
    let steps = dir_steps(entries, Seq::empty(), ignores, 0);
    lemma_dir_positions(entries, Seq::empty(), ignores, 0);
    lemma_dir_totals(entries, Seq::empty(), ignores, 0);
    lemma_copied_concat(steps.take(earlier + 1), steps.subrange(earlier + 1, later + 1));
    assert(steps.take(earlier + 1) + steps.subrange(earlier + 1, later + 1) == steps.take(
        later + 1,
    ));
    lemma_copied_concat(steps.take(later + 1), steps.skip(later + 1));
    assert(steps.take(later + 1) + steps.skip(later + 1) == steps);
}

/// Whether `step` copies a file of `size` bytes to `path`.
pub open spec fn copy_of(step: Step, path: Seq<Seq<char>>, size: nat) -> bool {
    step matches Step::CopyFile { path: to, size: bytes, .. } && to == path && bytes == size
}

/// Whether some step of `steps` copies a file of `size` bytes to `path`.
pub open spec fn copies(steps: Seq<Step>, path: Seq<Seq<char>>, size: nat) -> bool {
    exists|k: int| 0 <= k < steps.len() && #[trigger] copy_of(steps[k], path, size)
}

/// Whether `path` leads from the directory that lists `node` to a file of
/// `size` bytes, through `node` and through directories that `ignores`
/// does not exclude.
pub open spec fn entry_reaches(
    node: Node,
    path: Seq<Seq<char>>,
    size: nat,
    ignores: Seq<Seq<char>>,
) -> bool
    decreases node,
{
    match node {
        Node::File { name, size: bytes } => path.len() == 1 && path[0] == name && bytes == size,
        Node::Dir { name, markers, entries } => {
            &&& path.len() > 0
            &&& path[0] == name
            &&& !ignored(ignores, name, markers)
            &&& reaches_file(entries, path.skip(1), size, ignores)
        },
    }
}

/// Whether `path`, taken from the directory whose listing is `entries`,
/// names a file of `size` bytes and passes through no directory that
/// `ignores` excludes.
pub open spec fn reaches_file(
    entries: Seq<Node>,
    path: Seq<Seq<char>>,
    size: nat,
    ignores: Seq<Seq<char>>,
) -> bool
    decreases entries,
{
    exists|i: int|
        0 <= i < entries.len() && entry_reaches(#[trigger] entries[i], path, size, ignores)
}

proof fn lemma_copies_concat(
    first: Seq<Step>,
    second: Seq<Step>,
    path: Seq<Seq<char>>,
    size: nat,
)
    ensures
        copies(first + second, path, size) <==> copies(first, path, size) || copies(
            second,
            path,
            size,
        ),
{
    let both = first + second;
    if copies(both, path, size) {
        let k = choose|k: int| 0 <= k < both.len() && #[trigger] copy_of(both[k], path, size);
        if k < first.len() {
            assert(copy_of(first[k], path, size));
        } else {
            assert(copy_of(second[k - first.len()], path, size));
        }
    }
    if copies(first, path, size) {
        let k = choose|k: int| 0 <= k < first.len() && #[trigger] copy_of(first[k], path, size);
        assert(copy_of(both[k], path, size));
    }
    if copies(second, path, size) {
        let k = choose|k: int| 0 <= k < second.len() && #[trigger] copy_of(second[k], path, size);
        assert(copy_of(both[k + first.len()], path, size));
    }
}

proof fn lemma_copies_single(step: Step, path: Seq<Seq<char>>, size: nat)
    ensures
        copies(seq![step], path, size) <==> copy_of(step, path, size),
{
    if copy_of(step, path, size) {
        assert(copy_of(seq![step][0], path, size));
    }
}

proof fn lemma_entry_copies(
    node: Node,
    prefix: Seq<Seq<char>>,
    ignores: Seq<Seq<char>>,
    start: nat,
    path: Seq<Seq<char>>,
    size: nat,
)
    ensures
        copies(entry_steps(node, prefix, ignores, start), path, size) <==> prefix.is_prefix_of(path)
            && entry_reaches(node, path.skip(prefix.len() as int), size, ignores),
    decreases node,
{
    let rest = path.skip(prefix.len() as int);
    match node {
        Node::File { name, size: bytes } => {
            let step = Step::CopyFile {
                path: prefix.push(name),
                size: bytes,
                position: start + bytes,
            };
            lemma_copies_single(step, path, size);
            if prefix.is_prefix_of(path) && entry_reaches(node, rest, size, ignores) {
                assert(path == prefix.push(name));
            }
        },
        Node::Dir { name, markers, entries } => {
            if ignored(ignores, name, markers) {
                lemma_copies_single(Step::Skip { path: prefix.push(name) }, path, size);
            } else {
                let inner = prefix.push(name);
                lemma_dir_copies(entries, inner, ignores, start, path, size);
                if inner.is_prefix_of(path) {
                    assert(prefix == path.subrange(0, prefix.len() as int));
                    assert(rest[0] == inner[prefix.len() as int]);
                }
                if prefix.is_prefix_of(path) && rest.len() > 0 && rest[0] == name {
                    assert(rest.skip(1) == path.skip(inner.len() as int));
                }
            }
        },
    }
}

proof fn lemma_listing_copies(
    entries: Seq<Node>,
    prefix: Seq<Seq<char>>,
    ignores: Seq<Seq<char>>,
    start: nat,
    path: Seq<Seq<char>>,
    size: nat,
)
    ensures
        copies(listing_steps(entries, prefix, ignores, start), path, size) <==> prefix.is_prefix_of(
            path,
        ) && reaches_file(entries, path.skip(prefix.len() as int), size, ignores),
    decreases entries, 0nat,
{
    let rest = path.skip(prefix.len() as int);
    if entries.len() > 0 {
        let before = entries.drop_last();
        let next = start + listing_bytes(before, ignores);
        lemma_listing_copies(before, prefix, ignores, start, path, size);
        lemma_entry_copies(entries.last(), prefix, ignores, next, path, size);
        lemma_copies_concat(
            listing_steps(before, prefix, ignores, start),
            entry_steps(entries.last(), prefix, ignores, next),
            path,
            size,
        );
        if reaches_file(entries, rest, size, ignores) {
            let i = choose|i: int|
                0 <= i < entries.len() && entry_reaches(#[trigger] entries[i], rest, size, ignores);
            if i < before.len() {
                assert(entry_reaches(before[i], rest, size, ignores));
            }
        }
        if reaches_file(before, rest, size, ignores) {
            let i = choose|i: int|
                0 <= i < before.len() && entry_reaches(#[trigger] before[i], rest, size, ignores);
            assert(entry_reaches(entries[i], rest, size, ignores));
        }
    }
}

proof fn lemma_dir_copies(
    entries: Seq<Node>,
    prefix: Seq<Seq<char>>,
    ignores: Seq<Seq<char>>,
    start: nat,
    path: Seq<Seq<char>>,
    size: nat,
)
    ensures
        copies(dir_steps(entries, prefix, ignores, start), path, size) <==> prefix.is_prefix_of(
            path,
        ) && reaches_file(entries, path.skip(prefix.len() as int), size, ignores),
    decreases entries, 1nat,
{
    let create = Step::CreateDir { path: prefix };
    lemma_copies_single(create, path, size);
    lemma_listing_copies(entries, prefix, ignores, start, path, size);
    lemma_copies_concat(
        seq![create],
        listing_steps(entries, prefix, ignores, start),
        path,
        size,
    );
}

/// What a copy puts beneath the target: a file is copied to a path exactly
/// when the same path beneath the source names that file and passes through
/// no directory that the patterns exclude.
pub proof fn law_copies_what_is_reached(
    entries: Seq<Node>,
    ignores: Seq<Seq<char>>,
    path: Seq<Seq<char>>,
    size: nat,
)
    ensures
        copies(dir_steps(entries, Seq::empty(), ignores, 0), path, size) <==> reaches_file(
            entries,
            path,
            size,
            ignores,
        ),
{
    lemma_dir_copies(entries, Seq::empty(), ignores, 0, path, size);
    assert(path.skip(0) == path);
}

/// The directories that a step enters, from the top of the tree down: all
/// of the path of a directory that is created, and the parents of a file
/// that is copied or of a directory that is passed over.
pub open spec fn entered(step: Step) -> Seq<Seq<char>> {
    match step {
        Step::CreateDir { path } => path,
        Step::Skip { path } => path.drop_last(),
        Step::CopyFile { path, size, position } => path.drop_last(),
    }
}

/// Whether `dirs` lies at or beneath `prefix` and names no pattern of
/// `ignores` from there on.
pub open spec fn clear_beneath(
    dirs: Seq<Seq<char>>,
    prefix: Seq<Seq<char>>,
    ignores: Seq<Seq<char>>,
) -> bool {
    &&& prefix.is_prefix_of(dirs)
    &&& forall|j: int| prefix.len() <= j < dirs.len() ==> !ignores.contains(#[trigger] dirs[j])
}

/// Whether every step of `steps` stays at or beneath `prefix` and from
/// there on enters no directory that a pattern of `ignores` names.
pub open spec fn stays_clear(
    steps: Seq<Step>,
    prefix: Seq<Seq<char>>,
    ignores: Seq<Seq<char>>,
) -> bool {
    forall|k: int|
        0 <= k < steps.len() ==> clear_beneath(entered(#[trigger] steps[k]), prefix, ignores)
}

proof fn lemma_clear_concat(
    first: Seq<Step>,
    second: Seq<Step>,
    prefix: Seq<Seq<char>>,
    ignores: Seq<Seq<char>>,
)
    requires
        stays_clear(first, prefix, ignores),
        stays_clear(second, prefix, ignores),
    ensures
        stays_clear(first + second, prefix, ignores),
{
    let both = first + second;
    assert forall|k: int| 0 <= k < both.len() implies clear_beneath(
        entered(#[trigger] both[k]),
        prefix,
        ignores,
    ) by {
        if k < first.len() {
            assert(both[k] == first[k]);
        } else {
            assert(both[k] == second[k - first.len()]);
        }
    }
}

/// A directory whose name is a pattern is excluded, whatever else holds.
proof fn lemma_named_is_ignored(
    ignores: Seq<Seq<char>>,
    name: Seq<char>,
    markers: Seq<Seq<char>>,
)
    requires
        ignores.contains(name),
    ensures
        ignored(ignores, name, markers),
{
    let i = choose|i: int| 0 <= i < ignores.len() && ignores[i] == name;
    assert(pattern_matches(ignores[i], name, markers));
}

proof fn lemma_entry_clear(
    node: Node,
    prefix: Seq<Seq<char>>,
    ignores: Seq<Seq<char>>,
    start: nat,
)
    ensures
        stays_clear(entry_steps(node, prefix, ignores, start), prefix, ignores),
    decreases node,
{
    match node {
        Node::File { name, size } => {
            assert(prefix.push(name).drop_last() == prefix);
        },
        Node::Dir { name, markers, entries } => {
            if ignored(ignores, name, markers) {
                assert(prefix.push(name).drop_last() == prefix);
            } else {
                let inner = prefix.push(name);
                let steps = dir_steps(entries, inner, ignores, start);
                lemma_dir_clear(entries, inner, ignores, start);
                if ignores.contains(name) {
                    lemma_named_is_ignored(ignores, name, markers);
                }
                assert forall|k: int| 0 <= k < steps.len() implies clear_beneath(
                    entered(#[trigger] steps[k]),
                    prefix,
                    ignores,
                ) by {
                    let dirs = entered(steps[k]);
                    assert(dirs[prefix.len() as int] == inner[prefix.len() as int]);
                }
            }
        },
    }
}

proof fn lemma_listing_clear(
    entries: Seq<Node>,
    prefix: Seq<Seq<char>>,
    ignores: Seq<Seq<char>>,
    start: nat,
)
    ensures
        stays_clear(listing_steps(entries, prefix, ignores, start), prefix, ignores),
    decreases entries, 0nat,
{
    if entries.len() > 0 {
        let before = entries.drop_last();
        let next = start + listing_bytes(before, ignores);
        lemma_listing_clear(before, prefix, ignores, start);
        lemma_entry_clear(entries.last(), prefix, ignores, next);
        lemma_clear_concat(
            listing_steps(before, prefix, ignores, start),
            entry_steps(entries.last(), prefix, ignores, next),
            prefix,
            ignores,
        );
    }
}

proof fn lemma_dir_clear(
    entries: Seq<Node>,
    prefix: Seq<Seq<char>>,
    ignores: Seq<Seq<char>>,
    start: nat,
)
    ensures
        stays_clear(dir_steps(entries, prefix, ignores, start), prefix, ignores),
    decreases entries, 1nat,
{
    lemma_listing_clear(entries, prefix, ignores, start);
    lemma_clear_concat(
        seq![Step::CreateDir { path: prefix }],
        listing_steps(entries, prefix, ignores, start),
        prefix,
        ignores,
    );
}

/// A pattern that is a directory's name keeps that directory and all
/// beneath it out of the copy: no directory of that name is created, and
/// nothing is copied from one or from beneath one. They are out of the
/// totals of the discovery pass too, which counts what is copied and no
/// more.
pub proof fn law_named_directories_stay_out(entries: Seq<Node>, ignores: Seq<Seq<char>>)
    ensures
        stays_clear(dir_steps(entries, Seq::empty(), ignores, 0), Seq::empty(), ignores),
        listing_bytes(entries, ignores) == copied_bytes(
            dir_steps(entries, Seq::empty(), ignores, 0),
        ),
        listing_files(entries, ignores) == copied_files(
            dir_steps(entries, Seq::empty(), ignores, 0),
        ),
{
    lemma_dir_clear(entries, Seq::empty(), ignores, 0);
    lemma_dir_totals(entries, Seq::empty(), ignores, 0);
}

/// Whether the directory that the step at `at` copies into was created by
/// an earlier step.
pub open spec fn made_before(steps: Seq<Step>, at: int) -> bool {
    exists|j: int|
        0 <= j < at && #[trigger] steps[j] == (Step::CreateDir { path: entered(steps[at]) })
}

/// Whether every copy among `steps` goes into `given` or into a directory
/// that an earlier step created.
pub open spec fn copies_into_made(steps: Seq<Step>, given: Seq<Seq<char>>) -> bool {
    forall|k: int|
        0 <= k < steps.len() && #[trigger] steps[k] is CopyFile ==> entered(steps[k]) == given
            || made_before(steps, k)
}

proof fn lemma_made_concat(first: Seq<Step>, second: Seq<Step>, given: Seq<Seq<char>>)
    requires
        copies_into_made(first, given),
        copies_into_made(second, given),
    ensures
        copies_into_made(first + second, given),
{
    let both = first + second;
    assert forall|k: int| 0 <= k < both.len() && #[trigger] both[k] is CopyFile implies entered(
        both[k],
    ) == given || made_before(both, k) by {
        if k < first.len() {
            if made_before(first, k) {
                let j = choose|j: int|
                    0 <= j < k && #[trigger] first[j] == (Step::CreateDir {
                        path: entered(first[k]),
                    });
                assert(both[j] == first[j]);
            }
        } else {
            let at = k - first.len();
            if made_before(second, at) {
                let j = choose|j: int|
                    0 <= j < at && #[trigger] second[j] == (Step::CreateDir {
                        path: entered(second[at]),
                    });
                assert(both[j + first.len()] == second[j]);
            }
        }
    }
}

proof fn lemma_entry_made(node: Node, prefix: Seq<Seq<char>>, ignores: Seq<Seq<char>>, start: nat)
    ensures
        copies_into_made(entry_steps(node, prefix, ignores, start), prefix),
    decreases node,
{
    match node {
        Node::File { name, size } => {
            assert(prefix.push(name).drop_last() == prefix);
        },
        Node::Dir { name, markers, entries } => {
            if !ignored(ignores, name, markers) {
                // What lies deeper is made on the way down.
                lemma_dir_made(entries, prefix.push(name), ignores, start);
            }
        },
    }
}

proof fn lemma_listing_made(
    entries: Seq<Node>,
    prefix: Seq<Seq<char>>,
    ignores: Seq<Seq<char>>,
    start: nat,
)
    ensures
        copies_into_made(listing_steps(entries, prefix, ignores, start), prefix),
    decreases entries, 0nat,
{
    if entries.len() > 0 {
        let before = entries.drop_last();
        let next = start + listing_bytes(before, ignores);
        lemma_listing_made(before, prefix, ignores, start);
        lemma_entry_made(entries.last(), prefix, ignores, next);
        lemma_made_concat(
            listing_steps(before, prefix, ignores, start),
            entry_steps(entries.last(), prefix, ignores, next),
            prefix,
        );
    }
}

proof fn lemma_dir_made(
    entries: Seq<Node>,
    prefix: Seq<Seq<char>>,
    ignores: Seq<Seq<char>>,
    start: nat,
)
    ensures
        forall|k: int|
            0 <= k < dir_steps(entries, prefix, ignores, start).len() && #[trigger] dir_steps(
                entries,
                prefix,
                ignores,
                start,
            )[k] is CopyFile ==> made_before(dir_steps(entries, prefix, ignores, start), k),
    decreases entries, 1nat,
{
    let inner = listing_steps(entries, prefix, ignores, start);
    let steps = dir_steps(entries, prefix, ignores, start);
    lemma_listing_made(entries, prefix, ignores, start);
    assert forall|k: int|
        0 <= k < steps.len() && #[trigger] steps[k] is CopyFile implies made_before(steps, k) by {
        if entered(inner[k - 1]) == prefix {
            assert(steps[0] == (Step::CreateDir { path: entered(steps[k]) }));
        } else {
            let j = choose|j: int|
                0 <= j < k - 1 && #[trigger] inner[j] == (Step::CreateDir {
                    path: entered(inner[k - 1]),
                });
            assert(steps[j + 1] == inner[j]);
        }
    }
}

/// No file is copied before its place is made: ahead of every copy comes
/// the step that creates the directory it goes into.
pub proof fn law_directories_come_first(entries: Seq<Node>, ignores: Seq<Seq<char>>, at: int)
    requires
        0 <= at < dir_steps(entries, Seq::empty(), ignores, 0).len(),
        dir_steps(entries, Seq::empty(), ignores, 0)[at] is CopyFile,
    ensures
        made_before(dir_steps(entries, Seq::empty(), ignores, 0), at),
{
    lemma_dir_made(entries, Seq::empty(), ignores, 0);
}

/// A pattern `/path` excludes a directory exactly when `path` exists
/// beneath it, unless the directory is called by the whole pattern: then it
/// is excluded by its name.
pub proof fn law_marker_pattern(path: Seq<char>, name: Seq<char>, markers: Seq<Seq<char>>)
    requires
        name != seq!['/'] + path,
    ensures
        ignored(seq![seq!['/'] + path], name, markers) <==> markers.contains(path),
{
    let pattern = seq!['/'] + path;
    let ignores = seq![pattern];
    assert(pattern.skip(1) == path);
    if markers.contains(path) {
        assert(pattern_matches(ignores[0], name, markers));
    }
}

/// Which pattern comes first is of no account: two lists that hold the same
/// patterns exclude the same directories.
pub proof fn law_order_of_patterns(
    first: Seq<Seq<char>>,
    second: Seq<Seq<char>>,
    name: Seq<char>,
    markers: Seq<Seq<char>>,
)
    requires
        forall|pattern: Seq<char>| first.contains(pattern) <==> second.contains(pattern),
    ensures
        ignored(first, name, markers) <==> ignored(second, name, markers),
{
    if ignored(first, name, markers) {
        let i = choose|i: int|
            0 <= i < first.len() && #[trigger] pattern_matches(first[i], name, markers);
        assert(first.contains(first[i]));
        let j = choose|j: int| 0 <= j < second.len() && second[j] == first[i];
        assert(pattern_matches(second[j], name, markers));
    }
    if ignored(second, name, markers) {
        let i = choose|i: int|
            0 <= i < second.len() && #[trigger] pattern_matches(second[i], name, markers);
        assert(second.contains(second[i]));
        let j = choose|j: int| 0 <= j < first.len() && first[j] == second[i];
        assert(pattern_matches(first[j], name, markers));
    }
}

/// A line that is empty or begins with `#`.
pub open spec fn blank_or_comment(line: Seq<u8>) -> bool {
    line.len() == 0 || line[0] == 35
}

proof fn lemma_declares_nothing(line: Seq<u8>)
    requires
        blank_or_comment(line),
    ensures
        pattern_of_line(line) is None,
{
    if line.len() > 0 && valid_utf8(line) {
        // The text begins with the character that the first byte encodes.
        assert((35u8 & 0x7F) as u32 == 35u32) by (bit_vector);
        assert(decode_utf8(line)[0] == '#');
    }
}

proof fn lemma_nothing_declared(lines: Seq<Seq<u8>>)
    requires
        forall|i: int| 0 <= i < lines.len() ==> blank_or_comment(#[trigger] lines[i]),
    ensures
        lines.filter_map(|line: Seq<u8>| pattern_of_line(line)).len() == 0,
    decreases lines.len(),
{
    if lines.len() > 0 {
        lemma_nothing_declared(lines.drop_last());
        lemma_declares_nothing(lines.last());
    }
}

/// Whether `path` leads from the directory that lists `node` to a file of
/// `size` bytes, through `node`.
pub open spec fn entry_holds(node: Node, path: Seq<Seq<char>>, size: nat) -> bool
    decreases node,
{
    match node {
        Node::File { name, size: bytes } => path.len() == 1 && path[0] == name && bytes == size,
        Node::Dir { name, markers, entries } => {
            &&& path.len() > 0
            &&& path[0] == name
            &&& holds_file(entries, path.skip(1), size)
        },
    }
}

/// Whether `path`, taken from the directory whose listing is `entries`,
/// names a file of `size` bytes.
pub open spec fn holds_file(entries: Seq<Node>, path: Seq<Seq<char>>, size: nat) -> bool
    decreases entries,
{
    exists|i: int| 0 <= i < entries.len() && entry_holds(#[trigger] entries[i], path, size)
}

proof fn lemma_entry_all_reached(node: Node, path: Seq<Seq<char>>, size: nat)
    ensures
        entry_reaches(node, path, size, Seq::empty()) <==> entry_holds(node, path, size),
    decreases node,
{
    match node {
        Node::File { name, size: bytes } => {},
        Node::Dir { name, markers, entries } => {
            lemma_listing_all_reached(entries, path.skip(1), size);
        },
    }
}

proof fn lemma_listing_all_reached(entries: Seq<Node>, path: Seq<Seq<char>>, size: nat)
    ensures
        reaches_file(entries, path, size, Seq::empty()) <==> holds_file(entries, path, size),
    decreases entries,
{
    assert forall|i: int| 0 <= i < entries.len() implies (entry_reaches(
        #[trigger] entries[i],
        path,
        size,
        Seq::empty(),
    ) <==> entry_holds(entries[i], path, size)) by {
        lemma_entry_all_reached(entries[i], path, size);
    }
}

/// Without patterns the whole tree is copied: a file is copied to a path
/// exactly when that path names it beneath the source.
pub proof fn law_no_patterns_copy_all(entries: Seq<Node>, path: Seq<Seq<char>>, size: nat)
    ensures
        copies(dir_steps(entries, Seq::empty(), Seq::empty(), 0), path, size) <==> holds_file(
            entries,
            path,
            size,
        ),
{
    law_copies_what_is_reached(entries, Seq::empty(), path, size);
    lemma_listing_all_reached(entries, path, size);
}

/// An ignore file that is empty, or whose every line is empty or a comment,
/// declares no pattern, and the whole tree is copied.
pub proof fn law_comments_copy_all(
    content: Seq<u8>,
    entries: Seq<Node>,
    path: Seq<Seq<char>>,
    size: nat,
)
    requires
        forall|i: int|
            0 <= i < split_lines(content).len() ==> blank_or_comment(
                #[trigger] split_lines(content)[i],
            ),
    ensures
        patterns_of(content) == Seq::<Seq<char>>::empty(),
        copies(dir_steps(entries, Seq::empty(), patterns_of(content), 0), path, size)
            <==> holds_file(entries, path, size),
{
    lemma_nothing_declared(split_lines(content));
    assert(patterns_of(content) =~= Seq::<Seq<char>>::empty());
    law_no_patterns_copy_all(entries, path, size);
}

proof fn lemma_entry_pruned(
    node: Node,
    prefix: Seq<Seq<char>>,
    ignores: Seq<Seq<char>>,
    start: nat,
)
    ensures
        entry_steps(pruned_entry(node, ignores), prefix, ignores, start) == entry_steps(
            node,
            prefix,
            ignores,
            start,
        ),
        entry_bytes(pruned_entry(node, ignores), ignores) == entry_bytes(node, ignores),
        entry_files(pruned_entry(node, ignores), ignores) == entry_files(node, ignores),
    decreases node,
{
    match node {
        Node::File { name, size } => {},
        Node::Dir { name, markers, entries } => {
            if !ignored(ignores, name, markers) {
                lemma_listing_pruned(entries, prefix.push(name), ignores, start);
            }
        },
    }
}

proof fn lemma_listing_pruned(
    entries: Seq<Node>,
    prefix: Seq<Seq<char>>,
    ignores: Seq<Seq<char>>,
    start: nat,
)
    ensures
        listing_steps(pruned(entries, ignores), prefix, ignores, start) == listing_steps(
            entries,
            prefix,
            ignores,
            start,
        ),
        listing_bytes(pruned(entries, ignores), ignores) == listing_bytes(entries, ignores),
        listing_files(pruned(entries, ignores), ignores) == listing_files(entries, ignores),
    decreases entries,
{
    if entries.len() > 0 {
        let before = entries.drop_last();
        let next = start + listing_bytes(before, ignores);
        lemma_listing_pruned(before, prefix, ignores, start);
        lemma_entry_pruned(entries.last(), prefix, ignores, next);
        assert(pruned(entries, ignores).drop_last() == pruned(before, ignores));
    }
}

/// A walk never looks into a directory that the patterns exclude: for the
/// tree without what lies in such directories it counts the same and lays
/// down the same steps as for the whole tree.
pub proof fn law_walk_sees_pruned_tree(entries: Seq<Node>, ignores: Seq<Seq<char>>)
    ensures
        dir_steps(pruned(entries, ignores), Seq::empty(), ignores, 0) == dir_steps(
            entries,
            Seq::empty(),
            ignores,
            0,
        ),
        listing_bytes(pruned(entries, ignores), ignores) == listing_bytes(entries, ignores),
        listing_files(pruned(entries, ignores), ignores) == listing_files(entries, ignores),
{
    lemma_listing_pruned(entries, Seq::empty(), ignores, 0);
}

/// The number of directories that a sequence of steps creates.
pub open spec fn created_dirs(steps: Seq<Step>) -> nat
    decreases steps.len(),
{
    if steps.len() == 0 {
        0
    } else {
        created_dirs(steps.drop_last()) + if steps.last() is CreateDir {
            1nat
        } else {
            0nat
        }
    }
}

proof fn lemma_created_concat(first: Seq<Step>, second: Seq<Step>)
    ensures
        created_dirs(first + second) == created_dirs(first) + created_dirs(second),
    decreases second.len(),
{
    if second.len() == 0 {
        assert(first + second == first);
    } else {
        lemma_created_concat(first, second.drop_last());
        assert((first + second).drop_last() == first + second.drop_last());
    }
}

proof fn lemma_created_single(step: Step)
    ensures
        created_dirs(seq![step]) == if step is CreateDir {
            1nat
        } else {
            0nat
        },
{
    reveal_with_fuel(created_dirs, 2);
    assert(seq![step].drop_last().len() == 0);
}

/// The directories entered beneath a listing, counted from its end.
proof fn lemma_listing_dirs_last(entries: Seq<Node>, ignores: Seq<Seq<char>>)
    requires
        entries.len() > 0,
    ensures
        listing_dirs(entries, ignores) == listing_dirs(entries.drop_last(), ignores) + entry_dirs(
            entries.last(),
            ignores,
        ),
    decreases entries.len(),
{
    let rest = entries.drop_first();
    let before = entries.drop_last();
    if rest.len() == 0 {
        assert(listing_dirs(rest, ignores) == 0);
        assert(listing_dirs(before, ignores) == 0);
        assert(entries.first() == entries.last());
    } else {
        lemma_listing_dirs_last(rest, ignores);
        assert(before.drop_first() == rest.drop_last());
        assert(before.first() == entries.first());
        assert(rest.last() == entries.last());
        assert(listing_dirs(before, ignores) == entry_dirs(entries.first(), ignores)
            + listing_dirs(rest.drop_last(), ignores));
    }
}

proof fn lemma_entry_created(
    node: Node,
    prefix: Seq<Seq<char>>,
    ignores: Seq<Seq<char>>,
    start: nat,
)
    ensures
        created_dirs(entry_steps(node, prefix, ignores, start)) == entry_dirs(node, ignores),
    decreases node,
{
    match node {
        Node::File { name, size } => {
            lemma_created_single(entry_steps(node, prefix, ignores, start)[0]);
        },
        Node::Dir { name, markers, entries } => {
            if ignored(ignores, name, markers) {
                lemma_created_single(Step::Skip { path: prefix.push(name) });
            } else {
                lemma_dir_created(entries, prefix.push(name), ignores, start);
            }
        },
    }
}

proof fn lemma_listing_created(
    entries: Seq<Node>,
    prefix: Seq<Seq<char>>,
    ignores: Seq<Seq<char>>,
    start: nat,
)
    ensures
        created_dirs(listing_steps(entries, prefix, ignores, start)) == listing_dirs(
            entries,
            ignores,
        ),
    decreases entries, 0nat,
{
    if entries.len() > 0 {
        let before = entries.drop_last();
        let next = start + listing_bytes(before, ignores);
        lemma_listing_created(before, prefix, ignores, start);
        lemma_entry_created(entries.last(), prefix, ignores, next);
        lemma_created_concat(
            listing_steps(before, prefix, ignores, start),
            entry_steps(entries.last(), prefix, ignores, next),
        );
        lemma_listing_dirs_last(entries, ignores);
    }
}

proof fn lemma_dir_created(
    entries: Seq<Node>,
    prefix: Seq<Seq<char>>,
    ignores: Seq<Seq<char>>,
    start: nat,
)
    ensures
        created_dirs(dir_steps(entries, prefix, ignores, start)) == 1 + listing_dirs(
            entries,
            ignores,
        ),
    decreases entries, 1nat,
{
    let create = Step::CreateDir { path: prefix };
    lemma_created_single(create);
    lemma_listing_created(entries, prefix, ignores, start);
    lemma_created_concat(seq![create], listing_steps(entries, prefix, ignores, start));
}

/// The directories that a copy creates are as many as a scan of the same
/// tree asks for: the top of the tree, and every directory beneath it that
/// a walk enters.
pub proof fn law_one_listing_per_directory(entries: Seq<Node>, ignores: Seq<Seq<char>>)
    ensures
        created_dirs(dir_steps(entries, Seq::empty(), ignores, 0)) == 1 + listing_dirs(
            entries,
            ignores,
        ),
{
    lemma_dir_created(entries, Seq::empty(), ignores, 0);
}

} // verus!
