//! What holds of walks through the directories of a board. A tree is what each
//! directory holds when it is listed.
use crate::clock::{earlier_minute, minute_names, on_clock, utc_minute, Moment};
use crate::expiry_laws::{
    first_difference, is_dated, is_safe, lemma_field_order, lemma_minute_names_safe,
};
use crate::path::{
    components, descendant, is_plain, last_name, lemma_descendant_components, lemma_path_decided,
    lemma_path_total, path_precedes,
};
use crate::storage::document_title;
use crate::text::{text_option, texts, views};
use crate::walk::{
    all_due_folders, child_directories, directories_in, document_files, document_files_recursive,
    documents_in, due_expiry_files, due_files, due_folders, is_due, is_newest_step, latest,
    leaves_in, newest_collected, newest_is_over, newest_paths, newest_start, paths_falling, prune,
    DueFolder, DueFolderView, DueWalk, Entry, EntryView, Listed, ListingFailure, NewestView,
    NewestWalk, Pruning, TreeWalk, MINUTE_DEPTH,
};
use vstd::multiset::Multiset;
use vstd::prelude::*;

verus! {

/// The documents in a directory and, down to a depth, in those below it.
pub open spec fn documents_below(
    tree: spec_fn(Seq<char>) -> Seq<EntryView>,
    directory: Seq<char>,
    depth: nat,
) -> Multiset<Seq<char>>
    decreases depth, 0nat,
{
    if depth == 0 {
        Multiset::empty()
    } else {
        leaves_in(tree(directory)).to_multiset().add(
            documents_below_all(tree, directories_in(tree(directory)), (depth - 1) as nat),
        )
    }
}

/// The documents in directories and, down to a depth, in those below them.
pub open spec fn documents_below_all(
    tree: spec_fn(Seq<char>) -> Seq<EntryView>,
    directories: Seq<Seq<char>>,
    depth: nat,
) -> Multiset<Seq<char>>
    decreases depth, directories.len() + 1,
{
    if directories.len() == 0 {
        Multiset::empty()
    } else {
        documents_below_all(tree, directories.drop_last(), depth).add(
            documents_below(tree, directories.last(), depth),
        )
    }
}

/// Whether directories are nested no deeper than a depth.
pub open spec fn is_shallow(
    tree: spec_fn(Seq<char>) -> Seq<EntryView>,
    directory: Seq<char>,
    depth: nat,
) -> bool
    decreases depth,
{
    depth > 0 && forall|i: int|
        0 <= i < directories_in(tree(directory)).len() ==> is_shallow(
            tree,
            #[trigger] directories_in(tree(directory))[i],
            (depth - 1) as nat,
        )
}

/// A step of a walk through a tree: the directory that was found last is listed.
pub open spec fn tree_step(
    tree: spec_fn(Seq<char>) -> Seq<EntryView>,
    pending: Seq<Seq<char>>,
    files: Seq<Seq<char>>,
) -> (Seq<Seq<char>>, Seq<Seq<char>>) {
    (
        pending.drop_last() + directories_in(tree(pending.last())),
        files + leaves_in(tree(pending.last())),
    )
}

/// A walk through a tree after some steps, or at its end.
pub open spec fn tree_walked(
    tree: spec_fn(Seq<char>) -> Seq<EntryView>,
    pending: Seq<Seq<char>>,
    files: Seq<Seq<char>>,
    steps: nat,
) -> (Seq<Seq<char>>, Seq<Seq<char>>)
    decreases steps,
{
    if steps == 0 || pending.len() == 0 {
        (pending, files)
    } else {
        let next = tree_step(tree, pending, files);
        tree_walked(tree, next.0, next.1, (steps - 1) as nat)
    }
}

/// One more level of depth changes nothing where it is not needed.
proof fn lemma_deeper(tree: spec_fn(Seq<char>) -> Seq<EntryView>, directory: Seq<char>, depth: nat)
    requires
        is_shallow(tree, directory, depth),
    ensures
        is_shallow(tree, directory, depth + 1),
        documents_below(tree, directory, depth + 1) == documents_below(tree, directory, depth),
    decreases depth, 0nat,
{
    let below = directories_in(tree(directory));
    lemma_all_deeper(tree, below, (depth - 1) as nat);
}

proof fn lemma_all_deeper(
    tree: spec_fn(Seq<char>) -> Seq<EntryView>,
    directories: Seq<Seq<char>>,
    depth: nat,
)
    requires
        forall|i: int| 0 <= i < directories.len() ==> is_shallow(tree, #[trigger] directories[i], depth),
    ensures
        forall|i: int|
            0 <= i < directories.len() ==> is_shallow(tree, #[trigger] directories[i], depth + 1),
        documents_below_all(tree, directories, depth + 1) == documents_below_all(
            tree,
            directories,
            depth,
        ),
    decreases depth, directories.len() + 1,
{
    if directories.len() > 0 {
        let init = directories.drop_last();
        assert forall|i: int| 0 <= i < init.len() implies is_shallow(tree, #[trigger] init[i], depth) by {
            assert(init[i] == directories[i]);
        }
        lemma_all_deeper(tree, init, depth);
        assert(is_shallow(tree, directories[directories.len() - 1], depth));
        lemma_deeper(tree, directories.last(), depth);
        assert forall|i: int| 0 <= i < directories.len() implies is_shallow(
            tree,
            #[trigger] directories[i],
            depth + 1,
        ) by {
            if i < init.len() {
                assert(is_shallow(tree, init[i], depth + 1));
            }
        }
    }
}

proof fn lemma_all_joined(
    tree: spec_fn(Seq<char>) -> Seq<EntryView>,
    a: Seq<Seq<char>>,
    b: Seq<Seq<char>>,
    depth: nat,
)
    ensures
        documents_below_all(tree, a + b, depth) == documents_below_all(tree, a, depth).add(
            documents_below_all(tree, b, depth),
        ),
    decreases b.len(),
{
    if b.len() == 0 {
        assert(a + b =~= a);
        assert(documents_below_all(tree, a, depth).add(Multiset::empty()) =~= documents_below_all(
            tree,
            a,
            depth,
        ));
    } else {
        lemma_all_joined(tree, a, b.drop_last(), depth);
        assert((a + b).drop_last() =~= a + b.drop_last());
        assert((a + b).last() == b.last());
        assert(documents_below_all(tree, a + b, depth) =~= documents_below_all(tree, a, depth).add(
            documents_below_all(tree, b, depth),
        ));
    }
}

/// A step of a walk through a tree loses no document and finds none twice: what
/// was found and what is still below the directories to list stays the same.
pub proof fn law_tree_step_loses_nothing(
    tree: spec_fn(Seq<char>) -> Seq<EntryView>,
    pending: Seq<Seq<char>>,
    files: Seq<Seq<char>>,
    depth: nat,
)
    requires
        pending.len() > 0,
        forall|i: int| 0 <= i < pending.len() ==> is_shallow(tree, #[trigger] pending[i], depth),
    ensures
        ({
            let next = tree_step(tree, pending, files);
            &&& forall|i: int| 0 <= i < next.0.len() ==> is_shallow(tree, #[trigger] next.0[i], depth)
            &&& next.1.to_multiset().add(documents_below_all(tree, next.0, depth))
                == files.to_multiset().add(documents_below_all(tree, pending, depth))
        }),
{
    let directory = pending.last();
    let init = pending.drop_last();
    let below = directories_in(tree(directory));
    let leaves = leaves_in(tree(directory));
    let next = tree_step(tree, pending, files);
    assert(is_shallow(tree, pending[pending.len() - 1], depth));
    lemma_all_deeper(tree, below, (depth - 1) as nat);
    lemma_all_joined(tree, init, below, depth);
    vstd::seq_lib::lemma_multiset_commutative(files, leaves);
    assert forall|i: int| 0 <= i < next.0.len() implies is_shallow(tree, #[trigger] next.0[i], depth) by {
        if i < init.len() {
            assert(next.0[i] == pending[i]);
        } else {
            assert(next.0[i] == below[i - init.len()]);
        }
    }
    assert((depth - 1) as nat + 1 == depth);
    assert(documents_below(tree, directory, depth) == leaves.to_multiset().add(
        documents_below_all(tree, below, depth),
    ));
    assert(next.1.to_multiset().add(documents_below_all(tree, next.0, depth))
        =~= files.to_multiset().add(documents_below_all(tree, pending, depth)));
}

/// A walk through a tree that has come to its end has found every document below
/// its root, each once.
pub proof fn law_tree_walk_finds_every_document(
    tree: spec_fn(Seq<char>) -> Seq<EntryView>,
    root: Seq<char>,
    depth: nat,
    steps: nat,
)
    requires
        is_shallow(tree, root, depth),
        tree_walked(tree, seq![root], seq![], steps).0.len() == 0,
    ensures
        tree_walked(tree, seq![root], seq![], steps).1.to_multiset() == documents_below(
            tree,
            root,
            depth,
        ),
{
    let start = seq![root];
    let none = Seq::<Seq<char>>::empty();
    lemma_tree_walked(tree, start, none, depth, steps);
    none.to_multiset_ensures();
    assert(none.to_multiset() =~= Multiset::empty());
    assert(start.drop_last() =~= none);
    assert(documents_below_all(tree, none, depth) =~= Multiset::empty());
    assert(none.to_multiset().add(documents_below_all(tree, start, depth)) =~= documents_below(
        tree,
        root,
        depth,
    ));
}

proof fn lemma_tree_walked(
    tree: spec_fn(Seq<char>) -> Seq<EntryView>,
    pending: Seq<Seq<char>>,
    files: Seq<Seq<char>>,
    depth: nat,
    steps: nat,
)
    requires
        forall|i: int| 0 <= i < pending.len() ==> is_shallow(tree, #[trigger] pending[i], depth),
        tree_walked(tree, pending, files, steps).0.len() == 0,
    ensures
        tree_walked(tree, pending, files, steps).1.to_multiset() == files.to_multiset().add(
            documents_below_all(tree, pending, depth),
        ),
    decreases steps,
{
    if steps == 0 || pending.len() == 0 {
        assert(files.to_multiset().add(Multiset::empty()) =~= files.to_multiset());
    } else {
        let next = tree_step(tree, pending, files);
        law_tree_step_loses_nothing(tree, pending, files, depth);
        lemma_tree_walked(tree, next.0, next.1, depth, (steps - 1) as nat);
    }
}

/// The entries of the expiry index that are due below a directory from which so
/// many levels lead down to the minutes.
pub open spec fn due_below(
    tree: spec_fn(Seq<char>) -> Seq<EntryView>,
    folder: DueFolderView,
    current: Seq<Seq<char>>,
    levels: nat,
) -> Multiset<Seq<char>>
    decreases levels, 0nat,
{
    if levels == 0 {
        due_files(folder, tree(folder.path)).to_multiset()
    } else {
        due_below_all(
            tree,
            all_due_folders(folder, tree(folder.path), current),
            current,
            (levels - 1) as nat,
        )
    }
}

/// The entries of the expiry index that are due below directories of one level.
pub open spec fn due_below_all(
    tree: spec_fn(Seq<char>) -> Seq<EntryView>,
    folders: Seq<DueFolderView>,
    current: Seq<Seq<char>>,
    levels: nat,
) -> Multiset<Seq<char>>
    decreases levels, folders.len() + 1,
{
    if folders.len() == 0 {
        Multiset::empty()
    } else {
        due_below_all(tree, folders.drop_last(), current, levels).add(
            due_below(tree, folders.last(), current, levels),
        )
    }
}

/// How many levels lead from a directory of the index down to the minutes.
pub open spec fn levels_below(folder: DueFolderView) -> nat {
    if folder.prefix.len() <= 5 {
        (5 - folder.prefix.len()) as nat
    } else {
        0
    }
}

/// The entries that are due below directories of the index, each on its level.
pub open spec fn due_still(
    tree: spec_fn(Seq<char>) -> Seq<EntryView>,
    folders: Seq<DueFolderView>,
    current: Seq<Seq<char>>,
) -> Multiset<Seq<char>>
    decreases folders.len(),
{
    if folders.len() == 0 {
        Multiset::empty()
    } else {
        due_still(tree, folders.drop_last(), current).add(
            due_below(tree, folders.last(), current, levels_below(folders.last())),
        )
    }
}

/// A step of a walk through the index: the directory that was found last is
/// listed.
pub open spec fn due_step(
    tree: spec_fn(Seq<char>) -> Seq<EntryView>,
    pending: Seq<DueFolderView>,
    files: Seq<Seq<char>>,
    current: Seq<Seq<char>>,
) -> (Seq<DueFolderView>, Seq<Seq<char>>) {
    let folder = pending.last();
    (
        pending.drop_last() + all_due_folders(folder, tree(folder.path), current),
        files + due_files(folder, tree(folder.path)),
    )
}

/// A walk through the index after some steps, or at its end.
pub open spec fn due_walked(
    tree: spec_fn(Seq<char>) -> Seq<EntryView>,
    pending: Seq<DueFolderView>,
    files: Seq<Seq<char>>,
    current: Seq<Seq<char>>,
    steps: nat,
) -> (Seq<DueFolderView>, Seq<Seq<char>>)
    decreases steps,
{
    if steps == 0 || pending.len() == 0 {
        (pending, files)
    } else {
        let next = due_step(tree, pending, files, current);
        due_walked(tree, next.0, next.1, current, (steps - 1) as nat)
    }
}

/// The directories that one of the index adds lie one level below it; the
/// directory of a minute adds none.
proof fn lemma_folders_below(folder: DueFolderView, entries: Seq<EntryView>, current: Seq<Seq<char>>)
    ensures
        folder.prefix.len() == 5 ==> all_due_folders(folder, entries, current).len() == 0,
        forall|i: int|
            0 <= i < all_due_folders(folder, entries, current).len() ==> (
            #[trigger] all_due_folders(folder, entries, current)[i]).prefix.len()
                == folder.prefix.len() + 1,
    decreases entries.len(),
{
    if entries.len() > 0 {
        let init = entries.drop_last();
        lemma_folders_below(folder, init, current);
        let before = all_due_folders(folder, init, current);
        let more = due_folders(folder, entries.last(), current);
        let all = all_due_folders(folder, entries, current);
        assert forall|i: int| 0 <= i < all.len() implies (#[trigger] all[i]).prefix.len()
            == folder.prefix.len() + 1 by {
            if i < before.len() {
                assert(all[i] == before[i]);
            } else {
                assert(all[i] == more[i - before.len()]);
            }
        }
    }
}

/// A directory above the minutes adds no entries.
proof fn lemma_no_files_above(folder: DueFolderView, entries: Seq<EntryView>)
    requires
        folder.prefix.len() != 5,
    ensures
        due_files(folder, entries) == Seq::<Seq<char>>::empty(),
    decreases entries.len(),
{
    if entries.len() > 0 {
        lemma_no_files_above(folder, entries.drop_last());
    }
}

proof fn lemma_still_joined(
    tree: spec_fn(Seq<char>) -> Seq<EntryView>,
    a: Seq<DueFolderView>,
    b: Seq<DueFolderView>,
    current: Seq<Seq<char>>,
)
    ensures
        due_still(tree, a + b, current) == due_still(tree, a, current).add(
            due_still(tree, b, current),
        ),
    decreases b.len(),
{
    if b.len() == 0 {
        assert(a + b =~= a);
        assert(due_still(tree, a, current).add(Multiset::empty()) =~= due_still(tree, a, current));
    } else {
        lemma_still_joined(tree, a, b.drop_last(), current);
        assert((a + b).drop_last() =~= a + b.drop_last());
        assert((a + b).last() == b.last());
        assert(due_still(tree, a + b, current) =~= due_still(tree, a, current).add(
            due_still(tree, b, current),
        ));
    }
}

proof fn lemma_one_level(
    tree: spec_fn(Seq<char>) -> Seq<EntryView>,
    folders: Seq<DueFolderView>,
    current: Seq<Seq<char>>,
    levels: nat,
)
    requires
        forall|i: int| 0 <= i < folders.len() ==> levels_below(#[trigger] folders[i]) == levels,
    ensures
        due_still(tree, folders, current) == due_below_all(tree, folders, current, levels),
    decreases folders.len(),
{
    if folders.len() > 0 {
        let init = folders.drop_last();
        assert forall|i: int| 0 <= i < init.len() implies levels_below(#[trigger] init[i]) == levels by {
            assert(init[i] == folders[i]);
        }
        lemma_one_level(tree, init, current, levels);
        assert(levels_below(folders[folders.len() - 1]) == levels);
    }
}

/// A step of a walk through the index loses no entry that is due and finds none
/// twice.
pub proof fn law_due_step_loses_nothing(
    tree: spec_fn(Seq<char>) -> Seq<EntryView>,
    pending: Seq<DueFolderView>,
    files: Seq<Seq<char>>,
    current: Seq<Seq<char>>,
)
    requires
        pending.len() > 0,
        forall|i: int| 0 <= i < pending.len() ==> (#[trigger] pending[i]).prefix.len() <= 5,
    ensures
        ({
            let next = due_step(tree, pending, files, current);
            &&& forall|i: int| 0 <= i < next.0.len() ==> (#[trigger] next.0[i]).prefix.len() <= 5
            &&& next.1.to_multiset().add(due_still(tree, next.0, current)) == files.to_multiset().add(
                due_still(tree, pending, current),
            )
        }),
{
    let folder = pending.last();
    let init = pending.drop_last();
    let entries = tree(folder.path);
    let below = all_due_folders(folder, entries, current);
    let found = due_files(folder, entries);
    let next = due_step(tree, pending, files, current);
    assert(pending[pending.len() - 1].prefix.len() <= 5);
    lemma_folders_below(folder, entries, current);
    lemma_still_joined(tree, init, below, current);
    vstd::seq_lib::lemma_multiset_commutative(files, found);
    assert forall|i: int| 0 <= i < next.0.len() implies (#[trigger] next.0[i]).prefix.len() <= 5 by {
        if i < init.len() {
            assert(next.0[i] == pending[i]);
        } else {
            assert(next.0[i] == below[i - init.len()]);
        }
    }
    if folder.prefix.len() == 5 {
        assert(due_still(tree, below, current) =~= Multiset::empty());
    } else {
        lemma_no_files_above(folder, entries);
        found.to_multiset_ensures();
        let levels = (levels_below(folder) - 1) as nat;
        assert forall|i: int| 0 <= i < below.len() implies levels_below(#[trigger] below[i]) == levels by {
            assert(below[i].prefix.len() == folder.prefix.len() + 1);
        }
        lemma_one_level(tree, below, current, levels);
        assert(found.to_multiset() =~= Multiset::empty());
    }
    assert(next.1.to_multiset().add(due_still(tree, next.0, current)) =~= files.to_multiset().add(
        due_still(tree, pending, current),
    ));
}

/// A walk through the index that has come to its end has found every entry of the
/// minutes that are due, each once, and no other.
pub proof fn law_due_walk_finds_what_is_due(
    tree: spec_fn(Seq<char>) -> Seq<EntryView>,
    root: Seq<char>,
    current: Seq<Seq<char>>,
    steps: nat,
)
    requires
        due_walked(
            tree,
            seq![DueFolderView { path: root, prefix: seq![] }],
            seq![],
            current,
            steps,
        ).0.len() == 0,
    ensures
        due_walked(
            tree,
            seq![DueFolderView { path: root, prefix: seq![] }],
            seq![],
            current,
            steps,
        ).1.to_multiset() == due_below(
            tree,
            DueFolderView { path: root, prefix: seq![] },
            current,
            5,
        ),
{
    let start = seq![DueFolderView { path: root, prefix: seq![] }];
    let none = Seq::<Seq<char>>::empty();
    lemma_due_walked(tree, start, none, current, steps);
    none.to_multiset_ensures();
    assert(none.to_multiset() =~= Multiset::empty());
    assert(start.drop_last() =~= seq![]);
    assert(due_still(tree, seq![], current) =~= Multiset::empty());
    assert(none.to_multiset().add(due_still(tree, start, current)) =~= due_below(
        tree,
        start[0],
        current,
        5,
    ));
}

proof fn lemma_due_walked(
    tree: spec_fn(Seq<char>) -> Seq<EntryView>,
    pending: Seq<DueFolderView>,
    files: Seq<Seq<char>>,
    current: Seq<Seq<char>>,
    steps: nat,
)
    requires
        forall|i: int| 0 <= i < pending.len() ==> (#[trigger] pending[i]).prefix.len() <= 5,
        due_walked(tree, pending, files, current, steps).0.len() == 0,
    ensures
        due_walked(tree, pending, files, current, steps).1.to_multiset() == files.to_multiset().add(
            due_still(tree, pending, current),
        ),
    decreases steps,
{
    if steps == 0 || pending.len() == 0 {
        assert(files.to_multiset().add(Multiset::empty()) =~= files.to_multiset());
    } else {
        let next = due_step(tree, pending, files, current);
        law_due_step_loses_nothing(tree, pending, files, current);
        lemma_due_walked(tree, next.0, next.1, current, (steps - 1) as nat);
    }
}

/// The directories in directories, one after the other.
pub open spec fn directories_below(
    tree: spec_fn(Seq<char>) -> Seq<EntryView>,
    directories: Seq<Seq<char>>,
) -> Seq<Seq<char>>
    decreases directories.len(),
{
    if directories.len() == 0 {
        seq![]
    } else {
        directories_below(tree, directories.drop_last()) + directories_in(tree(directories.last()))
    }
}

/// The directories so many levels below a root.
pub open spec fn directories_at(
    tree: spec_fn(Seq<char>) -> Seq<EntryView>,
    root: Seq<char>,
    level: nat,
) -> Seq<Seq<char>>
    decreases level,
{
    if level == 0 {
        seq![root]
    } else {
        directories_below(tree, directories_at(tree, root, (level - 1) as nat))
    }
}

/// The documents of directories, one after the other.
pub open spec fn documents_of(
    documents: spec_fn(Seq<char>) -> Seq<Seq<char>>,
    directories: Seq<Seq<char>>,
) -> Seq<Seq<char>>
    decreases directories.len(),
{
    if directories.len() == 0 {
        seq![]
    } else {
        documents_of(documents, directories.drop_last()) + documents(directories.last())
    }
}

/// What a walk for the newest documents always keeps: it has all directories of
/// its level, the latest first; of those that it has walked it has found all
/// directories below or, at the minutes, all documents.
pub open spec fn newest_is_sound(
    tree: spec_fn(Seq<char>) -> Seq<EntryView>,
    documents: spec_fn(Seq<char>) -> Seq<Seq<char>>,
    root: Seq<char>,
    walk: NewestView,
) -> bool {
    &&& 0 <= walk.level <= MINUTE_DEPTH
    &&& 0 <= walk.position <= walk.directories.len()
    &&& paths_falling(walk.directories)
    &&& walk.directories.to_multiset() == directories_at(tree, root, walk.level as nat).to_multiset()
    &&& walk.found == if walk.level < MINUTE_DEPTH {
        directories_below(tree, walk.directories.take(walk.position))
    } else {
        documents_of(documents, walk.directories.take(walk.position))
    }
}

proof fn lemma_below_joined(
    tree: spec_fn(Seq<char>) -> Seq<EntryView>,
    a: Seq<Seq<char>>,
    b: Seq<Seq<char>>,
)
    ensures
        directories_below(tree, a + b) == directories_below(tree, a) + directories_below(tree, b),
    decreases b.len(),
{
    if b.len() == 0 {
        assert(a + b =~= a);
        assert(directories_below(tree, a) + directories_below(tree, b) =~= directories_below(tree, a));
    } else {
        lemma_below_joined(tree, a, b.drop_last());
        assert((a + b).drop_last() =~= a + b.drop_last());
        assert((a + b).last() == b.last());
        assert(directories_below(tree, a + b) =~= directories_below(tree, a) + directories_below(
            tree,
            b,
        ));
    }
}

/// The order of directories does not change which lie below them.
proof fn lemma_below_reordered(
    tree: spec_fn(Seq<char>) -> Seq<EntryView>,
    a: Seq<Seq<char>>,
    b: Seq<Seq<char>>,
)
    requires
        a.to_multiset() == b.to_multiset(),
    ensures
        directories_below(tree, a).to_multiset() == directories_below(tree, b).to_multiset(),
    decreases a.len(),
{
    a.to_multiset_ensures();
    b.to_multiset_ensures();
    assert(a.len() == b.len());
    if a.len() > 0 {
        let x = a.last();
        let init = a.drop_last();
        assert(a.contains(x));
        assert(b.to_multiset().count(x) > 0);
        let k = choose|k: int| 0 <= k < b.len() && b[k] == x;
        let left = b.take(k);
        let right = b.skip(k + 1);
        let rest = left + right;
        assert(b =~= left + seq![x] + right);
        assert(a =~= init + seq![x]);
        vstd::seq_lib::lemma_multiset_commutative(init, seq![x]);
        vstd::seq_lib::lemma_multiset_commutative(left, seq![x]);
        vstd::seq_lib::lemma_multiset_commutative(left + seq![x], right);
        vstd::seq_lib::lemma_multiset_commutative(left, right);
        assert(init.to_multiset() =~= rest.to_multiset()) by {
            let one = seq![x].to_multiset();
            assert(init.to_multiset().add(one) == left.to_multiset().add(one).add(
                right.to_multiset(),
            ));
            assert forall|v: Seq<char>| #[trigger] init.to_multiset().count(v)
                == rest.to_multiset().count(v) by {
                assert(init.to_multiset().add(one).count(v) == left.to_multiset().add(one).add(
                    right.to_multiset(),
                ).count(v));
            }
        }
        lemma_below_reordered(tree, init, rest);
        let mine = directories_in(tree(x));
        let p = directories_below(tree, left);
        let q = directories_below(tree, right);
        lemma_below_joined(tree, left, right);
        lemma_below_joined(tree, left, seq![x]);
        lemma_below_joined(tree, left + seq![x], right);
        assert(directories_below(tree, seq![x]) =~= mine) by {
            assert(seq![x].drop_last() =~= seq![]);
            assert(directories_below(tree, seq![]) =~= seq![]);
        }
        vstd::seq_lib::lemma_multiset_commutative(directories_below(tree, init), mine);
        vstd::seq_lib::lemma_multiset_commutative(p, q);
        vstd::seq_lib::lemma_multiset_commutative(p, mine);
        vstd::seq_lib::lemma_multiset_commutative(p + mine, q);
        assert(directories_below(tree, a).to_multiset() =~= directories_below(tree, b).to_multiset());
    } else {
        assert(a =~= b);
    }
}

/// A walk for the newest documents begins soundly.
pub proof fn law_newest_walk_begins(
    tree: spec_fn(Seq<char>) -> Seq<EntryView>,
    documents: spec_fn(Seq<char>) -> Seq<Seq<char>>,
    root: Seq<char>,
)
    ensures
        newest_is_sound(tree, documents, root, newest_start(root)),
{
    assert(newest_start(root).directories.take(0) =~= seq![]);
}

/// A walk for the newest documents stays sound over every directory that it
/// lists above the minutes.
pub proof fn law_newest_walk_goes_down(
    tree: spec_fn(Seq<char>) -> Seq<EntryView>,
    documents: spec_fn(Seq<char>) -> Seq<Seq<char>>,
    root: Seq<char>,
    before: NewestView,
    after: NewestView,
)
    requires
        newest_is_sound(tree, documents, root, before),
        before.level < MINUTE_DEPTH,
        before.position < before.directories.len(),
        is_newest_step(before, tree(before.directories[before.position]), after),
    ensures
        newest_is_sound(tree, documents, root, after),
{
    let at = before.position;
    let walked = before.directories.take(at + 1);
    assert(walked.drop_last() =~= before.directories.take(at));
    assert(walked.last() == before.directories[at]);
    if at + 1 == before.directories.len() {
        assert(walked =~= before.directories);
        lemma_below_reordered(
            tree,
            before.directories,
            directories_at(tree, root, before.level as nat),
        );
        assert(after.directories.take(0) =~= seq![]);
    }
}

/// A walk for the newest documents stays sound over every minute that it walks.
pub proof fn law_newest_walk_collects(
    tree: spec_fn(Seq<char>) -> Seq<EntryView>,
    documents: spec_fn(Seq<char>) -> Seq<Seq<char>>,
    root: Seq<char>,
    walk: NewestView,
)
    requires
        newest_is_sound(tree, documents, root, walk),
        walk.level == MINUTE_DEPTH,
        walk.position < walk.directories.len(),
    ensures
        newest_is_sound(
            tree,
            documents,
            root,
            newest_collected(walk, documents(walk.directories[walk.position])),
        ),
{
    let walked = walk.directories.take(walk.position + 1);
    assert(walked.drop_last() =~= walk.directories.take(walk.position));
    assert(walked.last() == walk.directories[walk.position]);
}

/// What a walk for the newest documents leaves out precedes all that it found: a
/// walk that is over has found enough or has walked all minutes, and each minute
/// that it has not walked precedes each that it has.
pub proof fn law_newest_walk_leaves_out_what_is_older(
    tree: spec_fn(Seq<char>) -> Seq<EntryView>,
    documents: spec_fn(Seq<char>) -> Seq<Seq<char>>,
    root: Seq<char>,
    walk: NewestView,
    limit: nat,
    walked: int,
    left: int,
)
    requires
        newest_is_sound(tree, documents, root, walk),
        walk.level == MINUTE_DEPTH,
        newest_is_over(walk, limit),
        0 <= walked < walk.position <= left < walk.directories.len(),
        components(walk.directories[walked]) != components(walk.directories[left]),
    ensures
        walk.found == documents_of(documents, walk.directories.take(walk.position)),
        walk.found.len() >= limit,
        path_precedes(
            components(walk.directories[left]),
            components(walk.directories[walked]),
        ),
{
    lemma_path_total(components(walk.directories[walked]), components(walk.directories[left]));
}

/// The directories of minutes sort as the minutes do, in the years of four
/// digits.
pub proof fn law_minute_directories_sort_as_minutes(
    folder: Seq<char>,
    a: (i32, u32, u32, u32, u32),
    b: (i32, u32, u32, u32, u32),
)
    requires
        is_dated(a),
        is_dated(b),
        earlier_minute(a, b),
    ensures
        path_precedes(
            components(descendant(folder, minute_names(a))),
            components(descendant(folder, minute_names(b))),
        ),
{
    let base = components(folder);
    let p = minute_names(a);
    let q = minute_names(b);
    lemma_minute_names_safe(a);
    lemma_minute_names_safe(b);
    assert forall|i: int| 0 <= i < p.len() implies is_plain(#[trigger] p[i]) by {
        assert(is_safe(p[i]));
    }
    assert forall|i: int| 0 <= i < q.len() implies is_plain(#[trigger] q[i]) by {
        assert(is_safe(q[i]));
    }
    lemma_descendant_components(folder, p);
    lemma_descendant_components(folder, q);
    let at = first_difference(a, b);
    lemma_field_order(a, b, at);
    assert forall|j: int| 0 <= j < at implies p[j] == q[j] by {
        lemma_field_order(a, b, j);
    }
    assert(is_safe(p[at]) && is_safe(q[at]));
    assert((base + p)[base.len() + at] == p[at]);
    assert((base + q)[base.len() + at] == q[at]);
    lemma_path_decided(base + p, base + q, base.len() + at);
}

/// The window of a history is the newest: where a walk for a route's newest
/// documents leaves minutes out, each comes before each minute that it has
/// walked, and it has found as many documents as were wanted.
pub proof fn law_history_window_is_the_newest(
    tree: spec_fn(Seq<char>) -> Seq<EntryView>,
    documents: spec_fn(Seq<char>) -> Seq<Seq<char>>,
    root: Seq<char>,
    walk: NewestView,
    limit: nat,
    walked: int,
    left: int,
    newer: (i32, u32, u32, u32, u32),
    older: (i32, u32, u32, u32, u32),
)
    requires
        newest_is_sound(tree, documents, root, walk),
        walk.level == MINUTE_DEPTH,
        newest_is_over(walk, limit),
        0 <= walked < walk.position <= left < walk.directories.len(),
        is_dated(newer),
        is_dated(older),
        newer != older,
        walk.directories[walked] == descendant(root, minute_names(newer)),
        walk.directories[left] == descendant(root, minute_names(older)),
    ensures
        earlier_minute(older, newer),
        walk.found.len() >= limit,
{
    if earlier_minute(newer, older) {
        law_minute_directories_sort_as_minutes(root, newer, older);
    }
}

/// Entries are told apart by what they are: directories are walked, files with the names
/// of documents are documents, and in a walk all with such names that are no directories.
pub proof fn law_entries_are_told_apart(entries: Seq<EntryView>, next: EntryView)
    ensures
        directories_in(seq![]) == Seq::<Seq<char>>::empty(),
        documents_in(seq![]) == Seq::<Seq<char>>::empty(),
        leaves_in(seq![]) == Seq::<Seq<char>>::empty(),
        directories_in(entries.push(next)) == if next.is_directory {
            directories_in(entries).push(next.path)
        } else {
            directories_in(entries)
        },
        documents_in(entries.push(next)) == if next.is_file && document_title(next.path) is Some {
            documents_in(entries).push(next.path)
        } else {
            documents_in(entries)
        },
        leaves_in(entries.push(next)) == if !next.is_directory && document_title(next.path) is Some {
            leaves_in(entries).push(next.path)
        } else {
            leaves_in(entries)
        },
{
    assert(entries.push(next).drop_last() =~= entries);
}

/// A directory that is listed offers its directories and its documents without a warning.
/// One that could not be listed offers nothing, with a warning, unless documents are
/// wanted and it is not there.
pub proof fn law_directories_are_listed_or_warned_of(
    directory: &str,
    listing: &Result<Vec<Entry>, ListingFailure>,
    folders: Listed,
    documents: Listed,
)
    requires
        call_ensures(child_directories, (directory, listing), folders),
        call_ensures(document_files, (directory, listing), documents),
    ensures
        listing matches Ok(entries) ==> {
            &&& texts(folders.paths@) == directories_in(views(entries@))
            &&& texts(documents.paths@) == documents_in(views(entries@))
            &&& folders.warning is None
            &&& documents.warning is None
        },
        listing matches Err(failure) ==> {
            let words = "scan "@ + directory@ + ": "@ + failure.words@;
            &&& folders.paths@.len() == 0
            &&& documents.paths@.len() == 0
            &&& text_option(folders.warning) == Some(words)
            &&& failure.absent ==> documents.warning is None
            &&& !failure.absent ==> text_option(documents.warning) == Some(words)
        },
{
}

/// A walk through a tree starts at its root, lists next what it found last, and keeps what
/// it finds behind what it has.
pub proof fn law_tree_walk_steps(
    root: &str,
    fresh: TreeWalk,
    taking: &mut TreeWalk,
    next: Option<String>,
    visiting: &mut TreeWalk,
    entries: &Vec<Entry>,
)
    requires
        call_ensures(document_files_recursive, (root,), fresh),
        call_ensures(TreeWalk::next, (taking,), next),
        call_ensures(TreeWalk::visit, (visiting, entries), ()),
    ensures
        texts(fresh.pending@) == seq![root@],
        fresh.files@.len() == 0,
        next is None <==> old(taking).pending@.len() == 0,
        next matches Some(directory) ==> {
            &&& directory@ == old(taking).pending@.last()@
            &&& final(taking).pending@ == old(taking).pending@.drop_last()
        },
        next is None ==> final(taking).pending@.len() == 0,
        final(taking).files@ == old(taking).files@,
        texts(final(visiting).pending@) == texts(old(visiting).pending@) + directories_in(
            views(entries@),
        ),
        texts(final(visiting).files@) == texts(old(visiting).files@) + leaves_in(views(entries@)),
{
}

/// An entry of a directory of the index is walked if it is a directory above the documents
/// and its names are no later than the current minute's; in the directory of a minute its
/// documents are found.
pub proof fn law_due_entries_are_walked(
    folder: DueFolderView,
    entries: Seq<EntryView>,
    next: EntryView,
    current: Seq<Seq<char>>,
)
    ensures
        all_due_folders(folder, seq![], current) == Seq::<DueFolderView>::empty(),
        due_files(folder, seq![]) == Seq::<Seq<char>>::empty(),
        ({
            let before = all_due_folders(folder, entries, current);
            let after = all_due_folders(folder, entries.push(next), current);
            let names = folder.prefix.push(last_name(next.path)->Some_0);
            if folder.prefix.len() != 5 && next.is_directory && last_name(next.path) is Some
                && is_due(names, current) {
                after == before.push(DueFolderView { path: next.path, prefix: names })
            } else {
                after == before
            }
        }),
        due_files(folder, entries.push(next)) == if folder.prefix.len() == 5 && document_title(
            next.path,
        ) is Some {
            due_files(folder, entries).push(next.path)
        } else {
            due_files(folder, entries)
        },
{
    assert(entries.push(next).drop_last() =~= entries);
    let before = all_due_folders(folder, entries, current);
    let after = all_due_folders(folder, entries.push(next), current);
    let names = folder.prefix.push(last_name(next.path)->Some_0);
    if folder.prefix.len() != 5 && next.is_directory && last_name(next.path) is Some && is_due(
        names,
        current,
    ) {
        assert(after =~= before.push(DueFolderView { path: next.path, prefix: names }));
    } else {
        assert(after =~= before);
    }
}

/// A walk through the index starts at its root with the current minute, lists next what it
/// found last, and keeps what it finds behind what it has.
pub proof fn law_due_walk_steps(
    root: &str,
    now: Moment,
    fresh: DueWalk,
    taking: &mut DueWalk,
    next: Option<DueFolder>,
    visiting: &mut DueWalk,
    folder: &DueFolder,
    entries: &Vec<Entry>,
)
    requires
        on_clock(now),
        call_ensures(due_expiry_files, (root, now), fresh),
        old(taking).wf(),
        call_ensures(DueWalk::next, (taking,), next),
        old(visiting).wf(),
        folder.prefix@.len() <= 5,
        call_ensures(DueWalk::visit, (visiting, folder, entries), ()),
    ensures
        texts(fresh.current@) == minute_names(utc_minute(now.seconds as int / 60)->Some_0),
        fresh.pending@.len() == 1,
        fresh.pending@[0].path@ == root@,
        fresh.pending@[0].prefix@.len() == 0,
        fresh.files@.len() == 0,
        next is None <==> old(taking).pending@.len() == 0,
        next matches Some(found) ==> found == old(taking).pending@.last() && final(taking).pending@
            == old(taking).pending@.drop_last(),
        final(taking).files@ == old(taking).files@,
        final(taking).current@ == old(taking).current@,
        final(visiting).current@ == old(visiting).current@,
        views(final(visiting).pending@) == views(old(visiting).pending@) + all_due_folders(
            folder@,
            views(entries@),
            texts(old(visiting).current@),
        ),
        texts(final(visiting).files@) == texts(old(visiting).files@) + due_files(
            folder@,
            views(entries@),
        ),
{
    assert(views(fresh.pending@).len() == fresh.pending@.len());
    assert(views(fresh.pending@)[0] == fresh.pending@[0]@);
    assert(texts(fresh.pending@[0].prefix@).len() == fresh.pending@[0].prefix@.len());
    assert(fresh.pending@[0]@.prefix.len() == 0);
}

/// A walk for the newest documents starts at the directory of a route and comes to the
/// minutes after five levels. It gives its directories in their order, all above the
/// minutes, and of the minutes as many as it takes to find enough, the first in any case.
pub proof fn law_newest_walk_steps(
    route_root: &str,
    fresh: NewestWalk,
    walk: &NewestWalk,
    limit: usize,
    next: Option<String>,
    at_minutes: bool,
    collecting: &mut NewestWalk,
    documents: &Vec<String>,
)
    requires
        call_ensures(newest_paths, (route_root,), fresh),
        call_ensures(NewestWalk::next, (walk, limit), next),
        call_ensures(NewestWalk::at_minutes, (walk,), at_minutes),
        old(collecting).level >= 5,
        old(collecting).position < old(collecting).directories@.len(),
        call_ensures(NewestWalk::collect, (collecting, documents), ()),
    ensures
        fresh.level == 0,
        texts(fresh.directories@) == seq![route_root@],
        fresh.position == 0,
        fresh.found@.len() == 0,
        at_minutes <==> walk.level >= 5,
        next is None <==> walk.position >= walk.directories@.len() || (walk.level >= 5
            && walk.position > 0 && walk.found@.len() >= limit),
        next matches Some(directory) ==> directory@ == walk.directories@[walk.position as int]@,
        final(collecting).level == old(collecting).level,
        texts(final(collecting).directories@) == texts(old(collecting).directories@),
        final(collecting).position == old(collecting).position + 1,
        texts(final(collecting).found@) == texts(old(collecting).found@) + texts(documents@),
{
    assert(fresh@ == newest_start(route_root@));
    assert(texts(fresh.found@).len() == fresh.found@.len());
    assert(fresh@.found.len() == 0);
    assert(texts(walk.directories@).len() == walk.directories@.len());
    assert(texts(walk.found@).len() == walk.found@.len());
    let before = old(collecting)@;
    let after = final(collecting)@;
    assert(after == newest_collected(before, texts(documents@)));
    assert(after.found == before.found + texts(documents@));
}

/// Of documents the last ones in the order of paths are kept, as many as are to be
/// retained, and the others go.
pub proof fn law_pruning_keeps_the_last(
    paths: &Vec<String>,
    retain: usize,
    r: Pruning,
    gone: int,
    kept: int,
)
    requires
        call_ensures(prune, (paths, retain), r),
        0 <= gone < r.removed@.len(),
        0 <= kept < r.kept@.len(),
    ensures
        r.kept@.len() == retain,
        r.removed@.len() + r.kept@.len() == paths@.len(),
        !path_precedes(components(r.kept@[kept]@), components(r.removed@[gone]@)),
{
    let all = texts(r.removed@) + texts(r.kept@);
    all.to_multiset_ensures();
    texts(paths@).to_multiset_ensures();
    assert(texts(r.removed@).len() == r.removed@.len());
    assert(texts(r.kept@).len() == r.kept@.len());
    assert(texts(paths@).len() == paths@.len());
    assert(all.len() == all.to_multiset().len());
    assert(all[gone] == r.removed@[gone]@);
    assert(all[r.removed@.len() + kept] == r.kept@[kept]@);
}

/// The latest of paths is one of them, and none comes after it.
pub proof fn law_latest_path_comes_last(paths: &Vec<String>, r: Option<String>, i: int)
    requires
        call_ensures(latest, (paths,), r),
        0 <= i < paths@.len(),
    ensures
        r is Some,
        texts(paths@).contains(r->Some_0@),
        !path_precedes(components(r->Some_0@), components(paths@[i]@)),
{
}

} // verus!
