//! Walks through the directories of a board. Each walk says which directory to
//! list next and takes in what was found there.
use crate::clock::{calendar_minute, minute_directories, minute_names, on_clock, utc_minute, Moment};
use crate::path::{components, file_name, last_name, path_precedes, paths_sorted, sort_paths};
use crate::storage::{document_name, document_title};
use crate::text::{
    comes_before, copy_texts, joined, joined3, precedes, same_text, text_option, texts, views,
};
use vstd::prelude::*;

verus! {

/// An entry of a directory.
#[derive(Debug, PartialEq, Eq)]
pub struct Entry {
    pub path: String,
    pub is_directory: bool,
    pub is_file: bool,
}

/// The content of an [`Entry`].
#[verifier::ext_equal]
pub struct EntryView {
    pub path: Seq<char>,
    pub is_directory: bool,
    pub is_file: bool,
}

impl View for Entry {
    type V = EntryView;

    open spec fn view(&self) -> EntryView {
        EntryView { path: self.path@, is_directory: self.is_directory, is_file: self.is_file }
    }
}

/// Why a directory could not be listed, and whether it is because it is not
/// there.
#[derive(Debug, PartialEq, Eq)]
pub struct ListingFailure {
    pub absent: bool,
    pub words: String,
}

/// What a directory offers to a scan, and a warning if it could not be listed.
pub struct Listed {
    pub paths: Vec<String>,
    pub warning: Option<String>,
}

/// Whether a path ends in the name of a document.
pub open spec fn is_document(path: Seq<char>) -> bool {
    document_title(path) is Some
}

/// The paths of the directories among entries.
pub open spec fn directories_in(entries: Seq<EntryView>) -> Seq<Seq<char>>
    decreases entries.len(),
{
    if entries.len() == 0 {
        seq![]
    } else {
        let before = directories_in(entries.drop_last());
        if entries.last().is_directory {
            before.push(entries.last().path)
        } else {
            before
        }
    }
}

/// The paths of the documents among entries.
pub open spec fn documents_in(entries: Seq<EntryView>) -> Seq<Seq<char>>
    decreases entries.len(),
{
    if entries.len() == 0 {
        seq![]
    } else {
        let before = documents_in(entries.drop_last());
        if entries.last().is_file && is_document(entries.last().path) {
            before.push(entries.last().path)
        } else {
            before
        }
    }
}

/// The warning about a directory that could not be listed.
pub open spec fn listing_warning(directory: Seq<char>, words: Seq<char>) -> Seq<char> {
    "scan "@ + directory + ": "@ + words
}

fn warn_listing(directory: &str, words: &str) -> (r: String)
    ensures
        r@ == listing_warning(directory@, words@),
{
    joined(joined3("scan ", directory, ": ").as_str(), words)
}

/// The directories in a directory.
pub fn child_directories(directory: &str, listing: &Result<Vec<Entry>, ListingFailure>) -> (r: Listed)
    ensures
        match *listing {
            Ok(entries) => r.warning is None && texts(r.paths@) == directories_in(views(entries@)),
            Err(failure) => r.paths@.len() == 0 && text_option(r.warning) == Some(
                listing_warning(directory@, failure.words@),
            ),
        },
{
    match listing {
        Ok(entries) => Listed { paths: directories_of(entries), warning: None },
        Err(failure) => Listed {
            paths: Vec::new(),
            warning: Some(warn_listing(directory, failure.words.as_str())),
        },
    }
}

fn directories_of(entries: &Vec<Entry>) -> (r: Vec<String>)
    ensures
        texts(r@) == directories_in(views(entries@)),
{
    let mut out: Vec<String> = Vec::new();
    let ghost all = views(entries@);
    let mut i: usize = 0;
    assert(all.take(0) =~= seq![]);
    assert(texts(out@) =~= seq![]);
    while i < entries.len()
        invariant
            i <= entries@.len(),
            all == views(entries@),
            texts(out@) == directories_in(all.take(i as int)),
        decreases entries@.len() - i,
    {
        let ghost had = texts(out@);
        assert(all.take(i + 1).drop_last() =~= all.take(i as int));
        assert(all.take(i + 1).last() == entries@[i as int]@);
        if entries[i].is_directory {
            out.push(entries[i].path.clone());
            assert(texts(out@) =~= had.push(entries@[i as int].path@));
        }
        i += 1;
    }
    assert(all.take(i as int) =~= all);
    out
}

/// The documents in a directory. A directory that is not there has none.
pub fn document_files(directory: &str, listing: &Result<Vec<Entry>, ListingFailure>) -> (r: Listed)
    ensures
        match *listing {
            Ok(entries) => r.warning is None && texts(r.paths@) == documents_in(views(entries@)),
            Err(failure) => r.paths@.len() == 0 && text_option(r.warning) == if failure.absent {
                None
            } else {
                Some(listing_warning(directory@, failure.words@))
            },
        },
{
    match listing {
        Ok(entries) => {
            let mut out: Vec<String> = Vec::new();
            let ghost all = views(entries@);
            let mut i: usize = 0;
            assert(all.take(0) =~= seq![]);
            assert(texts(out@) =~= seq![]);
            while i < entries.len()
                invariant
                    i <= entries@.len(),
                    all == views(entries@),
                    texts(out@) == documents_in(all.take(i as int)),
                decreases entries@.len() - i,
            {
                let ghost had = texts(out@);
                assert(all.take(i + 1).drop_last() =~= all.take(i as int));
                assert(all.take(i + 1).last() == entries@[i as int]@);
                let named: bool = document_name(entries[i].path.as_str()).is_some();
                if entries[i].is_file && named {
                    out.push(entries[i].path.clone());
                    assert(texts(out@) =~= had.push(entries@[i as int].path@));
                }
                i += 1;
            }
            assert(all.take(i as int) =~= all);
            Listed { paths: out, warning: None }
        },
        Err(failure) => {
            if failure.absent {
                Listed { paths: Vec::new(), warning: None }
            } else {
                Listed {
                    paths: Vec::new(),
                    warning: Some(warn_listing(directory, failure.words.as_str())),
                }
            }
        },
    }
}

/// The documents among entries that are no directories.
pub open spec fn leaves_in(entries: Seq<EntryView>) -> Seq<Seq<char>>
    decreases entries.len(),
{
    if entries.len() == 0 {
        seq![]
    } else {
        let before = leaves_in(entries.drop_last());
        if !entries.last().is_directory && is_document(entries.last().path) {
            before.push(entries.last().path)
        } else {
            before
        }
    }
}

/// A walk through all directories below one, for the documents in them.
pub struct TreeWalk {
    pub pending: Vec<String>,
    pub files: Vec<String>,
}

/// A walk that starts at `root` and has found nothing yet.
pub fn document_files_recursive(root: &str) -> (r: TreeWalk)
    ensures
        texts(r.pending@) == seq![root@],
        r.files@.len() == 0,
{
    let mut pending: Vec<String> = Vec::new();
    pending.push(root.to_owned());
    assert(texts(pending@) =~= seq![root@]);
    TreeWalk { pending, files: Vec::new() }
}

impl TreeWalk {
    /// The directory to list next: the one that was found last.
    pub fn next(&mut self) -> (r: Option<String>)
        ensures
            final(self).files@ == old(self).files@,
            match r {
                Some(directory) => old(self).pending@.len() > 0 && directory == old(
                    self,
                ).pending@.last() && final(self).pending@ == old(self).pending@.drop_last(),
                None => old(self).pending@.len() == 0 && final(self).pending@ == old(self).pending@,
            },
    {
        self.pending.pop()
    }

    /// Takes in what a directory holds: directories to walk and documents.
    pub fn visit(&mut self, entries: &Vec<Entry>)
        ensures
            texts(final(self).pending@) == texts(old(self).pending@) + directories_in(views(entries@)),
            texts(final(self).files@) == texts(old(self).files@) + leaves_in(views(entries@)),
    {
        let ghost all = views(entries@);
        let ghost waiting = texts(self.pending@);
        let ghost seen = texts(self.files@);
        let mut i: usize = 0;
        assert(all.take(0) =~= seq![]);
        assert(waiting =~= waiting + directories_in(all.take(0)));
        assert(seen =~= seen + leaves_in(all.take(0)));
        while i < entries.len()
            invariant
                i <= entries@.len(),
                all == views(entries@),
                texts(self.pending@) == waiting + directories_in(all.take(i as int)),
                texts(self.files@) == seen + leaves_in(all.take(i as int)),
            decreases entries@.len() - i,
        {
            let ghost had_pending = texts(self.pending@);
            let ghost had_files = texts(self.files@);
            assert(all.take(i + 1).drop_last() =~= all.take(i as int));
            assert(all.take(i + 1).last() == entries@[i as int]@);
            let named: bool = document_name(entries[i].path.as_str()).is_some();
            let path: String = entries[i].path.clone();
            if entries[i].is_directory {
                self.pending.push(path);
                assert(texts(self.pending@) =~= had_pending.push(entries@[i as int].path@));
                assert(had_pending.push(entries@[i as int].path@) =~= waiting + directories_in(
                    all.take(i + 1),
                ));
            } else if named {
                self.files.push(path);
                assert(texts(self.files@) =~= had_files.push(entries@[i as int].path@));
                assert(had_files.push(entries@[i as int].path@) =~= seen + leaves_in(
                    all.take(i + 1),
                ));
            }
            i += 1;
        }
        assert(all.take(i as int) =~= all);
    }
}

/// Whether a list of names is no later than another, name by name.
pub open spec fn names_no_later(a: Seq<Seq<char>>, b: Seq<Seq<char>>) -> bool
    decreases a.len(),
{
    if a.len() == 0 {
        true
    } else if b.len() == 0 {
        false
    } else if a[0] != b[0] {
        precedes(a[0], b[0])
    } else {
        names_no_later(a.drop_first(), b.drop_first())
    }
}

/// Whether a list of names is no later than the beginning of another.
fn is_names_no_later(a: &Vec<String>, b: &Vec<String>) -> (r: bool)
    requires
        a@.len() <= b@.len(),
    ensures
        r == names_no_later(texts(a@), texts(b@).take(a@.len() as int)),
{
    let ghost p = texts(a@);
    let ghost q = texts(b@).take(a@.len() as int);
    let mut i: usize = 0;
    assert(p.skip(0) =~= p);
    assert(q.skip(0) =~= q);
    while i < a.len()
        invariant
            i <= a@.len() <= b@.len(),
            p == texts(a@),
            q == texts(b@).take(a@.len() as int),
            names_no_later(p, q) == names_no_later(p.skip(i as int), q.skip(i as int)),
        decreases a@.len() - i,
    {
        assert(p.skip(i as int)[0] == a@[i as int]@);
        assert(q.skip(i as int)[0] == b@[i as int]@);
        if !same_text(a[i].as_str(), b[i].as_str()) {
            return comes_before(a[i].as_str(), b[i].as_str());
        }
        assert(p.skip(i as int).drop_first() =~= p.skip(i + 1));
        assert(q.skip(i as int).drop_first() =~= q.skip(i + 1));
        i += 1;
    }
    true
}

/// A directory of the expiry index, with the names that lead to it.
#[derive(Debug, PartialEq, Eq)]
pub struct DueFolder {
    pub path: String,
    pub prefix: Vec<String>,
}

/// The content of a [`DueFolder`].
#[verifier::ext_equal]
pub struct DueFolderView {
    pub path: Seq<char>,
    pub prefix: Seq<Seq<char>>,
}

impl View for DueFolder {
    type V = DueFolderView;

    open spec fn view(&self) -> DueFolderView {
        DueFolderView { path: self.path@, prefix: texts(self.prefix@) }
    }
}

/// A walk through the part of the expiry index that is due: the directories of
/// minutes that are not in the future.
pub struct DueWalk {
    pub current: Vec<String>,
    pub pending: Vec<DueFolder>,
    pub files: Vec<String>,
}

/// Whether the names that lead to a directory of the index are due.
pub open spec fn is_due(names: Seq<Seq<char>>, current: Seq<Seq<char>>) -> bool {
    names_no_later(names, current.take(names.len() as int))
}

/// The directories to walk that an entry of a directory of the index adds.
pub open spec fn due_folders(folder: DueFolderView, entry: EntryView, current: Seq<Seq<char>>) -> Seq<
    DueFolderView,
> {
    match last_name(entry.path) {
        Some(name) => if folder.prefix.len() != 5 && entry.is_directory && is_due(
            folder.prefix.push(name),
            current,
        ) {
            seq![DueFolderView { path: entry.path, prefix: folder.prefix.push(name) }]
        } else {
            seq![]
        },
        None => seq![],
    }
}

/// The directories to walk that the entries of a directory add.
pub open spec fn all_due_folders(
    folder: DueFolderView,
    entries: Seq<EntryView>,
    current: Seq<Seq<char>>,
) -> Seq<DueFolderView>
    decreases entries.len(),
{
    if entries.len() == 0 {
        seq![]
    } else {
        all_due_folders(folder, entries.drop_last(), current) + due_folders(
            folder,
            entries.last(),
            current,
        )
    }
}

/// The index entries in the directory of a minute.
pub open spec fn due_files(folder: DueFolderView, entries: Seq<EntryView>) -> Seq<Seq<char>>
    decreases entries.len(),
{
    if entries.len() == 0 {
        seq![]
    } else {
        let before = due_files(folder, entries.drop_last());
        if folder.prefix.len() == 5 && is_document(entries.last().path) {
            before.push(entries.last().path)
        } else {
            before
        }
    }
}

/// A walk through the index below `root` that has found nothing yet.
pub fn due_expiry_files(root: &str, now: Moment) -> (r: DueWalk)
    requires
        on_clock(now),
    ensures
        texts(r.current@) == minute_names(utc_minute(now.seconds as int / 60)->Some_0),
        views(r.pending@) == seq![DueFolderView { path: root@, prefix: seq![] }],
        r.files@.len() == 0,
        r.wf(),
{
    let current: Vec<String> = match calendar_minute(now.seconds) {
        Some(minute) => minute_directories(minute),
        None => {
            assert(false);
            Vec::new()
        },
    };
    let mut pending: Vec<DueFolder> = Vec::new();
    let folder = DueFolder { path: root.to_owned(), prefix: Vec::new() };
    assert(texts(folder.prefix@) =~= seq![]);
    pending.push(folder);
    assert(views(pending@) =~= seq![DueFolderView { path: root@, prefix: seq![] }]);
    assert(texts(current@).len() == 5);
    DueWalk { current, pending, files: Vec::new() }
}

impl DueWalk {
    /// Five names lead to the current minute, and no more to any directory.
    pub open spec fn wf(self) -> bool {
        &&& self.current@.len() == 5
        &&& forall|i: int| 0 <= i < self.pending@.len() ==> #[trigger] self.pending@[i].prefix@.len() <= 5
    }

    /// The directory to list next: the one that was found last.
    pub fn next(&mut self) -> (r: Option<DueFolder>)
        requires
            old(self).wf(),
        ensures
            final(self).wf(),
            final(self).files@ == old(self).files@,
            final(self).current@ == old(self).current@,
            match r {
                Some(folder) => old(self).pending@.len() > 0 && folder == old(self).pending@.last()
                    && final(self).pending@ == old(self).pending@.drop_last() && folder.prefix@.len()
                    <= 5,
                None => old(self).pending@.len() == 0 && final(self).pending@ == old(self).pending@,
            },
    {
        self.pending.pop()
    }

    /// Takes in what a directory of the index holds.
    pub fn visit(&mut self, folder: &DueFolder, entries: &Vec<Entry>)
        requires
            old(self).wf(),
            folder.prefix@.len() <= 5,
        ensures
            final(self).wf(),
            final(self).current@ == old(self).current@,
            views(final(self).pending@) == views(old(self).pending@) + all_due_folders(
                folder@,
                views(entries@),
                texts(old(self).current@),
            ),
            texts(final(self).files@) == texts(old(self).files@) + due_files(folder@, views(entries@)),
    {
        let ghost all = views(entries@);
        let ghost now = texts(self.current@);
        let ghost waiting = views(self.pending@);
        let ghost seen = texts(self.files@);
        let mut i: usize = 0;
        assert(all.take(0) =~= seq![]);
        assert(waiting =~= waiting + all_due_folders(folder@, all.take(0), now));
        assert(seen =~= seen + due_files(folder@, all.take(0)));
        while i < entries.len()
            invariant
                i <= entries@.len(),
                self.wf(),
                folder.prefix@.len() <= 5,
                all == views(entries@),
                self.current@ == old(self).current@,
                now == texts(self.current@),
                views(self.pending@) == waiting + all_due_folders(folder@, all.take(i as int), now),
                texts(self.files@) == seen + due_files(folder@, all.take(i as int)),
            decreases entries@.len() - i,
        {
            let ghost had_pending = views(self.pending@);
            let ghost had_files = texts(self.files@);
            let ghost entry = entries@[i as int]@;
            assert(all.take(i + 1).drop_last() =~= all.take(i as int));
            assert(all.take(i + 1).last() == entry);
            let ghost more = due_folders(folder@, entry, now);
            assert(waiting + all_due_folders(folder@, all.take(i + 1), now) =~= had_pending + more);
            if folder.prefix.len() == 5 {
                assert(had_pending + more =~= had_pending);
                if document_name(entries[i].path.as_str()).is_some() {
                    self.files.push(entries[i].path.clone());
                    assert(texts(self.files@) =~= had_files.push(entry.path));
                    assert(had_files.push(entry.path) =~= seen + due_files(folder@, all.take(i + 1)));
                }
            } else if entries[i].is_directory {
                match file_name(entries[i].path.as_str()) {
                    Some(name) => {
                        let mut candidate: Vec<String> = copy_texts(&folder.prefix);
                        let ghost label = name@;
                        candidate.push(name);
                        assert(texts(candidate@) =~= folder@.prefix.push(label));
                        if is_names_no_later(&candidate, &self.current) {
                            let next = DueFolder {
                                path: entries[i].path.clone(),
                                prefix: candidate,
                            };
                            let ghost added = next@;
                            self.pending.push(next);
                            assert(views(self.pending@) =~= had_pending.push(added));
                            assert(more =~= seq![added]);
                            assert(had_pending + more =~= had_pending.push(added));
                        } else {
                            assert(had_pending + more =~= had_pending);
                        }
                    },
                    None => {
                        assert(had_pending + more =~= had_pending);
                    },
                }
            } else {
                assert(had_pending + more =~= had_pending);
            }
            i += 1;
        }
        assert(all.take(i as int) =~= all);
    }
}

/// Paths in falling order: none precedes one after it.
pub open spec fn paths_falling(list: Seq<Seq<char>>) -> bool {
    forall|i: int, j: int|
        0 <= i < j < list.len() ==> !path_precedes(
            components(#[trigger] list[i]),
            components(#[trigger] list[j]),
        )
}

/// The paths of a list in falling order.
fn newest_first(list: &Vec<String>) -> (r: Vec<String>)
    ensures
        paths_falling(texts(r@)),
        texts(r@).to_multiset() == texts(list@).to_multiset(),
{
    let rising: Vec<String> = sort_paths(list);
    let ghost all = texts(rising@);
    let mut out: Vec<String> = Vec::new();
    let mut i: usize = rising.len();
    assert(texts(out@) =~= all.skip(i as int).reverse());
    while i > 0
        invariant
            i <= rising@.len(),
            all == texts(rising@),
            texts(out@) == all.skip(i as int).reverse(),
        decreases i,
    {
        i -= 1;
        let ghost had = texts(out@);
        out.push(rising[i].clone());
        assert(texts(out@) =~= had.push(all[i as int]));
        assert(all.skip(i as int).reverse() =~= had.push(all[i as int]));
    }
    proof {
        assert(all.skip(0) =~= all);
        let falling = all.reverse();
        lemma_reverse_multiset(all);
        assert forall|a: int, b: int| 0 <= a < b < falling.len() implies !path_precedes(
            components(#[trigger] falling[a]),
            components(#[trigger] falling[b]),
        ) by {
            assert(falling[a] == all[all.len() - 1 - a]);
            assert(falling[b] == all[all.len() - 1 - b]);
        }
    }
    out
}

proof fn lemma_reverse_multiset<A>(list: Seq<A>)
    ensures
        list.reverse().to_multiset() == list.to_multiset(),
    decreases list.len(),
{
    if list.len() == 0 {
        assert(list.reverse() =~= list);
    } else {
        lemma_reverse_multiset(list.drop_last());
        let rest = list.drop_last().reverse();
        assert(list.reverse() =~= rest.insert(0, list.last()));
        vstd::seq_lib::to_multiset_insert(rest, 0, list.last());
        assert(list =~= list.drop_last().push(list.last()));
        list.drop_last().to_multiset_ensures();
    }
}

/// How deep the directories of minutes lie below a route.
pub const MINUTE_DEPTH: usize = 5;

/// A walk for the newest documents of a route: down the levels of its
/// directories, the latest first, then through the minutes until there are
/// enough documents.
pub struct NewestWalk {
    /// How many levels lie above `directories`.
    pub level: usize,
    /// The directories of the level, the latest first.
    pub directories: Vec<String>,
    /// How many of them have been walked.
    pub position: usize,
    /// The directories found below them, or the documents at the last level.
    pub found: Vec<String>,
}

/// The content of a [`NewestWalk`].
#[verifier::ext_equal]
pub struct NewestView {
    pub level: int,
    pub directories: Seq<Seq<char>>,
    pub position: int,
    pub found: Seq<Seq<char>>,
}

impl View for NewestWalk {
    type V = NewestView;

    open spec fn view(&self) -> NewestView {
        NewestView {
            level: self.level as int,
            directories: texts(self.directories@),
            position: self.position as int,
            found: texts(self.found@),
        }
    }
}

/// A walk for the newest documents that has not begun.
pub open spec fn newest_start(route_root: Seq<char>) -> NewestView {
    NewestView { level: 0, directories: seq![route_root], position: 0, found: seq![] }
}

/// Whether a walk for the newest documents is over: no directory is left, or it
/// has come to the minutes and found enough.
pub open spec fn newest_is_over(walk: NewestView, limit: nat) -> bool {
    walk.position >= walk.directories.len() || (walk.level >= MINUTE_DEPTH && walk.position > 0
        && walk.found.len() >= limit)
}

/// Whether a walk goes on so after it has listed a directory above the minutes.
/// After the last one of a level it goes down to the next, the latest first.
pub open spec fn is_newest_step(
    before: NewestView,
    entries: Seq<EntryView>,
    after: NewestView,
) -> bool {
    let below = before.found + directories_in(entries);
    if before.position + 1 < before.directories.len() {
        after == (NewestView { position: before.position + 1, found: below, ..before })
    } else {
        &&& after.level == before.level + 1
        &&& paths_falling(after.directories)
        &&& after.directories.to_multiset() == below.to_multiset()
        &&& after.position == 0
        &&& after.found == Seq::<Seq<char>>::empty()
    }
}

/// A walk after it has taken the documents of a minute.
pub open spec fn newest_collected(before: NewestView, documents: Seq<Seq<char>>) -> NewestView {
    NewestView { position: before.position + 1, found: before.found + documents, ..before }
}

/// A walk for the newest documents below `route_root`.
pub fn newest_paths(route_root: &str) -> (r: NewestWalk)
    ensures
        r@ == newest_start(route_root@),
{
    let mut directories: Vec<String> = Vec::new();
    directories.push(route_root.to_owned());
    let r = NewestWalk { level: 0, directories, position: 0, found: Vec::new() };
    assert(r@ =~= newest_start(route_root@));
    r
}

impl NewestWalk {
    /// Whether the walk has come to the directories of minutes.
    pub fn at_minutes(&self) -> (r: bool)
        ensures
            r == (self.level >= MINUTE_DEPTH),
    {
        self.level >= MINUTE_DEPTH
    }

    /// The next directory: at the last level, one whose documents are wanted
    /// while there are not enough yet; above it, one to list.
    pub fn next(&self, limit: usize) -> (r: Option<String>)
        ensures
            match r {
                Some(directory) => !newest_is_over(self@, limit as nat) && directory@
                    == self@.directories[self@.position],
                None => newest_is_over(self@, limit as nat),
            },
    {
        if self.position >= self.directories.len() {
            return None;
        }
        if self.level >= MINUTE_DEPTH && self.position > 0 && self.found.len() >= limit {
            return None;
        }
        Some(self.directories[self.position].clone())
    }

    /// Takes in what a directory above the minutes holds.
    pub fn visit(&mut self, entries: &Vec<Entry>)
        requires
            old(self).level < MINUTE_DEPTH,
            old(self).position < old(self).directories@.len(),
        ensures
            is_newest_step(old(self)@, views(entries@), final(self)@),
    {
        let mut more: Vec<String> = directories_of(entries);
        let ghost had = texts(self.found@);
        let ghost added = texts(more@);
        self.found.append(&mut more);
        assert(texts(self.found@) =~= had + added);
        let count: usize = self.directories.len();
        self.position += 1;
        if self.position >= count {
            self.level += 1;
            self.directories = newest_first(&self.found);
            self.position = 0;
            self.found = Vec::new();
            assert(texts(self.found@) =~= seq![]);
        }
    }

    /// Takes in the documents of a minute.
    pub fn collect(&mut self, documents: &Vec<String>)
        requires
            old(self).level >= MINUTE_DEPTH,
            old(self).position < old(self).directories@.len(),
        ensures
            final(self)@ == newest_collected(old(self)@, texts(documents@)),
    {
        let mut more: Vec<String> = copy_texts(documents);
        let ghost had = texts(self.found@);
        self.found.append(&mut more);
        assert(texts(self.found@) =~= had + texts(documents@));
        assert(self.directories.len() <= usize::MAX);
        self.position += 1;
    }
}

/// Which documents of a directory go and which stay.
pub struct Pruning {
    pub removed: Vec<String>,
    pub kept: Vec<String>,
}

/// Parts documents in their order: all but the last `retain` go.
pub fn prune(paths: &Vec<String>, retain: usize) -> (r: Pruning)
    ensures
        paths_sorted(texts(r.removed@) + texts(r.kept@)),
        (texts(r.removed@) + texts(r.kept@)).to_multiset() == texts(paths@).to_multiset(),
        r.kept@.len() == if paths@.len() < retain {
            paths@.len() as int
        } else {
            retain as int
        },
{
    let ordered: Vec<String> = sort_paths(paths);
    let count: usize = if ordered.len() > retain {
        ordered.len() - retain
    } else {
        0
    };
    let ghost all = texts(ordered@);
    let mut removed: Vec<String> = Vec::new();
    let mut kept: Vec<String> = Vec::new();
    let mut i: usize = 0;
    assert(texts(removed@) + texts(kept@) =~= all.take(0));
    while i < ordered.len()
        invariant
            i <= ordered@.len(),
            count <= ordered@.len(),
            all == texts(ordered@),
            texts(removed@) + texts(kept@) == all.take(i as int),
            i <= count ==> kept@.len() == 0,
            i > count ==> kept@.len() == i - count,
        decreases ordered@.len() - i,
    {
        let ghost gone = texts(removed@);
        let ghost stay = texts(kept@);
        let path: String = ordered[i].clone();
        assert(all.take(i + 1) =~= all.take(i as int).push(all[i as int]));
        if i < count {
            removed.push(path);
            assert(texts(removed@) =~= gone.push(all[i as int]));
            assert(stay =~= seq![]);
            assert(gone.push(all[i as int]) + stay =~= (gone + stay).push(all[i as int]));
        } else {
            kept.push(path);
            assert(texts(kept@) =~= stay.push(all[i as int]));
            assert(gone + stay.push(all[i as int]) =~= (gone + stay).push(all[i as int]));
        }
        i += 1;
    }
    assert(all.take(i as int) =~= all);
    Pruning { removed, kept }
}

/// The document that comes last in the order of paths.
pub fn latest(paths: &Vec<String>) -> (r: Option<String>)
    ensures
        match r {
            Some(path) => texts(paths@).contains(path@) && forall|i: int|
                0 <= i < paths@.len() ==> !path_precedes(
                    components(path@),
                    components(#[trigger] paths@[i]@),
                ),
            None => paths@.len() == 0,
        },
{
    let ordered: Vec<String> = sort_paths(paths);
    if ordered.len() == 0 {
        return None;
    }
    let last: String = ordered[ordered.len() - 1].clone();
    proof {
        let all = texts(ordered@);
        let given = texts(paths@);
        all.to_multiset_ensures();
        given.to_multiset_ensures();
        assert(all.contains(all.last()));
        assert(given.to_multiset().count(all.last()) > 0);
        assert(given.contains(all.last()));
        assert forall|i: int| 0 <= i < paths@.len() implies !path_precedes(
            components(last@),
            components(#[trigger] paths@[i]@),
        ) by {
            assert(given[i] == paths@[i]@);
            assert(given.contains(given[i]));
            assert(all.to_multiset().count(given[i]) > 0);
            assert(all.contains(given[i]));
            let k = choose|k: int| 0 <= k < all.len() && all[k] == given[i];
            if k == all.len() - 1 {
                crate::path::lemma_path_irreflexive(components(last@));
            }
        }
    }
    Some(last)
}

} // verus!
