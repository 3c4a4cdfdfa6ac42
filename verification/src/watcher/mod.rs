//! Changes of files: what the watcher reports, and what happened while the
//! application was not running.
use vstd::prelude::*;

use crate::select;
use crate::text;
use crate::text::chars;
use crate::text::find;

pub mod handler;

verus! {

/// A change of a file, with the path of the file.
#[derive(Debug)]
pub enum FileEvent {
    /// There is a new file.
    Created(String),
    /// The file is another one.
    Modified(String),
    /// The file is gone.
    Deleted(String),
}

/// A change of a file, as a model.
pub enum EventView {
    /// There is a new file.
    Created(Seq<char>),
    /// The file is another one.
    Modified(Seq<char>),
    /// The file is gone.
    Deleted(Seq<char>),
}

impl View for FileEvent {
    type V = EventView;

    open spec fn view(&self) -> EventView {
        match self {
            FileEvent::Created(p) => EventView::Created(p@),
            FileEvent::Modified(p) => EventView::Modified(p@),
            FileEvent::Deleted(p) => EventView::Deleted(p@),
        }
    }
}

/// The changes of a list.
pub open spec fn event_views(v: Seq<FileEvent>) -> Seq<EventView> {
    Seq::new(v.len(), |i: int| v[i]@)
}

impl EventView {
    /// The path of the file.
    pub open spec fn path(self) -> Seq<char> {
        match self {
            EventView::Created(p) => p,
            EventView::Modified(p) => p,
            EventView::Deleted(p) => p,
        }
    }
}

impl FileEvent {
    /// The path of the file.
    pub fn path(&self) -> (r: String)
        ensures
            r@ == self@.path(),
    {
        match self {
            FileEvent::Created(p) => p.clone(),
            FileEvent::Modified(p) => p.clone(),
            FileEvent::Deleted(p) => p.clone(),
        }
    }
}

/// Files whose changes are reported.
pub const WATCHED_EXTENSIONS: [&'static str; 8] = [
    "txt", "md", "pdf", "docx", "xlsx", "xls", "pptx", "svg",
];

/// Whether changes of files with an extension in lower case are reported.
pub fn is_watched(extension: &str) -> (r: bool)
    ensures
        r == find::is_any(extension@, WATCHED_EXTENSIONS@),
{
    find::same_as_any(extension, WATCHED_EXTENSIONS.as_slice())
}

/// Changes of a file are reported, whatever the case of its extension.
pub open spec fn watched(extension: Option<&str>) -> bool {
    match extension {
        Some(e) => find::is_any(chars::lowercase(e@), WATCHED_EXTENSIONS@),
        None => false,
    }
}

/// Whether changes of a file are reported, whatever the case of its extension.
pub fn is_watched_file(extension: Option<&str>) -> (r: bool)
    ensures
        r == watched(extension),
{
    match extension {
        Some(e) => is_watched(e.to_lowercase().as_str()),
        None => false,
    }
}

/// What happened to a file.
#[derive(Clone, Copy, Debug, PartialEq, Eq, Structural)]
pub enum ChangeKind {
    /// It was created.
    Create,
    /// It was modified.
    Modify,
    /// It was removed.
    Remove,
    /// Something else.
    Other,
}

/// The change that is reported for a file, if any.
pub open spec fn reported(kind: ChangeKind, path: Seq<char>, watched: bool) -> Option<EventView> {
    if !watched {
        None
    } else {
        match kind {
            ChangeKind::Create => Some(EventView::Created(path)),
            ChangeKind::Modify => Some(EventView::Modified(path)),
            ChangeKind::Remove => Some(EventView::Deleted(path)),
            ChangeKind::Other => None,
        }
    }
}

/// The change that is reported for a file whose changes are, or are not,
/// reported at all.
pub fn report(kind: ChangeKind, path: &str, watched: bool) -> (r: Option<FileEvent>)
    ensures
        match r {
            Some(e) => reported(kind, path@, watched) == Some(e@),
            None => reported(kind, path@, watched) is None,
        },
{
    if !watched {
        return None;
    }
    let p: String = crate::text::edit::owned(path);
    match kind {
        ChangeKind::Create => Some(FileEvent::Created(p)),
        ChangeKind::Modify => Some(FileEvent::Modified(p)),
        ChangeKind::Remove => Some(FileEvent::Deleted(p)),
        ChangeKind::Other => None,
    }
}

/// The change that is reported for a file, by its extension.
pub fn report_file(kind: ChangeKind, path: &str, extension: Option<&str>) -> (r: Option<FileEvent>)
    ensures
        match r {
            Some(e) => reported(kind, path@, watched(extension)) == Some(e@),
            None => reported(kind, path@, watched(extension)) is None,
        },
{
    report(kind, path, is_watched_file(extension))
}

/// Whether the files of a folder are looked at: not where its name begins with
/// a point.
pub fn enters(name: Option<&str>) -> (r: bool)
    ensures
        r == match name {
            Some(n) => !find::begins(n@, "."@),
            None => true,
        },
{
    match name {
        Some(n) => !find::starts_with(n, "."),
        None => true,
    }
}

/// The folders that are watched.
#[derive(Debug)]
pub struct FolderWatcher {
    /// Their paths, in the order in which they were added.
    pub watched_paths: Vec<String>,
}

/// The paths without those that equal one.
pub open spec fn without_path(paths: Seq<Seq<char>>, path: Seq<char>) -> Seq<Seq<char>>
    decreases paths.len(),
{
    if paths.len() == 0 {
        paths
    } else if paths.last() == path {
        without_path(paths.drop_last(), path)
    } else {
        without_path(paths.drop_last(), path).push(paths.last())
    }
}

impl FolderWatcher {
    /// No folder is watched.
    pub fn new() -> (r: FolderWatcher)
        ensures
            r.watched_paths@.len() == 0,
    {
        FolderWatcher { watched_paths: Vec::new() }
    }

    /// A folder is watched from now on.
    pub fn watch_folder(&mut self, path: String)
        ensures
            final(self).watched_paths@ == old(self).watched_paths@.push(path),
    {
        self.watched_paths.push(path);
    }

    /// A folder is not watched any more.
    pub fn unwatch_folder(&mut self, path: &str)
        ensures
            text::views(final(self).watched_paths@) == without_path(
                text::views(old(self).watched_paths@),
                path@,
            ),
    {
        let ghost all = text::views(self.watched_paths@);
        let mut kept: Vec<String> = Vec::new();
        let mut i: usize = 0;
        while i < self.watched_paths.len()
            invariant
                i <= self.watched_paths@.len(),
                all == text::views(self.watched_paths@),
                text::views(kept@) == without_path(all.take(i as int), path@),
            decreases self.watched_paths@.len() - i,
        {
            assert(all.take(i + 1).drop_last() =~= all.take(i as int));
            if !find::same(self.watched_paths[i].as_str(), path) {
                let ghost before = text::views(kept@);
                kept.push(self.watched_paths[i].clone());
                assert(text::views(kept@) =~= before.push(all[i as int]));
            }
            i += 1;
        }
        assert(all.take(all.len() as int) =~= all);
        self.watched_paths = kept;
    }

    /// The folders that are watched.
    pub fn watched_folders(&self) -> (r: &Vec<String>)
        ensures
            *r == self.watched_paths,
    {
        &self.watched_paths
    }
}

/// The files of a list, with the time of their last change.
pub open spec fn stamps(v: Seq<(String, i64)>) -> Seq<(Seq<char>, i64)> {
    Seq::new(v.len(), |i: int| (v[i].0@, v[i].1))
}

/// The file has an entry in the list.
pub open spec fn has_file(files: Seq<(Seq<char>, i64)>, path: Seq<char>) -> bool {
    exists|i: int| 0 <= i < files.len() && (#[trigger] files[i]).0 == path
}

/// No file has two entries.
pub open spec fn once_each(files: Seq<(Seq<char>, i64)>) -> bool {
    forall|i: int, j: int|
        0 <= i < j < files.len() ==> (#[trigger] files[i]).0 != (#[trigger] files[j]).0
}

/// When the file was changed last, by the first entry that it has.
pub open spec fn stamp_of(files: Seq<(Seq<char>, i64)>, path: Seq<char>) -> Option<i64>
    decreases files.len(),
{
    if files.len() == 0 {
        None
    } else if files[0].0 == path {
        Some(files[0].1)
    } else {
        stamp_of(files.drop_first(), path)
    }
}

/// A file has a stamp where it has an entry.
pub proof fn lemma_stamp_of(files: Seq<(Seq<char>, i64)>, path: Seq<char>)
    ensures
        stamp_of(files, path) is Some <==> has_file(files, path),
    decreases files.len(),
{
    if files.len() > 0 {
        let rest = files.drop_first();
        lemma_stamp_of(rest, path);
        if files[0].0 != path {
            if has_file(files, path) {
                let i = choose|i: int| 0 <= i < files.len() && (#[trigger] files[i]).0 == path;
                assert(rest[i - 1].0 == path);
            }
            if has_file(rest, path) {
                let i = choose|i: int| 0 <= i < rest.len() && (#[trigger] rest[i]).0 == path;
                assert(files[i + 1].0 == path);
            }
        }
    }
}

/// Where no file has two entries, its stamp is that of its entry.
pub proof fn lemma_stamp_at(files: Seq<(Seq<char>, i64)>, i: int)
    requires
        once_each(files),
        0 <= i < files.len(),
    ensures
        stamp_of(files, files[i].0) == Some(files[i].1),
    decreases files.len(),
{
    if i > 0 {
        let rest = files.drop_first();
        assert(rest[i - 1] == files[i]);
        assert forall|a: int, b: int| 0 <= a < b < rest.len() implies (#[trigger] rest[a]).0 != (
        #[trigger] rest[b]).0 by {
            assert(rest[a] == files[a + 1] && rest[b] == files[b + 1]);
        }
        lemma_stamp_at(rest, i - 1);
        assert(files[0].0 != files[i].0);
    }
}

/// When the file was changed last, by the first entry that it has.
pub fn find_stamp(files: &Vec<(String, i64)>, path: &str) -> (r: Option<i64>)
    ensures
        r == stamp_of(stamps(files@), path@),
{
    let ghost all = stamps(files@);
    let mut i: usize = 0;
    assert(all.skip(0) =~= all);
    while i < files.len()
        invariant
            i <= files@.len(),
            all == stamps(files@),
            stamp_of(all, path@) == stamp_of(all.skip(i as int), path@),
        decreases files@.len() - i,
    {
        assert(all.skip(i as int)[0] == all[i as int]);
        if find::same(files[i].0.as_str(), path) {
            return Some(files[i].1);
        }
        assert(all.skip(i as int).drop_first() =~= all.skip(i + 1));
        i += 1;
    }
    assert(all.skip(all.len() as int) =~= Seq::empty());
    None
}

/// What happened to the files that are there: new ones, and those that are
/// newer than what is known of them.
pub open spec fn found_changes(
    files: Seq<(Seq<char>, i64)>,
    known: Seq<(Seq<char>, i64)>,
) -> Seq<EventView>
    decreases files.len(),
{
    if files.len() == 0 {
        Seq::empty()
    } else {
        let before = found_changes(files.drop_last(), known);
        let (path, modified) = files.last();
        match stamp_of(known, path) {
            None => before.push(EventView::Created(path)),
            Some(last) => if modified > last {
                before.push(EventView::Modified(path))
            } else {
                before
            },
        }
    }
}

/// The files that are known and not there any more.
pub open spec fn lost_files(
    known: Seq<(Seq<char>, i64)>,
    files: Seq<(Seq<char>, i64)>,
) -> Seq<Seq<char>>
    decreases known.len(),
{
    if known.len() == 0 {
        Seq::empty()
    } else {
        let before = lost_files(known.drop_last(), files);
        if has_file(files, known.last().0) {
            before
        } else {
            before.push(known.last().0)
        }
    }
}

/// The files that are known and not there any more.
pub fn find_lost(known: &Vec<(String, i64)>, files: &Vec<(String, i64)>) -> (r: Vec<String>)
    ensures
        text::views(r@) == lost_files(stamps(known@), stamps(files@)),
{
    let ghost ks = stamps(known@);
    let mut out: Vec<String> = Vec::new();
    let mut i: usize = 0;
    while i < known.len()
        invariant
            i <= known@.len(),
            ks == stamps(known@),
            text::views(out@) == lost_files(ks.take(i as int), stamps(files@)),
        decreases known@.len() - i,
    {
        assert(ks.take(i + 1).drop_last() =~= ks.take(i as int));
        proof {
            lemma_stamp_of(stamps(files@), ks[i as int].0);
        }
        if find_stamp(files, known[i].0.as_str()).is_none() {
            let ghost before = text::views(out@);
            out.push(known[i].0.clone());
            assert(text::views(out@) =~= before.push(ks[i as int].0));
        }
        i += 1;
    }
    assert(ks.take(ks.len() as int) =~= ks);
    out
}

/// The files that are gone.
pub open spec fn gone(paths: Seq<Seq<char>>) -> Seq<EventView> {
    Seq::new(paths.len(), |i: int| EventView::Deleted(paths[i]))
}

/// What happened to the files of a folder since they were indexed.
pub open spec fn changes(
    files: Seq<(Seq<char>, i64)>,
    known: Seq<(Seq<char>, i64)>,
) -> Seq<EventView> {
    found_changes(files, known) + gone(lost_files(known, files))
}

/// What happened to the files of a folder since they were indexed: given the
/// files that are there, and those that are known, with the time of their last
/// change.
pub fn detect_changed_files(
    files: &Vec<(String, i64)>,
    known_files: &Vec<(String, i64)>,
) -> (r: Vec<FileEvent>)
    ensures
        event_views(r@) == changes(stamps(files@), stamps(known_files@)),
{
    let ghost fs = stamps(files@);
    let ghost ks = stamps(known_files@);
    let mut out: Vec<FileEvent> = Vec::new();
    let mut i: usize = 0;
    while i < files.len()
        invariant
            i <= files@.len(),
            fs == stamps(files@),
            ks == stamps(known_files@),
            event_views(out@) == found_changes(fs.take(i as int), ks),
        decreases files@.len() - i,
    {
        assert(fs.take(i + 1).drop_last() =~= fs.take(i as int));
        let ghost before = event_views(out@);
        match find_stamp(known_files, files[i].0.as_str()) {
            None => {
                out.push(FileEvent::Created(files[i].0.clone()));
                assert(event_views(out@) =~= before.push(EventView::Created(fs[i as int].0)));
            },
            Some(last) => {
                if files[i].1 > last {
                    out.push(FileEvent::Modified(files[i].0.clone()));
                    assert(event_views(out@) =~= before.push(EventView::Modified(fs[i as int].0)));
                }
            },
        }
        i += 1;
    }
    assert(fs.take(fs.len() as int) =~= fs);
    let lost: Vec<String> = find_lost(known_files, files);
    let ghost found = event_views(out@);
    let ghost ls = text::views(lost@);
    let mut k: usize = 0;
    while k < lost.len()
        invariant
            k <= lost@.len(),
            ls == text::views(lost@),
            event_views(out@) == found + gone(ls).take(k as int),
        decreases lost@.len() - k,
    {
        let ghost before = event_views(out@);
        out.push(FileEvent::Deleted(lost[k].clone()));
        assert(event_views(out@) =~= before.push(EventView::Deleted(ls[k as int])));
        assert(event_views(out@) =~= found + gone(ls).take(k + 1));
        k += 1;
    }
    assert(gone(ls).take(ls.len() as int) =~= gone(ls));
    out
}

proof fn lemma_found(files: Seq<(Seq<char>, i64)>, known: Seq<(Seq<char>, i64)>, e: EventView)
    ensures
        found_changes(files, known).contains(e) <==> exists|i: int|
            0 <= i < files.len() && is_found(#[trigger] files[i], known, e),
    decreases files.len(),
{
    if files.len() > 0 {
        let front = files.drop_last();
        let before = found_changes(front, known);
        let all = found_changes(files, known);
        lemma_found(front, known, e);
        if all.contains(e) {
            let k = choose|k: int| 0 <= k < all.len() && all[k] == e;
            if k < before.len() {
                assert(before[k] == e);
                assert(before.contains(e));
                let i = choose|i: int| 0 <= i < front.len() && is_found(#[trigger] front[i], known, e);
                assert(is_found(files[i], known, e));
            } else {
                assert(is_found(files[files.len() - 1], known, e));
            }
        }
        if exists|i: int| 0 <= i < files.len() && is_found(#[trigger] files[i], known, e) {
            let i = choose|i: int| 0 <= i < files.len() && is_found(#[trigger] files[i], known, e);
            if i < front.len() {
                assert(is_found(front[i], known, e));
                assert(before.contains(e));
                let k = choose|k: int| 0 <= k < before.len() && before[k] == e;
                assert(all[k] == e);
            } else {
                assert(all[all.len() - 1] == e);
            }
        }
    }
}

/// The entry of a file that is there gives rise to the change.
pub open spec fn is_found(
    file: (Seq<char>, i64),
    known: Seq<(Seq<char>, i64)>,
    e: EventView,
) -> bool {
    match stamp_of(known, file.0) {
        None => e == EventView::Created(file.0),
        Some(last) => file.1 > last && e == EventView::Modified(file.0),
    }
}

proof fn lemma_lost(known: Seq<(Seq<char>, i64)>, files: Seq<(Seq<char>, i64)>, p: Seq<char>)
    ensures
        lost_files(known, files).contains(p) <==> has_file(known, p) && !has_file(files, p),
    decreases known.len(),
{
    if known.len() > 0 {
        let front = known.drop_last();
        let before = lost_files(front, files);
        let all = lost_files(known, files);
        lemma_lost(front, files, p);
        if all.contains(p) {
            let k = choose|k: int| 0 <= k < all.len() && all[k] == p;
            if k < before.len() {
                assert(before[k] == p);
                assert(before.contains(p));
                let i = choose|i: int| 0 <= i < front.len() && (#[trigger] front[i]).0 == p;
                assert(known[i].0 == p);
            } else {
                assert(known[known.len() - 1].0 == p);
            }
        }
        if has_file(known, p) && !has_file(files, p) {
            let i = choose|i: int| 0 <= i < known.len() && (#[trigger] known[i]).0 == p;
            if i < front.len() {
                assert(front[i].0 == p);
                assert(before.contains(p));
                let k = choose|k: int| 0 <= k < before.len() && before[k] == p;
                assert(all[k] == p);
            } else {
                assert(all[all.len() - 1] == p);
            }
        }
    }
}

/// A file is reported as new exactly where it is there and not known, as gone
/// exactly where it is known and not there, and as modified exactly where it is
/// known and has a newer entry.
pub proof fn law_changes(
    files: Seq<(Seq<char>, i64)>,
    known: Seq<(Seq<char>, i64)>,
    path: Seq<char>,
)
    ensures
        changes(files, known).contains(EventView::Created(path)) <==> has_file(files, path)
            && !has_file(known, path),
        changes(files, known).contains(EventView::Deleted(path)) <==> has_file(known, path)
            && !has_file(files, path),
        changes(files, known).contains(EventView::Modified(path)) <==> exists|i: int|
            0 <= i < files.len() && (#[trigger] files[i]).0 == path && stamp_of(known, path) is Some
                && files[i].1 > stamp_of(known, path)->0,
{
    let found = found_changes(files, known);
    let lost = lost_files(known, files);
    let all = changes(files, known);
    lemma_stamp_of(known, path);
    lemma_lost(known, files, path);
    let c = EventView::Created(path);
    let m = EventView::Modified(path);
    let d = EventView::Deleted(path);
    lemma_found(files, known, c);
    lemma_found(files, known, m);
    lemma_found(files, known, d);
    assert forall|e: EventView| all.contains(e) <==> found.contains(e) || gone(lost).contains(e) by {
        if all.contains(e) {
            let k = choose|k: int| 0 <= k < all.len() && all[k] == e;
            if k < found.len() {
                assert(found[k] == e);
            } else {
                assert(gone(lost)[k - found.len()] == e);
            }
        }
        if found.contains(e) {
            let k = choose|k: int| 0 <= k < found.len() && found[k] == e;
            assert(all[k] == e);
        }
        if gone(lost).contains(e) {
            let k = choose|k: int| 0 <= k < gone(lost).len() && gone(lost)[k] == e;
            assert(all[found.len() + k] == e);
        }
    }
    assert(gone(lost).contains(d) <==> lost.contains(path)) by {
        if lost.contains(path) {
            let k = choose|k: int| 0 <= k < lost.len() && lost[k] == path;
            assert(gone(lost)[k] == d);
        }
    }
    assert(!gone(lost).contains(c));
    assert(!gone(lost).contains(m));
    if has_file(files, path) && !has_file(known, path) {
        let i = choose|i: int| 0 <= i < files.len() && (#[trigger] files[i]).0 == path;
        assert(is_found(files[i], known, c));
    }
    if found.contains(c) {
        let i = choose|i: int| 0 <= i < files.len() && is_found(#[trigger] files[i], known, c);
        assert(files[i].0 == path);
    }
    if found.contains(m) {
        let i = choose|i: int| 0 <= i < files.len() && is_found(#[trigger] files[i], known, m);
        assert(files[i].0 == path);
    }
    if exists|i: int|
        0 <= i < files.len() && (#[trigger] files[i]).0 == path && stamp_of(known, path) is Some
            && files[i].1 > stamp_of(known, path)->0 {
        let i = choose|i: int|
            0 <= i < files.len() && (#[trigger] files[i]).0 == path && stamp_of(known, path) is Some
                && files[i].1 > stamp_of(known, path)->0;
        assert(is_found(files[i], known, m));
    }
}

/// Nothing happened to files that are known as they are.
pub proof fn law_no_changes(files: Seq<(Seq<char>, i64)>)
    requires
        once_each(files),
    ensures
        changes(files, files).len() == 0,
{
    let all = changes(files, files);
    if all.len() > 0 {
        let e = all[0];
        assert(all.contains(e));
        law_changes(files, files, e.path());
        if e is Modified {
            let i = choose|i: int|
                0 <= i < files.len() && (#[trigger] files[i]).0 == e.path() && stamp_of(
                    files,
                    e.path(),
                ) is Some && files[i].1 > stamp_of(files, e.path())->0;
            lemma_stamp_at(files, i);
        }
    }
}

/// What the loop that collects changes does next.
#[derive(Clone, Copy, Debug, PartialEq, Eq, Structural)]
pub enum WatchStep {
    /// It waits for further changes.
    Wait,
    /// It indexes what was collected.
    Index,
    /// It ends.
    End,
}

/// How long, in seconds, nothing has to happen before changes are indexed.
pub const QUIET_SECONDS: u64 = 2;

/// What the loop that collects changes waited for.
#[derive(Clone, Copy, Debug, PartialEq, Eq, Structural)]
pub enum WatchSignal {
    /// There was a change.
    Changed,
    /// Nothing happened for a while.
    Quiet,
    /// There will be no further change.
    Closed,
}

/// What the loop does next: changes are indexed once nothing happened for a
/// while.
pub fn watch_step(signal: WatchSignal, pending: usize) -> (r: WatchStep)
    ensures
        r == match signal {
            WatchSignal::Changed => WatchStep::Wait,
            WatchSignal::Closed => WatchStep::End,
            WatchSignal::Quiet => if pending == 0 {
                WatchStep::Wait
            } else {
                WatchStep::Index
            },
        },
{
    match signal {
        WatchSignal::Changed => WatchStep::Wait,
        WatchSignal::Closed => WatchStep::End,
        WatchSignal::Quiet => if pending == 0 {
            WatchStep::Wait
        } else {
            WatchStep::Index
        },
    }
}

/// The first folder, by its path, that the file is in.
pub open spec fn folder_at(folders: Seq<(String, String)>, path: Seq<char>, i: int) -> Option<int>
    decreases folders.len() - i,
{
    if i < 0 || i >= folders.len() {
        None
    } else if find::begins(path, folders[i].1@) {
        Some(i)
    } else {
        folder_at(folders, path, i + 1)
    }
}

/// The folder that a file is in, of folders with their identifiers and paths;
/// an empty text where there is none.
pub fn folder_of(folders: &Vec<(String, String)>, path: &str) -> (r: String)
    ensures
        r@ == match folder_at(folders@, path@, 0) {
            Some(i) => folders@[i].0@,
            None => Seq::empty(),
        },
{
    let mut i: usize = 0;
    while i < folders.len()
        invariant
            i <= folders@.len(),
            folder_at(folders@, path@, 0) == folder_at(folders@, path@, i as int),
        decreases folders@.len() - i,
    {
        if find::starts_with(path, folders[i].1.as_str()) {
            return folders[i].0.clone();
        }
        i += 1;
    }
    String::new()
}

/// How many changes were indexed.
#[derive(Clone, Copy, Debug)]
pub struct WatchCounts {
    /// Files that were indexed.
    pub indexed: usize,
    /// Files that were taken out.
    pub deleted: usize,
    /// Files that failed.
    pub errors: usize,
}

/// What came of a change.
#[derive(Clone, Copy, Debug, PartialEq, Eq, Structural)]
pub enum WatchOutcome {
    /// The file was indexed.
    Indexed,
    /// The file was taken out.
    Deleted,
    /// The file is of a kind that is not indexed.
    Skipped,
    /// The file failed, or is in no folder.
    Failed,
}

impl WatchCounts {
    /// Nothing was done yet.
    pub fn new() -> (r: WatchCounts)
        ensures
            r.indexed == 0,
            r.deleted == 0,
            r.errors == 0,
    {
        WatchCounts { indexed: 0, deleted: 0, errors: 0 }
    }

    /// How many changes were counted.
    pub open spec fn total(self) -> int {
        self.indexed + self.deleted + self.errors
    }

    /// Counts what came of a change.
    pub fn count(&mut self, outcome: WatchOutcome)
        requires
            old(self).total() < usize::MAX,
        ensures
            final(self).indexed == old(self).indexed + if outcome == WatchOutcome::Indexed {
                1int
            } else {
                0
            },
            final(self).deleted == old(self).deleted + if outcome == WatchOutcome::Deleted {
                1int
            } else {
                0
            },
            final(self).errors == old(self).errors + if outcome == WatchOutcome::Failed {
                1int
            } else {
                0
            },
    {
        match outcome {
            WatchOutcome::Indexed => {
                self.indexed = self.indexed + 1;
            },
            WatchOutcome::Deleted => {
                self.deleted = self.deleted + 1;
            },
            WatchOutcome::Failed => {
                self.errors = self.errors + 1;
            },
            WatchOutcome::Skipped => {},
        }
    }

    /// Whether the vector index has to be saved.
    pub fn changed(&self) -> (r: bool)
        ensures
            r == (self.indexed > 0 || self.deleted > 0),
    {
        self.indexed > 0 || self.deleted > 0
    }
}

/// The files that are gone are exactly those that are known and not there, in the
/// order in which they are known.
pub proof fn law_lost_files(known: Seq<(Seq<char>, i64)>, files: Seq<(Seq<char>, i64)>) -> (ps: Seq<
    int,
>)
    ensures
        select::exactly(
            ps,
            known.len() as int,
            |i: int|
                forall|j: int|
                    0 <= j < files.len() ==> (#[trigger] files[j]).0 != known[i].0,
        ),
        lost_files(known, files) == Seq::new(ps.len(), |k: int| known[ps[k]].0),
{
    let p = |i: int|
        forall|j: int| 0 <= j < files.len() ==> (#[trigger] files[j]).0 != known[i].0;
    let f = |n: int| lost_files(known.take(n), files);
    assert forall|n: int| 0 < n <= known.len() implies #[trigger] f(n) == if p(n - 1) {
        f(n - 1).push(known[n - 1].0)
    } else {
        f(n - 1)
    } by {
        assert(known.take(n).drop_last() =~= known.take(n - 1));
        assert(p(n - 1) == !has_file(files, known[n - 1].0));
    }
    assert(known.take(known.len() as int) =~= known);
    select::lemma_exactly(known.len() as int, p, |i: int| known[i].0, f)
}

/// A folder that is not watched any more is taken off the list, as often as it
/// stands there, and no other is.
pub proof fn law_without_path(paths: Seq<Seq<char>>, path: Seq<char>) -> (ps: Seq<int>)
    ensures
        select::exactly(ps, paths.len() as int, |i: int| paths[i] != path),
        without_path(paths, path) == Seq::new(ps.len(), |k: int| paths[ps[k]]),
{
    let p = |i: int| paths[i] != path;
    let f = |n: int| without_path(paths.take(n), path);
    assert forall|n: int| 0 < n <= paths.len() implies #[trigger] f(n) == if p(n - 1) {
        f(n - 1).push(paths[n - 1])
    } else {
        f(n - 1)
    } by {
        assert(paths.take(n).drop_last() =~= paths.take(n - 1));
    }
    assert(paths.take(0) =~= Seq::empty());
    assert(paths.take(paths.len() as int) =~= paths);
    select::lemma_exactly(paths.len() as int, p, |i: int| paths[i], f)
}

/// A file belongs to the first folder whose path its own begins with; to none only
/// where there is no such folder.
pub proof fn law_folder_of(folders: Seq<(String, String)>, path: Seq<char>, from: int)
    requires
        0 <= from,
    ensures
        match folder_at(folders, path, from) {
            Some(i) => {
                &&& from <= i < folders.len()
                &&& folders[i].1@.is_prefix_of(path)
                &&& forall|j: int|
                    from <= j < i ==> !(#[trigger] folders[j]).1@.is_prefix_of(path)
            },
            None => forall|j: int|
                from <= j < folders.len() ==> !(#[trigger] folders[j]).1@.is_prefix_of(path),
        },
    decreases folders.len() - from,
{
    if from < folders.len() {
        let dir = folders[from].1@;
        assert(find::begins(path, dir) == dir.is_prefix_of(path)) by {
            if dir.len() <= path.len() {
                assert(path.subrange(0, (0 + dir.len()) as int) =~= path.subrange(0, dir.len() as int));
            }
        }
        if !find::begins(path, dir) {
            law_folder_of(folders, path, from + 1);
        }
    }
}

/// A change is reported exactly for a file that is watched, as what it is: created,
/// modified or removed; other changes are not.
pub proof fn law_reported(kind: ChangeKind, path: Seq<char>)
    ensures
        reported(kind, path, false) is None,
        reported(ChangeKind::Create, path, true) == Some(EventView::Created(path)),
        reported(ChangeKind::Modify, path, true) == Some(EventView::Modified(path)),
        reported(ChangeKind::Remove, path, true) == Some(EventView::Deleted(path)),
        reported(ChangeKind::Other, path, true) is None,
{
}

/// Of the files that are there exactly those give rise to a change that are not
/// known, or are newer than what is known of them, one for each and in order.
pub proof fn law_found_changes(files: Seq<(Seq<char>, i64)>, known: Seq<(Seq<char>, i64)>) -> (ps:
    Seq<int>)
    requires
        once_each(known),
    ensures
        select::exactly(
            ps,
            files.len() as int,
            |i: int|
                forall|k: int|
                    0 <= k < known.len() && (#[trigger] known[k]).0 == files[i].0 ==> files[i].1
                        > known[k].1,
        ),
        found_changes(files, known) == Seq::new(
            ps.len(),
            |k: int|
                if has_file(known, files[ps[k]].0) {
                    EventView::Modified(files[ps[k]].0)
                } else {
                    EventView::Created(files[ps[k]].0)
                },
        ),
{
    let p = |i: int|
        forall|k: int|
            0 <= k < known.len() && (#[trigger] known[k]).0 == files[i].0 ==> files[i].1
                > known[k].1;
    let g = |i: int|
        if has_file(known, files[i].0) {
            EventView::Modified(files[i].0)
        } else {
            EventView::Created(files[i].0)
        };
    let f = |n: int| found_changes(files.take(n), known);
    assert forall|n: int| 0 < n <= files.len() implies #[trigger] f(n) == if p(n - 1) {
        f(n - 1).push(g(n - 1))
    } else {
        f(n - 1)
    } by {
        assert(files.take(n).drop_last() =~= files.take(n - 1));
        let path = files[n - 1].0;
        lemma_stamp_of(known, path);
        if has_file(known, path) {
            let k = choose|k: int| 0 <= k < known.len() && (#[trigger] known[k]).0 == path;
            lemma_stamp_at(known, k);
            assert forall|j: int| 0 <= j < known.len() && (#[trigger] known[j]).0 == path implies j
                == k by {
                if j < k {
                    assert(known[j].0 != known[k].0);
                } else if k < j {
                    assert(known[k].0 != known[j].0);
                }
            }
        }
    }
    assert(files.take(files.len() as int) =~= files);
    select::lemma_exactly(files.len() as int, p, g, f)
}

} // verus!
