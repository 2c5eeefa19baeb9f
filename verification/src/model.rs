//! The data folder as the store sees it, and the changes the store makes to it.
//!
//! A `DataFolder` holds what the store reads of the folder: the entries of
//! `todos/` with their text, the entries of `notes/` and of each category
//! folder, with the text of the files that are edited as text, and the text
//! of `.meta/order.md`. A `Change` is one thing the store does to the folder;
//! `apply` says what the folder holds after it.
use vstd::prelude::*;
use vstd::utf8::encode_utf8;
use crate::arrange::str_views;
use crate::text::{chars_of, push_str, string_of};

verus! {

/// The content of a file as it was read.
#[derive(Debug, Clone)]
pub enum Content {
    /// The file does not exist, or it was not read because it is not text.
    Missing,
    /// The file's text.
    Text(String),
    /// Reading the file failed, with this message.
    Unreadable(String),
}

/// A file of `todos/`.
#[derive(Debug, Clone)]
pub struct DayFile {
    pub name: String,
    pub content: Content,
}

/// An entry of a category folder.
#[derive(Debug, Clone)]
pub struct Entry {
    pub name: String,
    pub is_file: bool,
    pub size: u64,
    pub content: Content,
    /// The entry's resolved path as it was read, when it was read from the
    /// disk; an entry that the store wrote, renamed or copied in has none.
    pub location: Option<String>,
}

/// An entry of `notes/`: a category folder, or something else of that name.
#[derive(Debug, Clone)]
pub struct Folder {
    pub name: String,
    pub is_dir: bool,
    /// The folder's resolved path as it was read, when it was read from the
    /// disk; a folder that the store made or renamed has none.
    pub location: Option<String>,
    pub entries: Vec<Entry>,
}

/// What the store reads of the data folder.
#[derive(Debug, Clone)]
pub struct DataFolder {
    /// The path of the data folder as it was given.
    pub root: String,
    /// The absolute path of the data folder, resolved when that was
    /// possible, as text.
    pub location: String,
    /// The components of `location`.
    pub root_parts: Vec<String>,
    /// The character that separates the components of a path.
    pub separator: char,
    /// The message the system gives when a folder that is not there is
    /// listed.
    pub missing_dir_message: String,
    /// The message the system gives when something that is not a folder is
    /// listed as one.
    pub not_dir_message: String,
    /// Whether names that differ only in case name the same file, as on the
    /// file systems of Windows and macOS. Where they do, a name is taken
    /// to be in use when an entry has it in lower case (`str::to_lowercase`).
    pub ignore_case: bool,
    /// Whether `todos/` is a folder.
    pub todos_listed: bool,
    /// Why `notes/` could not be listed, when it could not.
    pub notes_error: Option<String>,
    pub days: Vec<DayFile>,
    pub notes: Vec<Folder>,
    /// The content of `.meta/order.md`.
    pub order: Content,
}

/// One thing the store does to the data folder.
#[derive(Debug, Clone)]
pub enum Change {
    /// Create `todos/`, `.meta/` and `notes/` where they are missing.
    CreateFolders,
    /// Write the file `todos/<name>`.
    WriteDay { name: String, text: String },
    /// Remove the file `todos/<name>`.
    RemoveDay { name: String },
    /// Write `.meta/order.md`.
    WriteOrder { text: String },
    /// Write `.meta/index.md`.
    WriteIndex { text: String },
    /// Create the folder `notes/<name>`.
    CreateCategory { name: String },
    /// Remove the folder `notes/<name>` with all it holds.
    RemoveCategory { name: String },
    /// Rename the folder `notes/<from>` to `notes/<to>`.
    RenameCategory { from: String, to: String },
    /// Write the file `notes/<category>/<name>`.
    WriteNote { category: String, name: String, text: String },
    /// Rename the file `notes/<category>/<from>` to `notes/<category>/<to>`.
    RenameNote { category: String, from: String, to: String },
    /// Remove the file `notes/<category>/<name>`.
    RemoveNote { category: String, name: String },
    /// Copy the file at `source`, of `size` bytes, to `notes/<category>/<name>`.
    CopyIn { category: String, name: String, source: String, size: u64 },
    /// Write a file outside the data folder.
    WriteExport { path: String, text: String },
    /// Open a file or folder with the program the system chooses.
    Open { path: String },
    /// Show a file in the system's file manager.
    Reveal { path: String },
}

/// A file outside the data folder to be imported into a category.
#[derive(Debug, Clone)]
pub struct ImportSource {
    /// Its path, as given.
    pub path: String,
    /// The last component of its path, or empty when there is none or it is
    /// not valid Unicode.
    pub file_name: String,
    /// Whether it is a regular file.
    pub is_file: bool,
    /// Its size in bytes.
    pub size: u64,
}

/// Where an export is to be written.
#[derive(Debug, Clone)]
pub struct ExportTarget {
    /// Its path, as given.
    pub path: String,
    /// The last component of its path, or empty when there is none or it is
    /// not valid Unicode.
    pub file_name: String,
    /// The components of the resolved path of its folder, when it has one
    /// that can be resolved.
    pub parent_parts: Option<Vec<String>>,
}

/// What a file holds as far as the store knows.
pub enum ContentView {
    Missing,
    Text(Seq<char>),
    Unreadable(Seq<char>),
}

/// The view of an entry of a category folder.
pub struct EntryView {
    pub name: Seq<char>,
    pub is_file: bool,
    pub size: nat,
    pub content: ContentView,
    pub location: Option<Seq<char>>,
}

/// The view of an entry of `notes/`.
pub struct FolderView {
    pub name: Seq<char>,
    pub is_dir: bool,
    pub location: Option<Seq<char>>,
    pub entries: Seq<EntryView>,
}

/// The view of the data folder.
pub struct DataView {
    pub root: Seq<char>,
    pub location: Seq<char>,
    pub root_parts: Seq<Seq<char>>,
    pub separator: char,
    pub missing_dir_message: Seq<char>,
    pub not_dir_message: Seq<char>,
    pub ignore_case: bool,
    pub todos_listed: bool,
    pub notes_error: Option<Seq<char>>,
    pub days: Seq<(Seq<char>, ContentView)>,
    pub notes: Seq<FolderView>,
    pub order: ContentView,
}

/// The view of a change.
pub enum ChangeView {
    CreateFolders,
    WriteDay { name: Seq<char>, text: Seq<char> },
    RemoveDay { name: Seq<char> },
    WriteOrder { text: Seq<char> },
    WriteIndex { text: Seq<char> },
    CreateCategory { name: Seq<char> },
    RemoveCategory { name: Seq<char> },
    RenameCategory { from: Seq<char>, to: Seq<char> },
    WriteNote { category: Seq<char>, name: Seq<char>, text: Seq<char> },
    RenameNote { category: Seq<char>, from: Seq<char>, to: Seq<char> },
    RemoveNote { category: Seq<char>, name: Seq<char> },
    CopyIn { category: Seq<char>, name: Seq<char>, source: Seq<char>, size: nat },
    WriteExport { path: Seq<char>, text: Seq<char> },
    Open { path: Seq<char> },
    Reveal { path: Seq<char> },
}

impl View for Content {
    type V = ContentView;

    open spec fn view(&self) -> ContentView {
        match self {
            Content::Missing => ContentView::Missing,
            Content::Text(t) => ContentView::Text(t@),
            Content::Unreadable(m) => ContentView::Unreadable(m@),
        }
    }
}

impl View for Entry {
    type V = EntryView;

    open spec fn view(&self) -> EntryView {
        EntryView {
            name: self.name@,
            is_file: self.is_file,
            size: self.size as nat,
            content: self.content@,
            location: opt_view(&self.location),
        }
    }
}

/// The view of an optional string.
pub open spec fn opt_view(o: &Option<String>) -> Option<Seq<char>> {
    match o {
        Some(x) => Some(x@),
        None => None,
    }
}

/// `entries` with no resolved path, as after their folder was renamed.
pub open spec fn unlocated(entries: Seq<EntryView>) -> Seq<EntryView> {
    entries.map_values(|e: EntryView| EntryView { location: None, ..e })
}

/// The views of a sequence of entries.
pub open spec fn entry_views(v: Seq<Entry>) -> Seq<EntryView> {
    v.map_values(|e: Entry| e@)
}

impl View for Folder {
    type V = FolderView;

    open spec fn view(&self) -> FolderView {
        FolderView {
            name: self.name@,
            is_dir: self.is_dir,
            location: opt_view(&self.location),
            entries: entry_views(self.entries@),
        }
    }
}

/// The views of a sequence of folders.
pub open spec fn folder_views(v: Seq<Folder>) -> Seq<FolderView> {
    v.map_values(|f: Folder| f@)
}

/// The views of a sequence of day files.
pub open spec fn day_views(v: Seq<DayFile>) -> Seq<(Seq<char>, ContentView)> {
    v.map_values(|d: DayFile| (d.name@, d.content@))
}

impl View for DataFolder {
    type V = DataView;

    open spec fn view(&self) -> DataView {
        DataView {
            root: self.root@,
            location: self.location@,
            root_parts: str_views(self.root_parts@),
            separator: self.separator,
            missing_dir_message: self.missing_dir_message@,
            not_dir_message: self.not_dir_message@,
            ignore_case: self.ignore_case,
            todos_listed: self.todos_listed,
            notes_error: match &self.notes_error {
                Some(m) => Some(m@),
                None => None,
            },
            days: day_views(self.days@),
            notes: folder_views(self.notes@),
            order: self.order@,
        }
    }
}

impl View for Change {
    type V = ChangeView;

    open spec fn view(&self) -> ChangeView {
        match self {
            Change::CreateFolders => ChangeView::CreateFolders,
            Change::WriteDay { name, text } => ChangeView::WriteDay { name: name@, text: text@ },
            Change::RemoveDay { name } => ChangeView::RemoveDay { name: name@ },
            Change::WriteOrder { text } => ChangeView::WriteOrder { text: text@ },
            Change::WriteIndex { text } => ChangeView::WriteIndex { text: text@ },
            Change::CreateCategory { name } => ChangeView::CreateCategory { name: name@ },
            Change::RemoveCategory { name } => ChangeView::RemoveCategory { name: name@ },
            Change::RenameCategory { from, to } => ChangeView::RenameCategory {
                from: from@,
                to: to@,
            },
            Change::WriteNote { category, name, text } => ChangeView::WriteNote {
                category: category@,
                name: name@,
                text: text@,
            },
            Change::RenameNote { category, from, to } => ChangeView::RenameNote {
                category: category@,
                from: from@,
                to: to@,
            },
            Change::RemoveNote { category, name } => ChangeView::RemoveNote {
                category: category@,
                name: name@,
            },
            Change::CopyIn { category, name, source, size } => ChangeView::CopyIn {
                category: category@,
                name: name@,
                source: source@,
                size: *size as nat,
            },
            Change::WriteExport { path, text } => ChangeView::WriteExport {
                path: path@,
                text: text@,
            },
            Change::Open { path } => ChangeView::Open { path: path@ },
            Change::Reveal { path } => ChangeView::Reveal { path: path@ },
        }
    }
}

/// The views of a sequence of changes.
pub open spec fn change_views(v: Seq<Change>) -> Seq<ChangeView> {
    v.map_values(|c: Change| c@)
}

/// The index of the day file `name`, or -1.
pub open spec fn find_day(days: Seq<(Seq<char>, ContentView)>, name: Seq<char>) -> int
    decreases days.len(),
{
    if days.len() == 0 {
        -1
    } else if days.last().0 == name {
        days.len() - 1
    } else {
        find_day(days.drop_last(), name)
    }
}

/// The index of the entry `name` of `notes/`, or -1.
pub open spec fn find_folder(notes: Seq<FolderView>, name: Seq<char>) -> int
    decreases notes.len(),
{
    if notes.len() == 0 {
        -1
    } else if notes.last().name == name {
        notes.len() - 1
    } else {
        find_folder(notes.drop_last(), name)
    }
}

/// The index of the entry `name` of a category folder, or -1.
pub open spec fn find_entry(entries: Seq<EntryView>, name: Seq<char>) -> int
    decreases entries.len(),
{
    if entries.len() == 0 {
        -1
    } else if entries.last().name == name {
        entries.len() - 1
    } else {
        find_entry(entries.drop_last(), name)
    }
}

/// The entries of the category folder `category`, or none.
pub open spec fn folder_entries(d: DataView, category: Seq<char>) -> Seq<EntryView> {
    let i = find_folder(d.notes, category);
    if i < 0 {
        seq![]
    } else {
        d.notes[i].entries
    }
}

/// Whether `notes/<category>` is a folder.
pub open spec fn is_category(d: DataView, category: Seq<char>) -> bool {
    let i = find_folder(d.notes, category);
    i >= 0 && d.notes[i].is_dir
}

/// `d` with the entries of the folder of `category` replaced.
pub open spec fn with_entries(d: DataView, category: Seq<char>, entries: Seq<EntryView>) -> DataView {
    let i = find_folder(d.notes, category);
    if i < 0 {
        d
    } else {
        DataView {
            notes: d.notes.update(
                i,
                FolderView {
                    name: d.notes[i].name,
                    is_dir: d.notes[i].is_dir,
                    location: d.notes[i].location,
                    entries,
                },
            ),
            ..d
        }
    }
}

/// The path `base`, a separator `sep`, then `name`.
pub open spec fn path_in(base: Seq<char>, sep: char, name: Seq<char>) -> Seq<char> {
    base + seq![sep] + name
}

/// The path of the folder of `category`: `notes/<category>` in the data
/// folder.
pub open spec fn folder_path(d: DataView, category: Seq<char>) -> Seq<char> {
    path_in(path_in(d.location, d.separator, "notes"@), d.separator, category)
}

/// The path of the file `name` of `category`.
pub open spec fn note_path(d: DataView, category: Seq<char>, name: Seq<char>) -> Seq<char> {
    path_in(folder_path(d, category), d.separator, name)
}

/// Where the folder of `category` lies: the location it was found at, links
/// resolved, or else its path in the data folder.
pub open spec fn folder_place(d: DataView, category: Seq<char>) -> Seq<char> {
    let i = find_folder(d.notes, category);
    if i >= 0 && d.notes[i].location is Some {
        d.notes[i].location->0
    } else {
        folder_path(d, category)
    }
}

/// Where the entry `e` of `category` lies: the location it was found at,
/// links resolved, or else its name in the place of its folder.
pub open spec fn note_place(d: DataView, category: Seq<char>, e: EntryView) -> Seq<char> {
    match e.location {
        Some(p) => p,
        None => path_in(folder_place(d, category), d.separator, e.name),
    }
}

/// The number of bytes of `text` in UTF-8, as `str::len` reports it.
pub open spec fn byte_len(text: Seq<char>) -> nat {
    (encode_utf8(text).len() as usize) as nat
}

/// The entries after the file `name` was written with `text`.
pub open spec fn written_entries(entries: Seq<EntryView>, name: Seq<char>, text: Seq<char>) -> Seq<EntryView> {
    let j = find_entry(entries, name);
    if j < 0 {
        entries.push(
            EntryView {
                name,
                is_file: true,
                size: byte_len(text),
                content: ContentView::Text(text),
                location: None,
            },
        )
    } else {
        entries.update(
            j,
            EntryView {
                name,
                is_file: true,
                size: byte_len(text),
                content: ContentView::Text(text),
                location: None,
            },
        )
    }
}

/// The entries after the file `from` was renamed to `to`.
pub open spec fn renamed_entries(entries: Seq<EntryView>, from: Seq<char>, to: Seq<char>) -> Seq<EntryView> {
    let j = find_entry(entries, from);
    if j < 0 {
        entries
    } else {
        entries.update(j, EntryView { name: to, location: None, ..entries[j] })
    }
}

/// The entries after the entry `name` was removed.
pub open spec fn removed_entries(entries: Seq<EntryView>, name: Seq<char>) -> Seq<EntryView> {
    let j = find_entry(entries, name);
    if j < 0 {
        entries
    } else {
        entries.remove(j)
    }
}

/// What the data folder holds after the change `c`.
pub open spec fn apply(d: DataView, c: ChangeView) -> DataView {
    match c {
        ChangeView::WriteDay { name, text } => {
            let i = find_day(d.days, name);
            DataView {
                days: if i < 0 {
                    d.days.push((name, ContentView::Text(text)))
                } else {
                    d.days.update(i, (name, ContentView::Text(text)))
                },
                ..d
            }
        },
        ChangeView::RemoveDay { name } => {
            let i = find_day(d.days, name);
            DataView { days: if i < 0 { d.days } else { d.days.remove(i) }, ..d }
        },
        ChangeView::WriteOrder { text } => DataView { order: ContentView::Text(text), ..d },
        ChangeView::CreateFolders => DataView { todos_listed: true, notes_error: None, ..d },
        ChangeView::CreateCategory { name } => DataView {
            notes: d.notes.push(FolderView { name, is_dir: true, location: None, entries: seq![] }),
            ..d
        },
        ChangeView::RemoveCategory { name } => {
            let i = find_folder(d.notes, name);
            DataView { notes: if i < 0 { d.notes } else { d.notes.remove(i) }, ..d }
        },
        ChangeView::RenameCategory { from, to } => {
            let i = find_folder(d.notes, from);
            DataView {
                notes: if i < 0 {
                    d.notes
                } else {
                    d.notes.update(i, FolderView { name: to, location: None, entries: unlocated(d.notes[i].entries), ..d.notes[i] })
                },
                ..d
            }
        },
        ChangeView::WriteNote { category, name, text } => with_entries(
            d,
            category,
            written_entries(folder_entries(d, category), name, text),
        ),
        ChangeView::RenameNote { category, from, to } => with_entries(
            d,
            category,
            renamed_entries(folder_entries(d, category), from, to),
        ),
        ChangeView::RemoveNote { category, name } => with_entries(
            d,
            category,
            removed_entries(folder_entries(d, category), name),
        ),
        ChangeView::CopyIn { category, name, source, size } => with_entries(
            d,
            category,
            folder_entries(d, category).push(
                EntryView { name, is_file: true, size, content: ContentView::Missing, location: None },
            ),
        ),
        _ => d,
    }
}

/// What the data folder holds after the changes `cs`, in order.
pub open spec fn apply_all(d: DataView, cs: Seq<ChangeView>) -> DataView
    decreases cs.len(),
{
    if cs.len() == 0 {
        d
    } else {
        apply(apply_all(d, cs.drop_last()), cs.last())
    }
}

/// Making changes one group after another is making them all in order.
pub proof fn lemma_apply_all_concat(d: DataView, a: Seq<ChangeView>, b: Seq<ChangeView>)
    ensures
        apply_all(d, a + b) == apply_all(apply_all(d, a), b),
    decreases b.len(),
{
    if b.len() == 0 {
        assert(a + b =~= a);
    } else {
        lemma_apply_all_concat(d, a, b.drop_last());
        assert((a + b).drop_last() =~= a + b.drop_last());
        assert((a + b).last() == b.last());
    }
}

/// `s` as a string, a copy.
fn copy_string(s: &String) -> (r: String)
    ensures
        r@ == s@,
{
    s.clone()
}

/// The index of the day file `name`, if there is one.
pub fn day_index(days: &Vec<DayFile>, name: &String) -> (r: Option<usize>)
    ensures
        match r {
            Some(i) => i as int == find_day(day_views(days@), name@) && i < days.len(),
            None => find_day(day_views(days@), name@) < 0,
        },
{
    let ghost v = day_views(days@);
    let mut j: usize = days.len();
    assert(v.subrange(0, v.len() as int) =~= v);
    while j > 0
        invariant
            j <= days.len(),
            v == day_views(days@),
            find_day(v, name@) == find_day(v.subrange(0, j as int), name@),
        decreases j,
    {
        assert(v[j - 1].0 == days@[j - 1].name@);
        assert(v.subrange(0, j as int).last() == v[j - 1]);
        if days[j - 1].name == *name {
            return Some(j - 1);
        }
        assert(v.subrange(0, j as int).drop_last() =~= v.subrange(0, j - 1));
        j = j - 1;
    }
    None
}

/// The index of the entry `name` of `notes/`, if there is one.
pub fn folder_index(notes: &Vec<Folder>, name: &String) -> (r: Option<usize>)
    ensures
        match r {
            Some(i) => i as int == find_folder(folder_views(notes@), name@) && i < notes.len(),
            None => find_folder(folder_views(notes@), name@) < 0,
        },
{
    let ghost v = folder_views(notes@);
    let mut j: usize = notes.len();
    assert(v.subrange(0, v.len() as int) =~= v);
    while j > 0
        invariant
            j <= notes.len(),
            v == folder_views(notes@),
            find_folder(v, name@) == find_folder(v.subrange(0, j as int), name@),
        decreases j,
    {
        assert(v[j - 1].name == notes@[j - 1].name@);
        assert(v.subrange(0, j as int).last() == v[j - 1]);
        if notes[j - 1].name == *name {
            return Some(j - 1);
        }
        assert(v.subrange(0, j as int).drop_last() =~= v.subrange(0, j - 1));
        j = j - 1;
    }
    None
}

/// The index of the entry `name` of a category folder, if there is one.
pub fn entry_index(entries: &Vec<Entry>, name: &String) -> (r: Option<usize>)
    ensures
        match r {
            Some(i) => i as int == find_entry(entry_views(entries@), name@) && i < entries.len(),
            None => find_entry(entry_views(entries@), name@) < 0,
        },
{
    let ghost v = entry_views(entries@);
    let mut j: usize = entries.len();
    assert(v.subrange(0, v.len() as int) =~= v);
    while j > 0
        invariant
            j <= entries.len(),
            v == entry_views(entries@),
            find_entry(v, name@) == find_entry(v.subrange(0, j as int), name@),
        decreases j,
    {
        assert(v[j - 1].name == entries@[j - 1].name@);
        assert(v.subrange(0, j as int).last() == v[j - 1]);
        if entries[j - 1].name == *name {
            return Some(j - 1);
        }
        assert(v.subrange(0, j as int).drop_last() =~= v.subrange(0, j - 1));
        j = j - 1;
    }
    None
}

pub proof fn lemma_find_folder_bound(notes: Seq<FolderView>, name: Seq<char>)
    ensures
        -1 <= find_folder(notes, name) < notes.len(),
        find_folder(notes, name) >= 0 ==> notes[find_folder(notes, name)].name == name,
    decreases notes.len(),
{
    if notes.len() > 0 && notes.last().name != name {
        lemma_find_folder_bound(notes.drop_last(), name);
    }
}

/// Forgets the resolved paths of `entries`.
fn clear_locations(entries: &mut Vec<Entry>)
    ensures
        entry_views(final(entries)@) == unlocated(entry_views(old(entries)@)),
{
    let ghost before = entry_views(entries@);
    let mut i: usize = 0;
    while i < entries.len()
        invariant
            i <= entries.len(),
            before.len() == entries.len(),
            forall|k: int| 0 <= k < i ==> #[trigger] entry_views(entries@)[k] == unlocated(before)[k],
            forall|k: int| i <= k < entries.len() ==> #[trigger] entry_views(entries@)[k] == before[k],
        decreases entries.len() - i,
    {
        let ghost mid = entry_views(entries@);
        let ghost v0 = entries@;
        assert(mid[i as int] == before[i as int]);
        let mut e = entries.remove(i);
        assert(e == v0[i as int]);
        e.location = None;
        assert(e@ == unlocated(before)[i as int]);
        let ghost e1 = e;
        entries.insert(i, e);
        assert(entries@ =~= v0.update(i as int, e1));
        assert(entry_views(entries@) =~= mid.update(i as int, unlocated(before)[i as int]));
        i = i + 1;
    }
    assert(entry_views(entries@) =~= unlocated(before));
}

/// The size of `text` in UTF-8 bytes.
pub(crate) fn text_size(text: &String) -> (r: u64)
    ensures
        r as nat == byte_len(text@),
{
    let n = text.as_str().len();
    n as u64
}

impl DataFolder {
    /// Where the folder of `category` lies.
    pub fn path_of_folder(&self, category: &String) -> (r: String)
        ensures
            r@ == folder_place(self@, category@),
    {
        if let Some(i) = folder_index(&self.notes, category) {
            if let Some(p) = &self.notes[i].location {
                return copy_string(p);
            }
        }
        let mut out = chars_of(self.location.as_str());
        out.push(self.separator);
        push_str(&mut out, "notes");
        out.push(self.separator);
        push_str(&mut out, category.as_str());
        proof {
            reveal_strlit("notes");
        }
        assert(out@ =~= folder_path(self@, category@));
        string_of(&out)
    }

    /// Where the entry `entry` of `category` lies.
    pub fn path_of_note(&self, category: &String, entry: &Entry) -> (r: String)
        ensures
            r@ == note_place(self@, category@, entry@),
    {
        if let Some(p) = &entry.location {
            return copy_string(p);
        }
        let folder = self.path_of_folder(category);
        let mut out = chars_of(folder.as_str());
        out.push(self.separator);
        push_str(&mut out, entry.name.as_str());
        assert(out@ =~= path_in(folder_place(self@, category@), self.separator, entry.name@));
        string_of(&out)
    }

    /// Replaces the entries of the folder at `i` by the result of `f`-like
    /// updates made by the caller: takes them out for changing.
    fn take_entries(&mut self, i: usize) -> (r: Vec<Entry>)
        requires
            i < old(self).notes.len(),
        ensures
            r@ == old(self).notes@[i as int].entries@,
            final(self).notes@.len() == old(self).notes@.len(),
            final(self)@ == (DataView {
                notes: old(self)@.notes.update(i as int, FolderView { entries: seq![], ..old(self)@.notes[i as int] }),
                ..old(self)@
            }),
    {
        let mut folder = self.notes.remove(i);
        let mut entries: Vec<Entry> = Vec::new();
        std::mem::swap(&mut entries, &mut folder.entries);
        assert(entry_views(folder.entries@) =~= Seq::<EntryView>::empty());
        self.notes.insert(i, folder);
        assert(folder_views(self.notes@) =~= folder_views(old(self).notes@).update(i as int, folder@));
        entries
    }

    fn put_entries(&mut self, i: usize, entries: Vec<Entry>)
        requires
            i < old(self).notes.len(),
        ensures
            final(self)@ == (DataView {
                notes: old(self)@.notes.update(i as int, FolderView { entries: entry_views(entries@), ..old(self)@.notes[i as int] }),
                ..old(self)@
            }),
    {
        let mut folder = self.notes.remove(i);
        folder.entries = entries;
        self.notes.insert(i, folder);
        assert(folder_views(self.notes@) =~= folder_views(old(self).notes@).update(i as int, folder@));
    }

    /// Makes the change `c` in this view of the data folder.
    #[verifier::rlimit(40)]
    pub fn apply_change(&mut self, c: &Change)
        ensures
            final(self)@ == apply(old(self)@, c@),
    {
        match c {
            Change::WriteDay { name, text } => {
                let ghost before = day_views(self.days@);
                let day = DayFile { name: copy_string(name), content: Content::Text(copy_string(text)) };
                match day_index(&self.days, name) {
                    Some(i) => {
                        self.days.remove(i);
                        self.days.insert(i, day);
                        assert(day_views(self.days@) =~= before.update(i as int, (name@, ContentView::Text(text@))));
                    },
                    None => {
                        self.days.push(day);
                        assert(day_views(self.days@) =~= before.push((name@, ContentView::Text(text@))));
                    },
                }
            },
            Change::RemoveDay { name } => {
                let ghost before = day_views(self.days@);
                match day_index(&self.days, name) {
                    Some(i) => {
                        self.days.remove(i);
                        assert(day_views(self.days@) =~= before.remove(i as int));
                    },
                    None => {},
                }
            },
            Change::WriteOrder { text } => {
                self.order = Content::Text(copy_string(text));
            },
            Change::CreateFolders => {
                self.todos_listed = true;
                self.notes_error = None;
            },
            Change::CreateCategory { name } => {
                let ghost before = folder_views(self.notes@);
                let entries: Vec<Entry> = Vec::new();
                assert(entry_views(entries@) =~= Seq::<EntryView>::empty());
                self.notes.push(Folder { name: copy_string(name), is_dir: true, location: None, entries });
                assert(folder_views(self.notes@) =~= before.push(FolderView { name: name@, is_dir: true, location: None, entries: seq![] }));
            },
            Change::RemoveCategory { name } => {
                let ghost before = folder_views(self.notes@);
                match folder_index(&self.notes, name) {
                    Some(i) => {
                        self.notes.remove(i);
                        assert(folder_views(self.notes@) =~= before.remove(i as int));
                    },
                    None => {},
                }
            },
            Change::RenameCategory { from, to } => {
                let ghost before = folder_views(self.notes@);
                match folder_index(&self.notes, from) {
                    Some(i) => {
                        let mut folder = self.notes.remove(i);
                        folder.name = copy_string(to);
                        folder.location = None;
                        clear_locations(&mut folder.entries);
                        self.notes.insert(i, folder);
                        assert(folder_views(self.notes@) =~= before.update(i as int, FolderView { name: to@, location: None, entries: unlocated(before[i as int].entries), ..before[i as int] }));
                    },
                    None => {},
                }
            },
            Change::WriteNote { category, name, text } => {
                match folder_index(&self.notes, category) {
                    Some(i) => {
                        let ghost d0 = self@;
                        let mut entries = self.take_entries(i);
                        let ghost ev = entry_views(entries@);
                        let size = text_size(text);
                        match entry_index(&entries, name) {
                            Some(j) => {
                                entries.remove(j);
                                let e = Entry { name: copy_string(name), is_file: true, size, content: Content::Text(copy_string(text)), location: None };
                                entries.insert(j, e);
                                assert(entry_views(entries@) =~= written_entries(ev, name@, text@));
                            },
                            None => {
                                let e = Entry { name: copy_string(name), is_file: true, size, content: Content::Text(copy_string(text)), location: None };
                                entries.push(e);
                                assert(entry_views(entries@) =~= written_entries(ev, name@, text@));
                            },
                        }
                        self.put_entries(i, entries);
                        assert(self@.notes =~= d0.notes.update(i as int, FolderView { entries: written_entries(ev, name@, text@), ..d0.notes[i as int] }));
                    },
                    None => {},
                }
            },
            Change::RenameNote { category, from, to } => {
                match folder_index(&self.notes, category) {
                    Some(i) => {
                        let ghost d0 = self@;
                        let mut entries = self.take_entries(i);
                        let ghost ev = entry_views(entries@);
                        match entry_index(&entries, from) {
                            Some(j) => {
                                let mut e = entries.remove(j);
                                e.name = copy_string(to);
                                e.location = None;
                                entries.insert(j, e);
                                assert(entry_views(entries@) =~= renamed_entries(ev, from@, to@));
                            },
                            None => {
                                assert(entry_views(entries@) =~= renamed_entries(ev, from@, to@));
                            },
                        }
                        self.put_entries(i, entries);
                        assert(self@.notes =~= d0.notes.update(i as int, FolderView { entries: renamed_entries(ev, from@, to@), ..d0.notes[i as int] }));
                    },
                    None => {},
                }
            },
            Change::RemoveNote { category, name } => {
                match folder_index(&self.notes, category) {
                    Some(i) => {
                        let ghost d0 = self@;
                        let mut entries = self.take_entries(i);
                        let ghost ev = entry_views(entries@);
                        match entry_index(&entries, name) {
                            Some(j) => {
                                entries.remove(j);
                                assert(entry_views(entries@) =~= removed_entries(ev, name@));
                            },
                            None => {
                                assert(entry_views(entries@) =~= removed_entries(ev, name@));
                            },
                        }
                        self.put_entries(i, entries);
                        assert(self@.notes =~= d0.notes.update(i as int, FolderView { entries: removed_entries(ev, name@), ..d0.notes[i as int] }));
                    },
                    None => {},
                }
            },
            Change::CopyIn { category, name, source, size } => {
                match folder_index(&self.notes, category) {
                    Some(i) => {
                        let ghost d0 = self@;
                        let mut entries = self.take_entries(i);
                        let ghost ev = entry_views(entries@);
                        let e = Entry { name: copy_string(name), is_file: true, size: *size, content: Content::Missing, location: None };
                        entries.push(e);
                        assert(entry_views(entries@) =~= ev.push(EntryView { name: name@, is_file: true, size: *size as nat, content: ContentView::Missing, location: None }));
                        self.put_entries(i, entries);
                        assert(self@.notes =~= d0.notes.update(i as int, FolderView { entries: ev.push(EntryView { name: name@, is_file: true, size: *size as nat, content: ContentView::Missing, location: None }), ..d0.notes[i as int] }));
                    },
                    None => {},
                }
            },
            _ => {},
        }
    }
}

} // verus!
