//! The store: the operations of the notebook on its data folder.
//!
//! A `Store` holds what it has read of the data folder and the changes it
//! has made to it, in order. Each operation reads the folder as the changes
//! made before it left it, and adds its own changes; the caller carries them
//! out on the disk (see `take_changes`).
use vstd::prelude::*;
use crate::arrange::{less_chars, text_less, arrange, arranged, contains_text, insert_sorted, lemma_sorted_unique,
    str_views, strictly_sorted};
use crate::model::{
    lemma_apply_all_concat, apply, apply_all, change_views, day_index, day_views, entry_index, entry_views,
    find_day, find_entry, find_folder, folder_entries, folder_index, folder_views, is_category,
    Change, ChangeView, Content, ContentView, DataFolder, DataView, DayFile, Entry, EntryView,
    Folder, FolderView, ExportTarget, ImportSource, byte_len,
};
use crate::names::{
    file_name_check, validate_file_name,
    file_extension, file_stem, is_listed_file_name, is_text_extension, listed_file_name,
    name_check, plain_path, plain_path_chars, split_file_name, text_extension, validate_name,
};
use crate::notes::{decode_note, decoded_note, encode_note, encoded_note, normalize_newlines, normalized};
use crate::sizes::{format_size, push_decimal, size_text};
use crate::order::{
    find_file_order, find_key, lookup, order_text, file_orders_view, set_files, without_key,
    kept_files, renamed, parse_order, parsed_order, render_order, FileOrder,
    LibraryOrder, OrderView, joined,
};
use crate::records::{
    DocView, NoteDoc, invalid,
    copy_error, not_found, summary_views, Failure, NoteSummary, StoreError, SummaryView,
};
use crate::todos::{partition_todos, lines, char_views, clean_todos, cleaned_todos, done_todos, has_overlong, open_todos, parse_todos, parsed_todos, sink_done, sunk, todo_file, todo_file_text, todo_views};
use crate::dates::{bad_date_message, validate_date, valid_date};
use crate::records::TodoItem;
use crate::text::{
    lacks,
    ascii_lower, chars_of, contains_chars, has_infix, has_suffix, push_chars, push_str,
    string_of, to_ascii_lower, trim, trim_chars,
};

verus! {

/// What `str::to_lowercase` gives for `s` (full Unicode lower-casing).
pub uninterp spec fn lowercase(s: Seq<char>) -> Seq<char>;

/// `s` in lower case.
///
/// Calls `str::to_lowercase`. Trusted: the result is the function `lowercase`
/// of the text of `s`, which depends on `s` alone; what it is for a given
/// text (the Unicode case mappings) is not stated here.
#[verifier::external_body]
fn lowercase_text(s: &str) -> (r: String)
    ensures
        r@ == lowercase(s@),
{
    s.to_lowercase()
}

/// Whether the names `a` and `b` name the same file: they are equal, or
/// case is ignored and they are equal in lower case.
pub open spec fn same_name(ignore_case: bool, a: Seq<char>, b: Seq<char>) -> bool {
    a == b || (ignore_case && lowercase(a) == lowercase(b))
}

/// Whether an entry of the folder of `category` has the name `name`, as
/// the file system of `d` compares names.
pub open spec fn entry_taken(d: DataView, category: Seq<char>, name: Seq<char>) -> bool {
    exists|k: int|
        0 <= k < folder_entries(d, category).len()
            && #[trigger] same_name(d.ignore_case, folder_entries(d, category)[k].name, name)
}

/// Whether an entry of `notes/` has the name `name`, as the file system of
/// `d` compares names.
pub open spec fn folder_taken(d: DataView, name: Seq<char>) -> bool {
    exists|k: int| 0 <= k < d.notes.len() && #[trigger] same_name(d.ignore_case, d.notes[k].name, name)
}

/// Whether an entry of `entries` has the name `name`, compared as
/// `ignore_case` says.
fn entry_name_taken(entries: &Vec<Entry>, ignore_case: bool, name: &String) -> (r: bool)
    ensures
        r == exists|k: int| 0 <= k < entries.len() && #[trigger] same_name(ignore_case, entry_views(entries@)[k].name, name@),
{
    let low = if ignore_case {
        lowercase_text(name.as_str())
    } else {
        String::new()
    };
    let mut i: usize = 0;
    while i < entries.len()
        invariant
            i <= entries.len(),
            ignore_case ==> low@ == lowercase(name@),
            forall|k: int| 0 <= k < i ==> !#[trigger] same_name(ignore_case, entry_views(entries@)[k].name, name@),
        decreases entries.len() - i,
    {
        assert(entry_views(entries@)[i as int].name == entries@[i as int].name@);
        if entries[i].name == *name {
            assert(same_name(ignore_case, entry_views(entries@)[i as int].name, name@));
            return true;
        }
        if ignore_case {
            let el = lowercase_text(entries[i].name.as_str());
            if el == low {
                assert(same_name(ignore_case, entry_views(entries@)[i as int].name, name@));
                return true;
            }
        }
        i = i + 1;
    }
    false
}

/// Whether a folder of `notes` has the name `name`, compared as
/// `ignore_case` says.
fn folder_name_taken(notes: &Vec<Folder>, ignore_case: bool, name: &String) -> (r: bool)
    ensures
        r == exists|k: int| 0 <= k < notes.len() && #[trigger] same_name(ignore_case, folder_views(notes@)[k].name, name@),
{
    let low = if ignore_case {
        lowercase_text(name.as_str())
    } else {
        String::new()
    };
    let mut i: usize = 0;
    while i < notes.len()
        invariant
            i <= notes.len(),
            ignore_case ==> low@ == lowercase(name@),
            forall|k: int| 0 <= k < i ==> !#[trigger] same_name(ignore_case, folder_views(notes@)[k].name, name@),
        decreases notes.len() - i,
    {
        assert(folder_views(notes@)[i as int].name == notes@[i as int].name@);
        if notes[i].name == *name {
            assert(same_name(ignore_case, folder_views(notes@)[i as int].name, name@));
            return true;
        }
        if ignore_case {
            let fl = lowercase_text(notes[i].name.as_str());
            if fl == low {
                assert(same_name(ignore_case, folder_views(notes@)[i as int].name, name@));
                return true;
            }
        }
        i = i + 1;
    }
    false
}

/// What a file holds when the store reads it: its text with newlines
/// normalized, nothing for a missing file, or the error of the read.
pub open spec fn read_content(c: ContentView) -> Result<Seq<char>, Failure> {
    match c {
        ContentView::Missing => Ok(seq![]),
        ContentView::Text(t) => Ok(normalized(t)),
        ContentView::Unreadable(m) => Err(Failure::Io(m)),
    }
}

/// The saved order of the data folder.
pub open spec fn order_of(d: DataView) -> Result<OrderView, Failure> {
    match read_content(d.order) {
        Ok(t) => Ok(parsed_order(t)),
        Err(f) => Err(f),
    }
}

/// Whether the name begins with a `.`.
pub open spec fn hidden(name: Seq<char>) -> bool {
    name.len() > 0 && name[0] == '.'
}

/// The names of the category folders, in the order of `notes`.
pub open spec fn dir_names(notes: Seq<FolderView>) -> Seq<Seq<char>>
    decreases notes.len(),
{
    if notes.len() == 0 {
        seq![]
    } else {
        let rest = dir_names(notes.drop_last());
        let f = notes.last();
        if f.is_dir && !hidden(f.name) {
            rest.push(f.name)
        } else {
            rest
        }
    }
}

/// The categories in the order they are shown.
pub open spec fn categories_of(d: DataView) -> Result<Seq<Seq<char>>, Failure> {
    match d.notes_error {
        Some(m) => Err(Failure::Io(m)),
        None => match order_of(d) {
            Ok(o) => Ok(arranged(o.categories, dir_names(d.notes))),
            Err(f) => Err(f),
        },
    }
}

/// How the library shows the entry `e` of the category `category`, if it
/// shows it.
pub open spec fn summary_of(category: Seq<char>, e: EntryView) -> Option<SummaryView> {
    if !e.is_file || !listed_file_name(e.name) {
        None
    } else {
        let ext = ascii_lower(file_extension(e.name));
        let stem = file_stem(e.name);
        Some(
            SummaryView {
                category,
                title: if stem.len() > 0 { stem } else { e.name },
                file_name: e.name,
                extension: ext,
                kind: if text_extension(ext) { "text"@ } else { "file"@ },
            },
        )
    }
}

/// The summaries of the entries that the library shows, in the order of
/// `entries`.
pub open spec fn listed_summaries(category: Seq<char>, entries: Seq<EntryView>) -> Seq<SummaryView>
    decreases entries.len(),
{
    if entries.len() == 0 {
        seq![]
    } else {
        let rest = listed_summaries(category, entries.drop_last());
        match summary_of(category, entries.last()) {
            Some(s) => rest.push(s),
            None => rest,
        }
    }
}

/// The file names of summaries.
pub open spec fn file_names(ss: Seq<SummaryView>) -> Seq<Seq<char>> {
    ss.map_values(|s: SummaryView| s.file_name)
}

/// A summary with every field empty.
pub open spec fn blank_summary() -> SummaryView {
    SummaryView { category: seq![], title: seq![], file_name: seq![], extension: seq![], kind: seq![] }
}

/// The last summary of `ss` for the file `name`.
pub open spec fn last_named(ss: Seq<SummaryView>, name: Seq<char>) -> SummaryView
    decreases ss.len(),
{
    if ss.len() == 0 {
        blank_summary()
    } else if ss.last().file_name == name {
        ss.last()
    } else {
        last_named(ss.drop_last(), name)
    }
}

/// The last summary of `ss` for each name of `ns`.
pub open spec fn pick_named(ss: Seq<SummaryView>, ns: Seq<Seq<char>>) -> Seq<SummaryView> {
    ns.map_values(|n: Seq<char>| last_named(ss, n))
}

/// The names of the files of `category` that the library shows.
pub open spec fn listed_names(d: DataView, category: Seq<char>) -> Seq<Seq<char>> {
    file_names(listed_summaries(category, folder_entries(d, category)))
}

/// The summaries of the files of `category`, in the saved order `saved`.
pub open spec fn notes_in(d: DataView, category: Seq<char>, saved: Seq<Seq<char>>) -> Seq<SummaryView> {
    let ss = listed_summaries(category, folder_entries(d, category));
    pick_named(ss, arranged(saved, file_names(ss)))
}

/// The saved file order of `category`, or none.
pub open spec fn saved_files(o: OrderView, category: Seq<char>) -> Seq<Seq<char>> {
    match lookup(o.files, category) {
        Some(names) => names,
        None => seq![],
    }
}

/// Whether a note is shown for the lower-case query `q`.
pub open spec fn shown_for(q: Seq<char>, s: SummaryView) -> bool {
    q.len() == 0 || has_infix(lowercase(s.title), q) || has_infix(lowercase(s.file_name), q)
}

/// The notes of `ns` that are shown for the query `q`.
pub open spec fn matching(ns: Seq<SummaryView>, q: Seq<char>) -> Seq<SummaryView>
    decreases ns.len(),
{
    if ns.len() == 0 {
        seq![]
    } else {
        let rest = matching(ns.drop_last(), q);
        if shown_for(q, ns.last()) {
            rest.push(ns.last())
        } else {
            rest
        }
    }
}

/// The notes of the categories `cats`, one category after another, that are
/// shown for the query `q`.
pub open spec fn notes_listing(d: DataView, cats: Seq<Seq<char>>, o: OrderView, q: Seq<char>) -> Seq<SummaryView>
    decreases cats.len(),
{
    if cats.len() == 0 {
        seq![]
    } else {
        notes_listing(d, cats.drop_last(), o, q) + matching(
            notes_in(d, cats.last(), saved_files(o, cats.last())),
            q,
        )
    }
}

/// The query text that notes are matched against: the trimmed query in
/// lower case, and empty (matching every note) when there is none.
pub open spec fn note_query(query: Option<Seq<char>>) -> Seq<char> {
    let t = trim(
        match query {
            Some(q) => q,
            None => seq![],
        },
    );
    if t.len() == 0 {
        seq![]
    } else {
        lowercase(t)
    }
}

/// With an empty query every note is shown.
pub proof fn lemma_matching_everything(ns: Seq<SummaryView>)
    ensures
        matching(ns, seq![]) == ns,
    decreases ns.len(),
{
    if ns.len() > 0 {
        lemma_matching_everything(ns.drop_last());
        assert(ns.drop_last().push(ns.last()) =~= ns);
    }
}

/// Searching for `q` keeps, in their order, exactly the notes whose title
/// or file name, in lower case, holds `q`; an empty query keeps them all.
pub proof fn lemma_search_keeps_matches(ns: Seq<SummaryView>, q: Seq<char>)
    ensures
        matching(ns, q) == ns.filter(
            |s: SummaryView| q.len() == 0 || has_infix(lowercase(s.title), q) || has_infix(lowercase(s.file_name), q),
        ),
        forall|s: SummaryView|
            #[trigger] matching(ns, q).contains(s) <==> ns.contains(s) && (q.len() == 0 || has_infix(lowercase(s.title), q)
                || has_infix(lowercase(s.file_name), q)),
    decreases ns.len(),
{
    reveal(Seq::filter);
    if ns.len() > 0 {
        lemma_search_keeps_matches(ns.drop_last(), q);
        let rest = matching(ns.drop_last(), q);
        let l = ns.last();
        assert forall|s: SummaryView|
            #[trigger] matching(ns, q).contains(s) <==> ns.contains(s) && (q.len() == 0 || has_infix(lowercase(s.title), q)
                || has_infix(lowercase(s.file_name), q)) by {
            if ns.contains(s) && s != l {
                let k = choose|k: int| 0 <= k < ns.len() && ns[k] == s;
                assert(ns.drop_last()[k] == s);
            }
            if ns.drop_last().contains(s) {
                let k = choose|k: int| 0 <= k < ns.drop_last().len() && ns.drop_last()[k] == s;
                assert(ns[k] == s);
            }
            if shown_for(q, l) {
                assert(matching(ns, q) == rest.push(l));
                if rest.push(l).contains(s) && s != l {
                    let k = choose|k: int| 0 <= k < rest.push(l).len() && rest.push(l)[k] == s;
                    assert(rest[k] == s);
                }
                if rest.contains(s) {
                    let k = choose|k: int| 0 <= k < rest.len() && rest[k] == s;
                    assert(rest.push(l)[k] == s);
                }
                assert(rest.push(l)[rest.len() as int] == l);
            }
            assert(ns[ns.len() - 1] == l);
        }
    }
}

/// The category asked for, if one was named.
pub open spec fn chosen_category(category: Option<Seq<char>>) -> Option<Seq<char>> {
    match category {
        Some(c) => if trim(c).len() > 0 {
            Some(trim(c))
        } else {
            None
        },
        None => None,
    }
}

/// The message for a category that does not exist.
pub open spec fn no_category() -> Seq<char> {
    "分类不存在"@
}

/// The categories whose notes are listed.
pub open spec fn listed_categories(d: DataView, category: Option<Seq<char>>) -> Result<Seq<Seq<char>>, Failure> {
    match chosen_category(category) {
        Some(n) => match name_check(n) {
            Err(m) => Err(Failure::Invalid(m)),
            Ok(v) => if is_category(d, v) {
                Ok(seq![v])
            } else {
                Err(Failure::NotFound(no_category()))
            },
        },
        None => categories_of(d),
    }
}

/// What listing the notes gives: those of the named category, or of all
/// categories in their order, each category's in its saved order, that
/// match the query.
pub open spec fn notes_result(d: DataView, category: Option<Seq<char>>, query: Option<Seq<char>>) -> Result<Seq<SummaryView>, Failure> {
    match listed_categories(d, category) {
        Err(f) => Err(f),
        Ok(cs) => match order_of(d) {
            Err(f) => Err(f),
            Ok(o) => Ok(notes_listing(d, cs, o, note_query(query))),
        },
    }
}

/// The view of a `Result` of summaries.
pub open spec fn summaries_result(r: Result<Vec<NoteSummary>, StoreError>) -> Result<Seq<SummaryView>, Failure> {
    match r {
        Ok(v) => Ok(summary_views(v@)),
        Err(e) => Err(e@),
    }
}

/// The view of a `Result` of names.
pub open spec fn names_result(r: Result<Vec<String>, StoreError>) -> Result<Seq<Seq<char>>, Failure> {
    match r {
        Ok(v) => Ok(str_views(v@)),
        Err(e) => Err(e@),
    }
}


/// How the library shows the entry `e` of `category`, if it shows it.
pub fn summarize_entry(category: &String, e: &Entry) -> (r: Option<NoteSummary>)
    ensures
        match r {
            Some(s) => summary_of(category@, e@) == Some(s@),
            None => summary_of(category@, e@) is None,
        },
{
    if !e.is_file {
        return None;
    }
    let name = chars_of(e.name.as_str());
    if !is_listed_file_name(&name) {
        return None;
    }
    let (stem, ext_raw) = split_file_name(&name);
    let ext = to_ascii_lower(&ext_raw);
    let title = if stem.len() > 0 {
        string_of(&stem)
    } else {
        e.name.clone()
    };
    let kind = if is_text_extension(&ext) {
        "text".to_owned()
    } else {
        "file".to_owned()
    };
    Some(
        NoteSummary {
            category: category.clone(),
            title,
            file_name: e.name.clone(),
            extension: string_of(&ext),
            kind,
        },
    )
}


/// The last summary of `ss` for the file `name`, or a blank one.
fn find_named(ss: &Vec<NoteSummary>, name: &String) -> (r: NoteSummary)
    ensures
        r@ == last_named(summary_views(ss@), name@),
{
    let ghost sv = summary_views(ss@);
    let mut j: usize = ss.len();
    assert(sv.subrange(0, sv.len() as int) =~= sv);
    while j > 0
        invariant
            j <= ss.len(),
            sv == summary_views(ss@),
            last_named(sv, name@) == last_named(sv.subrange(0, j as int), name@),
        decreases j,
    {
        assert(sv[j - 1] == ss@[j - 1]@);
        assert(sv.subrange(0, j as int).last() == sv[j - 1]);
        if ss[j - 1].file_name == *name {
            let s = &ss[j - 1];
            return NoteSummary {
                category: s.category.clone(),
                title: s.title.clone(),
                file_name: s.file_name.clone(),
                extension: s.extension.clone(),
                kind: s.kind.clone(),
            };
        }
        assert(sv.subrange(0, j as int).drop_last() =~= sv.subrange(0, j - 1));
        j = j - 1;
    }
    NoteSummary {
        category: String::new(),
        title: String::new(),
        file_name: String::new(),
        extension: String::new(),
        kind: String::new(),
    }
}


/// The text of an optional string.
pub open spec fn opt_text(o: Option<&str>) -> Option<Seq<char>> {
    match o {
        Some(s) => Some(s@),
        None => None,
    }
}

/// Whether a note whose title and file name, in lower case, are `title`
/// and `file_name` is shown for the lower-case query `query`: the query is
/// empty or occurs in one of them.
pub fn matches_query(query: &Vec<char>, title: &Vec<char>, file_name: &Vec<char>) -> (r: bool)
    ensures
        r == (query@.len() == 0 || has_infix(title@, query@) || has_infix(file_name@, query@)),
{
    query.len() == 0 || contains_chars(title, query) || contains_chars(file_name, query)
}

fn shown(query: &Vec<char>, s: &NoteSummary) -> (r: bool)
    ensures
        r == shown_for(query@, s@),
{
    let t = lowercase_text(s.title.as_str());
    let f = lowercase_text(s.file_name.as_str());
    let tc = chars_of(t.as_str());
    let fc = chars_of(f.as_str());
    matches_query(query, &tc, &fc)
}


/// Whether the to-do file `name` is listed in the index.
pub open spec fn day_listed(name: Seq<char>) -> bool {
    has_suffix(name, ".md"@) && name != "later.md"@
}

/// The to-do files listed in the index, sorted by name.
pub open spec fn index_days(d: DataView) -> Seq<Seq<char>> {
    choose|s: Seq<Seq<char>>| strictly_sorted(s) && forall|x: Seq<char>| #[trigger] s.contains(x) <==> (find_day(d.days, x) >= 0 && day_listed(x))
}

/// `s` without every trailing `.md`.
pub open spec fn strip_md(s: Seq<char>) -> Seq<char>
    decreases s.len(),
{
    if s.len() >= 3 && has_suffix(s, ".md"@) {
        strip_md(s.subrange(0, s.len() - 3))
    } else {
        s
    }
}

/// The index line that links a to-do file.
pub open spec fn day_link(name: Seq<char>) -> Seq<char> {
    "- ["@ + strip_md(name) + "](<../todos/"@ + name + ">)"@
}

/// The index line that links a note.
pub open spec fn note_link(s: SummaryView) -> Seq<char> {
    "- ["@ + s.title + "](<../notes/"@ + s.category + "/"@ + s.file_name + ">)"@
}

/// The lines of the index for one category.
pub open spec fn index_section(category: Seq<char>, notes: Seq<SummaryView>) -> Seq<Seq<char>> {
    seq![seq![], "### "@ + category, seq![]] + if notes.len() == 0 {
        seq!["- （空）"@]
    } else {
        notes.map_values(|s: SummaryView| note_link(s))
    }
}

/// The lines of the index for the categories of `sections`, one after another.
pub open spec fn index_sections_lines(sections: Seq<(Seq<char>, Seq<SummaryView>)>) -> Seq<Seq<char>>
    decreases sections.len(),
{
    if sections.len() == 0 {
        seq![]
    } else {
        index_sections_lines(sections.drop_last()) + index_section(sections.last().0, sections.last().1)
    }
}

/// The lines of the index, before its empty last line.
pub open spec fn index_lines(listed: bool, days: Seq<Seq<char>>, sections: Seq<(Seq<char>, Seq<SummaryView>)>) -> Seq<Seq<char>> {
    seq!["# 资料目录"@, seq![], "本文件由摸鱼大王自动更新。"@, seq![], "## 待办"@, seq![]]
        + if !listed {
            seq![]
        } else if days.len() == 0 {
            seq!["- （还没有待办文件）"@]
        } else {
            days.map_values(|n: Seq<char>| day_link(n))
        } + seq![seq![], "## 资料"@] + index_sections_lines(sections)
}

/// The notes of each category of `cats`, as the index lists them.
pub open spec fn index_sections(d: DataView, cats: Seq<Seq<char>>) -> Result<Seq<(Seq<char>, Seq<SummaryView>)>, Failure>
    decreases cats.len(),
{
    if cats.len() == 0 {
        Ok(seq![])
    } else {
        match index_sections(d, cats.drop_last()) {
            Err(f) => Err(f),
            Ok(ss) => match notes_result(d, Some(cats.last()), None) {
                Err(f) => Err(f),
                Ok(ns) => Ok(ss.push((cats.last(), ns))),
            },
        }
    }
}

/// The content of `.meta/index.md`, which links every to-do file and note.
pub open spec fn index_text(d: DataView) -> Result<Seq<char>, Failure> {
    match categories_of(d) {
        Err(f) => Err(f),
        Ok(cs) => match index_sections(d, cs) {
            Err(f) => Err(f),
            Ok(ss) => Ok(joined(index_lines(d.todos_listed, index_days(d), ss))),
        },
    }
}

/// The changes that writing the index makes, and its outcome.
pub open spec fn index_changes(d: DataView) -> (Result<(), Failure>, Seq<ChangeView>) {
    match index_text(d) {
        Ok(t) => (Ok(()), seq![ChangeView::WriteIndex { text: t }]),
        Err(f) => (Err(f), seq![]),
    }
}

/// The view of a `Result` of nothing.
pub open spec fn unit_result(r: Result<(), StoreError>) -> Result<(), Failure> {
    match r {
        Ok(_) => Ok(()),
        Err(e) => Err(e@),
    }
}


/// The text of `ls` with a `\n` after each line.
pub fn join_lines(ls: &Vec<Vec<char>>) -> (r: Vec<char>)
    ensures
        r@ == joined(char_views(ls@)),
{
    let ghost lv = char_views(ls@);
    let mut out: Vec<char> = Vec::new();
    let mut i: usize = 0;
    while i < ls.len()
        invariant
            i <= ls.len(),
            lv == char_views(ls@),
            out@ == joined(lv.subrange(0, i as int)),
        decreases ls.len() - i,
    {
        assert(lv.subrange(0, i + 1).drop_last() =~= lv.subrange(0, i as int));
        assert(lv[i as int] == ls@[i as int]@);
        push_chars(&mut out, &ls[i]);
        out.push('\n');
        i = i + 1;
    }
    assert(lv.subrange(0, ls.len() as int) =~= lv);
    out
}

fn push_text_line(ls: &mut Vec<Vec<char>>, parts: &Vec<char>)
    ensures
        char_views(final(ls)@) == char_views(old(ls)@).push(parts@),
{
    let ghost before = char_views(ls@);
    ls.push(parts.clone());
    assert(char_views(ls@) =~= before.push(parts@));
}

fn link_line(a: &str, b: &Vec<char>, c: &str, d: &Vec<char>, e: &str) -> (r: Vec<char>)
    ensures
        r@ == a@ + b@ + c@ + d@ + e@,
{
    let mut out: Vec<char> = Vec::new();
    push_str(&mut out, a);
    push_chars(&mut out, b);
    push_str(&mut out, c);
    push_chars(&mut out, d);
    push_str(&mut out, e);
    out
}

fn strip_md_exec(s: &Vec<char>) -> (r: Vec<char>)
    ensures
        r@ == strip_md(s@),
{
    let md = chars_of(".md");
    let mut cur = s.clone();
    assert(cur@ == s@);
    while cur.len() >= 3 && crate::text::ends_with(&cur, &md)
        invariant
            md@ == ".md"@,
            strip_md(s@) == strip_md(cur@),
        decreases cur.len(),
    {
        let n = cur.len();
        cur = crate::text::slice_chars(&cur, 0, n - 3);
    }
    cur
}


proof fn lemma_index_sections_err(d: DataView, p: Seq<Seq<char>>, q: Seq<Seq<char>>, f: Failure)
    requires
        index_sections(d, p) == Err::<Seq<(Seq<char>, Seq<SummaryView>)>, Failure>(f),
    ensures
        index_sections(d, p + q) == Err::<Seq<(Seq<char>, Seq<SummaryView>)>, Failure>(f),
    decreases q.len(),
{
    if q.len() == 0 {
        assert(p + q =~= p);
    } else {
        lemma_index_sections_err(d, p, q.drop_last(), f);
        assert((p + q).drop_last() =~= p + q.drop_last());
    }
}

pub proof fn lemma_find_day_bound(days: Seq<(Seq<char>, ContentView)>, name: Seq<char>)
    ensures
        -1 <= find_day(days, name) < days.len(),
        find_day(days, name) >= 0 ==> days[find_day(days, name)].0 == name,
        find_day(days, name) < 0 ==> forall|i: int| 0 <= i < days.len() ==> days[i].0 != name,
    decreases days.len(),
{
    if days.len() > 0 && days.last().0 != name {
        lemma_find_day_bound(days.drop_last(), name);
        if find_day(days, name) < 0 {
            assert forall|i: int| 0 <= i < days.len() implies days[i].0 != name by {
                if i < days.len() - 1 {
                    assert(days.drop_last()[i] == days[i]);
                }
            }
        }
    }
}


/// The name of the to-do file of `date`.
pub open spec fn day_file_name(date: Seq<char>) -> Seq<char> {
    date + ".md"@
}

/// What reading the to-do file `name` gives.
pub open spec fn day_text(d: DataView, name: Seq<char>) -> Result<Seq<char>, Failure> {
    let i = find_day(d.days, name);
    if i < 0 {
        Ok(seq![])
    } else {
        read_content(d.days[i].1)
    }
}

/// The items of the day `date`, or why they cannot be read.
pub open spec fn day_result(d: DataView, date: Seq<char>) -> Result<Seq<(Seq<char>, bool)>, Failure> {
    if !valid_date(date) {
        Err(Failure::Invalid(bad_date_message()))
    } else {
        match day_text(d, day_file_name(date)) {
            Err(f) => Err(f),
            Ok(t) => Ok(parsed_todos(t)),
        }
    }
}

/// The view of a `Result` of items.
pub open spec fn todos_result(r: Result<Vec<TodoItem>, StoreError>) -> Result<Seq<(Seq<char>, bool)>, Failure> {
    match r {
        Ok(v) => Ok(todo_views(v@)),
        Err(e) => Err(e@),
    }
}

/// The change to the to-do file of `date` that saving `items` (already
/// cleaned and ordered) makes: writing it, or removing it when there are no
/// items.
pub open spec fn day_changes(d: DataView, date: Seq<char>, items: Seq<(Seq<char>, bool)>) -> Seq<ChangeView> {
    let name = day_file_name(date);
    if items.len() == 0 {
        if find_day(d.days, name) >= 0 {
            seq![ChangeView::RemoveDay { name }]
        } else {
            seq![]
        }
    } else {
        seq![ChangeView::WriteDay { name, text: todo_file(date, items) }]
    }
}

/// What saving `items` as the to-do list of `date` gives, and the changes
/// it makes.
pub open spec fn save_day_changes(d: DataView, date: Seq<char>, items: Seq<(Seq<char>, bool)>) -> (Result<(), Failure>, Seq<ChangeView>) {
    if !valid_date(date) {
        (Err(Failure::Invalid(bad_date_message())), seq![])
    } else if has_overlong(items) {
        (Err(Failure::Invalid("待办太长了"@)), seq![])
    } else {
        let c1 = day_changes(d, date, sunk(cleaned_todos(items)));
        let (r, c2) = index_changes(apply_all(d, c1));
        (r, c1 + c2)
    }
}

/// What making the folders and the index gives, and the changes it makes.
pub open spec fn layout_changes(d: DataView) -> (Result<(), Failure>, Seq<ChangeView>) {
    let (r, c) = index_changes(apply(d, ChangeView::CreateFolders));
    (r, seq![ChangeView::CreateFolders] + c)
}


/// Whether the to-do files of `d` have different names, as the files of a
/// folder do.
pub open spec fn distinct_days(d: DataView) -> bool {
    forall|i: int, j: int| 0 <= i < j < d.days.len() ==> #[trigger] d.days[i].0 != #[trigger] d.days[j].0
}

proof fn lemma_find_day_update(days: Seq<(Seq<char>, ContentView)>, name: Seq<char>, c: ContentView)
    requires
        find_day(days, name) >= 0,
    ensures
        find_day(days.update(find_day(days, name), (name, c)), name) == find_day(days, name),
    decreases days.len(),
{
    let i = find_day(days, name);
    lemma_find_day_bound(days, name);
    if i < days.len() - 1 {
        lemma_find_day_update(days.drop_last(), name, c);
        assert(days.update(i, (name, c)).drop_last() =~= days.drop_last().update(i, (name, c)));
        assert(days.update(i, (name, c)).last() == days.last());
    }
}

pub proof fn lemma_index_changes_keep(d: DataView)
    ensures
        apply_all(d, index_changes(d).1) == d,
{
    let c = index_changes(d).1;
    if c.len() > 0 {
        assert(c.drop_last() =~= Seq::<ChangeView>::empty());
        assert(apply_all(d, c) == apply(apply_all(d, c.drop_last()), c.last()));
    }
}

/// After the to-do list of a day is saved, reading that day gives the
/// saved items: cleaned, empty ones dropped, open ones before done ones.
pub proof fn lemma_day_reads_back(d: DataView, date: Seq<char>, items: Seq<(Seq<char>, bool)>)
    requires
        distinct_days(d),
        save_day_changes(d, date, items).0 is Ok,
    ensures
        day_result(apply_all(d, save_day_changes(d, date, items).1), date) == Ok::<Seq<(Seq<char>, bool)>, Failure>(sunk(cleaned_todos(items))),
{
    let its = sunk(cleaned_todos(items));
    let name = day_file_name(date);
    let c1 = day_changes(d, date, its);
    let d1 = apply_all(d, c1);
    lemma_apply_all_concat(d, c1, index_changes(d1).1);
    lemma_index_changes_keep(d1);
    lemma_find_day_bound(d.days, name);
    if c1.len() > 0 {
        assert(c1.drop_last() =~= Seq::<ChangeView>::empty());
        assert(d1 == apply(apply_all(d, c1.drop_last()), c1.last()));
    }
    assert(lacks(date, '\n') && lacks(date, '\r')) by {
        assert forall|i: int| 0 <= i < date.len() implies date[i] != '\n' && date[i] != '\r' by {
            if i != 4 && i != 7 {
                assert(crate::dates::is_digit(date[i]));
            }
        }
    }
    if its.len() == 0 {
        let i = find_day(d.days, name);
        lemma_find_day_bound(d1.days, name);
        if i >= 0 {
            assert(d1.days =~= d.days.remove(i));
            if find_day(d1.days, name) >= 0 {
                let k = find_day(d1.days, name);
                if k < i {
                    assert(d1.days[k] == d.days[k]);
                } else {
                    assert(d1.days[k] == d.days[k + 1]);
                }
            }
        }
        assert(lines(normalized(seq![])) =~= Seq::<Seq<char>>::empty()) by {
            assert(crate::text::strip_all_start(seq![], crate::notes::bom()) =~= Seq::<char>::empty());
        }
    } else {
        let text = todo_file(date, its);
        crate::todos::lemma_cleaned_storable(items);
        crate::todos::lemma_sunk_members(cleaned_todos(items));
        assert forall|i: int| 0 <= i < its.len() implies crate::todos::storable_todo(#[trigger] its[i]) by {
            let x = its[i];
            assert(cleaned_todos(items).contains(x));
            let q = choose|q: int| 0 <= q < cleaned_todos(items).len() && cleaned_todos(items)[q] == x;
            assert(crate::todos::storable_todo(cleaned_todos(items)[q]));
        }
        crate::todos::lemma_todo_file_plain(date, its);
        crate::todos::lemma_todo_file_roundtrip(date, its);
        let i = find_day(d.days, name);
        if i >= 0 {
            lemma_find_day_update(d.days, name, ContentView::Text(text));
        } else {
            assert(d1.days.drop_last() =~= d.days);
        }
    }
}


/// Whether `stem` is the date of a to-do file of `d` that comes before `today`.
pub open spec fn earlier_day(d: DataView, stem: Seq<char>, today: Seq<char>) -> bool {
    &&& find_day(d.days, day_file_name(stem)) >= 0
    &&& valid_date(stem)
    &&& text_less(stem, today)
}

/// The dates of the to-do files before `today`, sorted.
pub open spec fn carry_dates(d: DataView, today: Seq<char>) -> Seq<Seq<char>> {
    choose|s: Seq<Seq<char>>| strictly_sorted(s) && forall|x: Seq<char>| #[trigger] s.contains(x) <==> earlier_day(d, x, today)
}

/// Carrying the open items of the day `date` onto `moved`: the items moved
/// so far, or the error that stopped it, and the changes made. The day
/// keeps only its done items.
#[verifier::opaque]
pub open spec fn carry_step(d: DataView, moved: Seq<(Seq<char>, bool)>, date: Seq<char>) -> (Result<Seq<(Seq<char>, bool)>, Failure>, Seq<ChangeView>) {
    match day_result(d, date) {
        Err(f) => (Err(f), seq![]),
        Ok(items) => if open_todos(items).len() == 0 {
            (Ok(moved), seq![])
        } else {
            let (r, cs) = save_day_changes(d, date, done_todos(items));
            match r {
                Err(f) => (Err(f), cs),
                Ok(_) => (Ok(moved + open_todos(items)), cs),
            }
        },
    }
}

/// Carrying the open items of the days `ds` in turn.
pub open spec fn carry_fold(d: DataView, ds: Seq<Seq<char>>) -> (Result<Seq<(Seq<char>, bool)>, Failure>, Seq<ChangeView>)
    decreases ds.len(),
{
    if ds.len() == 0 {
        (Ok(seq![]), seq![])
    } else {
        let (r, cs) = carry_fold(d, ds.drop_last());
        match r {
            Err(f) => (Err(f), cs),
            Ok(moved) => {
                let (r2, cs2) = carry_step(apply_all(d, cs), moved, ds.last());
                (r2, cs + cs2)
            },
        }
    }
}

/// Putting the moved items before the items of `today`, and the count.
pub open spec fn carry_finish(d: DataView, today: Seq<char>, moved: Seq<(Seq<char>, bool)>) -> (Result<nat, Failure>, Seq<ChangeView>) {
    if moved.len() == 0 {
        (Ok(0), seq![])
    } else {
        match day_result(d, today) {
            Err(f) => (Err(f), seq![]),
            Ok(t) => {
                let (r, cs) = save_day_changes(d, today, moved + t);
                match r {
                    Err(f) => (Err(f), cs),
                    Ok(_) => (Ok(moved.len()), cs),
                }
            },
        }
    }
}

/// What carrying the open items of earlier days to `today` gives (how many
/// items moved), and the changes it makes: each earlier day keeps only its
/// done items, and today's list gets the moved items before its own.
pub open spec fn carry_changes(d: DataView, today: Seq<char>) -> (Result<nat, Failure>, Seq<ChangeView>) {
    if !valid_date(today) {
        (Err(Failure::Invalid(bad_date_message())), seq![])
    } else {
        let (r, cs) = carry_fold(d, carry_dates(d, today));
        match r {
            Err(f) => (Err(f), cs),
            Ok(moved) => {
                let (r2, cs2) = carry_finish(apply_all(d, cs), today, moved);
                (r2, cs + cs2)
            },
        }
    }
}

proof fn lemma_carry_fold_err(d: DataView, p: Seq<Seq<char>>, q: Seq<Seq<char>>)
    requires
        carry_fold(d, p).0 is Err,
    ensures
        carry_fold(d, p + q) == carry_fold(d, p),
    decreases q.len(),
{
    if q.len() == 0 {
        assert(p + q =~= p);
    } else {
        lemma_carry_fold_err(d, p, q.drop_last());
        assert((p + q).drop_last() =~= p + q.drop_last());
    }
}


/// Doing `a` and then, when it succeeded, `b` (computed on the folder as
/// `a` left it).
pub open spec fn chain(
    a: (Result<(), Failure>, Seq<ChangeView>),
    b: (Result<(), Failure>, Seq<ChangeView>),
) -> (Result<(), Failure>, Seq<ChangeView>) {
    match a.0 {
        Err(f) => (Err(f), a.1),
        Ok(_) => (b.0, a.1 + b.1),
    }
}

/// The change that writes the order file holding `o`.
pub open spec fn order_write(o: OrderView) -> ChangeView {
    ChangeView::WriteOrder { text: order_text(o) }
}

/// Bringing the saved category order up to date with the category folders:
/// arranged over them, without the file orders of categories that are gone.
pub open spec fn sync_categories_changes(d: DataView) -> (Result<(), Failure>, Seq<ChangeView>) {
    match order_of(d) {
        Err(f) => (Err(f), seq![]),
        Ok(o) => match d.notes_error {
            Some(m) => (Err(Failure::Io(m)), seq![]),
            None => {
                let cats = arranged(o.categories, dir_names(d.notes));
                (Ok(()), seq![order_write(OrderView { categories: cats, files: kept_files(o.files, cats) })])
            },
        },
    }
}

/// Bringing the saved file order of `category` up to date with its files.
pub open spec fn sync_files_changes(d: DataView, category: Seq<char>) -> (Result<(), Failure>, Seq<ChangeView>) {
    match order_of(d) {
        Err(f) => (Err(f), seq![]),
        Ok(o) => if find_folder(d.notes, category) < 0 {
            (Err(Failure::Io(d.missing_dir_message)), seq![])
        } else if !d.notes[find_folder(d.notes, category)].is_dir {
            (Err(Failure::Io(d.not_dir_message)), seq![])
        } else {
            (Ok(()), seq![order_write(OrderView {
            categories: o.categories,
            files: set_files(o.files, category, arranged(saved_files(o, category), listed_names(d, category))),
        })])
        },
    }
}

/// Renaming the category `from` to `to` in the saved order.
pub open spec fn retitle_categories_changes(d: DataView, from: Seq<char>, to: Seq<char>) -> (Result<(), Failure>, Seq<ChangeView>) {
    match order_of(d) {
        Err(f) => (Err(f), seq![]),
        Ok(o) => {
            let f1 = without_key(o.files, from);
            (Ok(()), seq![order_write(OrderView {
                categories: renamed(o.categories, from, to),
                files: match lookup(o.files, from) {
                    Some(ns) => set_files(f1, to, ns),
                    None => f1,
                },
            })])
        },
    }
}

/// Renaming the file `from` of `category` to `to` in the saved order.
pub open spec fn retitle_files_changes(d: DataView, category: Seq<char>, from: Seq<char>, to: Seq<char>) -> (Result<(), Failure>, Seq<ChangeView>) {
    match order_of(d) {
        Err(f) => (Err(f), seq![]),
        Ok(o) => {
            let i = find_key(o.files, category);
            (Ok(()), seq![order_write(OrderView {
                categories: o.categories,
                files: if i < 0 {
                    o.files
                } else {
                    o.files.update(i, (category, renamed(o.files[i].1, from, to)))
                },
            })])
        },
    }
}

/// What dragging the categories into the order `names` gives, and the
/// changes it makes.
pub open spec fn reorder_categories_changes(d: DataView, names: Seq<Seq<char>>) -> (Result<(), Failure>, Seq<ChangeView>) {
    match d.notes_error {
        Some(m) => (Err(Failure::Io(m)), seq![]),
        None => match order_of(d) {
            Err(f) => (Err(f), seq![]),
            Ok(o) => {
                let c1 = seq![order_write(OrderView { categories: arranged(names, dir_names(d.notes)), files: o.files })];
                chain((Ok(()), c1), index_changes(apply_all(d, c1)))
            },
        },
    }
}

/// The category that the name `value` gives, if it is valid and names a
/// category folder.
pub open spec fn existing_category(d: DataView, value: Seq<char>) -> Result<Seq<char>, Failure> {
    match name_check(value) {
        Err(m) => Err(Failure::Invalid(m)),
        Ok(n) => if is_category(d, n) {
            Ok(n)
        } else {
            Err(Failure::NotFound(no_category()))
        },
    }
}

/// What dragging the files of `category` into the order `names` gives, and
/// the changes it makes.
pub open spec fn reorder_files_changes(d: DataView, category: Seq<char>, names: Seq<Seq<char>>) -> (Result<(), Failure>, Seq<ChangeView>) {
    match existing_category(d, category) {
        Err(f) => (Err(f), seq![]),
        Ok(c) => match order_of(d) {
            Err(f) => (Err(f), seq![]),
            Ok(o) => {
                let c1 = seq![order_write(OrderView {
                    categories: o.categories,
                    files: set_files(o.files, c, arranged(names, listed_names(d, c))),
                })];
                chain((Ok(()), c1), index_changes(apply_all(d, c1)))
            },
        },
    }
}

/// The message for a category name that is taken.
pub open spec fn category_taken() -> Seq<char> {
    "已有同名分类"@
}

/// Syncing the category order and then writing the index.
pub open spec fn categories_done(d: DataView) -> (Result<(), Failure>, Seq<ChangeView>) {
    let a = sync_categories_changes(d);
    chain(a, index_changes(apply_all(d, a.1)))
}

/// What creating the category `name` gives, and the changes it makes.
pub open spec fn create_category_changes(d: DataView, name: Seq<char>) -> (Result<(), Failure>, Seq<ChangeView>) {
    match name_check(name) {
        Err(m) => (Err(Failure::Invalid(m)), seq![]),
        Ok(n) => if folder_taken(d, n) {
            (Err(Failure::Conflict(category_taken())), seq![])
        } else {
            let c1 = seq![ChangeView::CreateCategory { name: n }];
            chain((Ok(()), c1), categories_done(apply_all(d, c1)))
        },
    }
}

/// What deleting the category `name`, with its files, gives, and the
/// changes it makes.
pub open spec fn delete_category_changes(d: DataView, name: Seq<char>) -> (Result<(), Failure>, Seq<ChangeView>) {
    match existing_category(d, name) {
        Err(f) => (Err(f), seq![]),
        Ok(n) => {
            let c1 = seq![ChangeView::RemoveCategory { name: n }];
            chain((Ok(()), c1), categories_done(apply_all(d, c1)))
        },
    }
}

/// What renaming the category `from` to `to` gives, and the changes it makes.
pub open spec fn rename_category_changes(d: DataView, from: Seq<char>, to: Seq<char>) -> (Result<(), Failure>, Seq<ChangeView>) {
    match name_check(from) {
        Err(m) => (Err(Failure::Invalid(m)), seq![]),
        Ok(f) => match name_check(to) {
            Err(m) => (Err(Failure::Invalid(m)), seq![]),
            Ok(t) => if f == t {
                (Ok(()), seq![])
            } else if !is_category(d, f) {
                (Err(Failure::NotFound(no_category())), seq![])
            } else if folder_taken(d, t) {
                (Err(Failure::Conflict(category_taken())), seq![])
            } else {
                let c1 = seq![ChangeView::RenameCategory { from: f, to: t }];
                let d1 = apply_all(d, c1);
                let a = retitle_categories_changes(d1, f, t);
                chain((Ok(()), c1), chain(a, categories_done(apply_all(d1, a.1))))
            },
        },
    }
}

/// Whether `after` is `before` with the changes `cs` made.
pub open spec fn made(before: Store, after: Store, cs: Seq<ChangeView>) -> bool {
    &&& after.change_log() == before.change_log() + cs
    &&& after.data_view() == apply_all(before.data_view(), cs)
}

/// Making `a` and then `b` is making `a + b`.
proof fn lemma_made_chain(s0: Store, s1: Store, s2: Store, a: Seq<ChangeView>, b: Seq<ChangeView>)
    requires
        made(s0, s1, a),
        made(s1, s2, b),
    ensures
        made(s0, s2, a + b),
{
    lemma_apply_all_concat(s0.data_view(), a, b);
    assert(s0.change_log() + a + b =~= s0.change_log() + (a + b));
}

proof fn lemma_made_none(s: Store)
    ensures
        made(s, s, seq![]),
{
    assert(s.change_log() + Seq::<ChangeView>::empty() =~= s.change_log());
}

proof fn lemma_made_one(s0: Store, s1: Store, c: ChangeView)
    requires
        s1.change_log() == s0.change_log().push(c),
        s1.data_view() == apply(s0.data_view(), c),
    ensures
        made(s0, s1, seq![c]),
{
    assert(seq![c].drop_last() =~= Seq::<ChangeView>::empty());
    assert(apply_all(s0.data_view(), seq![c]) == apply(apply_all(s0.data_view(), seq![c].drop_last()), c));
    assert(s0.change_log().push(c) =~= s0.change_log() + seq![c]);
}


/// The message for a note that does not exist.
pub open spec fn note_missing() -> Seq<char> {
    "资料不存在"@
}

/// The entry `file_name` of the folder of `category`, if there is one.
pub open spec fn note_entry(d: DataView, category: Seq<char>, file_name: Seq<char>) -> Option<EntryView> {
    let es = folder_entries(d, category);
    let j = find_entry(es, file_name);
    if j < 0 {
        None
    } else {
        Some(es[j])
    }
}

/// The text shown for the note `s` stored in the entry `e`: for a Markdown
/// note the body under its heading, for other text files their text without
/// trailing newlines, for other files nothing.
pub open spec fn note_body(s: SummaryView, e: EntryView) -> Result<Seq<char>, Failure> {
    if s.kind == "text"@ {
        match read_content(e.content) {
            Err(f) => Err(f),
            Ok(raw) => Ok(
                if s.extension == "md"@ {
                    decoded_note(s.title, raw)
                } else {
                    crate::text::strip_all_end(raw, '\n')
                },
            ),
        }
    } else {
        Ok(seq![])
    }
}

/// What reading the note `file_name` of `category` gives.
pub open spec fn read_note_result(d: DataView, category: Seq<char>, file_name: Seq<char>) -> Result<DocView, Failure> {
    match name_check(category) {
        Err(m) => Err(Failure::Invalid(m)),
        Ok(c) => match file_name_check(file_name) {
            Err(m) => Err(Failure::Invalid(m)),
            Ok(f) => match note_entry(d, c, f) {
                None => Err(Failure::NotFound(note_missing())),
                Some(e) => match summary_of(c, e) {
                    None => Err(Failure::NotFound(note_missing())),
                    Some(s) => match note_body(s, e) {
                        Err(x) => Err(x),
                        Ok(b) => Ok(DocView {
                            category: s.category,
                            title: s.title,
                            file_name: s.file_name,
                            extension: s.extension,
                            kind: s.kind,
                            body: b,
                            size_label: size_text(e.size),
                        }),
                    },
                },
            },
        },
    }
}

/// The view of a `Result` of a note.
pub open spec fn doc_result(r: Result<NoteDoc, StoreError>) -> Result<DocView, Failure> {
    match r {
        Ok(v) => Ok(v@),
        Err(e) => Err(e@),
    }
}

/// The view of a `Result` of a text.
pub open spec fn text_result(r: Result<String, StoreError>) -> Result<Seq<char>, Failure> {
    match r {
        Ok(v) => Ok(v@),
        Err(e) => Err(e@),
    }
}

/// The path of the file `file_name` of `category`, as it is shown.
pub open spec fn absolute_path_result(d: DataView, category: Seq<char>, file_name: Seq<char>) -> Result<Seq<char>, Failure> {
    match name_check(category) {
        Err(m) => Err(Failure::Invalid(m)),
        Ok(c) => match file_name_check(file_name) {
            Err(m) => Err(Failure::Invalid(m)),
            Ok(f) => match note_entry(d, c, f) {
                Some(e) => if e.is_file {
                    Ok(plain_path_chars(crate::model::note_place(d, c, e)))
                } else {
                    Err(Failure::NotFound(note_missing()))
                },
                None => Err(Failure::NotFound(note_missing())),
            },
        },
    }
}

/// Asking the system to open, or to show, the file `file_name` of `category`.
pub open spec fn open_note_changes(d: DataView, category: Seq<char>, file_name: Seq<char>, reveal: bool) -> (Result<(), Failure>, Seq<ChangeView>) {
    match absolute_path_result(d, category, file_name) {
        Err(f) => (Err(f), seq![]),
        Ok(p) => (Ok(()), seq![if reveal { ChangeView::Reveal { path: p } } else { ChangeView::Open { path: p } }]),
    }
}

/// Asking the system to open the folder of `category`.
pub open spec fn open_category_changes(d: DataView, category: Seq<char>) -> (Result<(), Failure>, Seq<ChangeView>) {
    match existing_category(d, category) {
        Err(f) => (Err(f), seq![]),
        Ok(c) => (Ok(()), seq![ChangeView::Open { path: plain_path_chars(crate::model::folder_place(d, c)) }]),
    }
}

/// Whether `parts` begins with the components `base`.
pub open spec fn parts_prefix(parts: Seq<Seq<char>>, base: Seq<Seq<char>>) -> bool {
    base.len() <= parts.len() && parts.subrange(0, base.len() as int) == base
}

/// The longest export, in bytes.
pub open spec fn max_export_bytes() -> nat {
    2000000
}

/// What writing `content` to the export target `t` gives: refused when it is
/// too long, when the target is not a `.md` file, or when it lies inside the
/// data folder.
pub open spec fn export_changes(d: DataView, path: Seq<char>, file_name: Seq<char>, parent: Option<Seq<Seq<char>>>, content: Seq<char>) -> (Result<(), Failure>, Seq<ChangeView>) {
    if byte_len(content) > max_export_bytes() {
        (Err(Failure::Invalid("导出内容过长"@)), seq![])
    } else if file_name == ".md"@ || !has_suffix(ascii_lower(file_name), ".md"@) {
        (Err(Failure::Invalid("请保存为 .md 文件"@)), seq![])
    } else if parent matches Some(p) && parts_prefix(p, d.root_parts) {
        (Err(Failure::Invalid("请保存到数据目录以外"@)), seq![])
    } else {
        (Ok(()), seq![ChangeView::WriteExport { path, text: content }])
    }
}

/// The view of the folder of an export target.
pub open spec fn parent_view(t: ExportTarget) -> Option<Seq<Seq<char>>> {
    match t.parent_parts {
        Some(v) => Some(str_views(v@)),
        None => None,
    }
}


/// Whether the components `parts` begin with the components `base`, as
/// `Path::starts_with` compares paths.
pub fn parts_start_with(parts: &Vec<String>, base: &Vec<String>) -> (r: bool)
    ensures
        r == parts_prefix(str_views(parts@), str_views(base@)),
{
    if base.len() > parts.len() {
        return false;
    }
    let mut i: usize = 0;
    while i < base.len()
        invariant
            base.len() <= parts.len(),
            i <= base.len(),
            forall|k: int| 0 <= k < i ==> parts@[k]@ == base@[k]@,
        decreases base.len() - i,
    {
        if parts[i] != base[i] {
            assert(str_views(parts@).subrange(0, base@.len() as int)[i as int] != str_views(base@)[i as int]);
            return false;
        }
        i = i + 1;
    }
    assert(str_views(parts@).subrange(0, base@.len() as int) =~= str_views(base@));
    true
}


/// The message for a name that another note of the category has.
pub open spec fn note_taken() -> Seq<char> {
    "已有同名资料"@
}

/// `a.b`.
pub open spec fn dotted(a: Seq<char>, b: Seq<char>) -> Seq<char> {
    a + "."@ + b
}

/// How a note titled `t` is saved in the category `c`: its extension, the
/// file it was saved from (when it had one), and the renaming that comes
/// first; or why it cannot be saved.
pub open spec fn save_plan(d: DataView, c: Seq<char>, t: Seq<char>, previous: Option<Seq<char>>) -> Result<(Seq<char>, Option<Seq<char>>, Seq<ChangeView>), Failure> {
    match chosen_category(previous) {
        None => if entry_taken(d, c, dotted(t, "md"@)) {
            Err(Failure::Conflict(note_taken()))
        } else {
            Ok(("md"@, None, seq![]))
        },
        Some(p) => match file_name_check(p) {
            Err(m) => Err(Failure::Invalid(m)),
            Ok(p2) => match note_entry(d, c, p2) {
                None => Err(Failure::NotFound(note_missing())),
                Some(e) => match summary_of(c, e) {
                    None => Err(Failure::NotFound(note_missing())),
                    Some(s) => if s.kind != "text"@ {
                        Err(Failure::Invalid("非文本文件请用系统程序打开编辑"@))
                    } else if p2 != dotted(t, s.extension) {
                        if entry_taken(d, c, dotted(t, s.extension)) {
                            Err(Failure::Conflict(note_taken()))
                        } else {
                            Ok((s.extension, Some(p2), seq![ChangeView::RenameNote { category: c, from: p2, to: dotted(t, s.extension) }]))
                        }
                    } else {
                        Ok((s.extension, Some(p2), seq![]))
                    },
                },
            },
        },
    }
}

/// The content stored for a note titled `t` with the extension `ext`.
pub open spec fn stored_text(t: Seq<char>, ext: Seq<char>, body: Seq<char>) -> Seq<char> {
    if ext == "md"@ {
        encoded_note(t, body)
    } else {
        let b = normalized(body);
        if has_suffix(b, seq!['\n']) {
            b
        } else if b.len() == 0 {
            seq![]
        } else {
            b + seq!['\n']
        }
    }
}

/// The text shown for a note titled `t` with the extension `ext` stored as `stored`.
pub open spec fn shown_text(t: Seq<char>, ext: Seq<char>, stored: Seq<char>) -> Seq<char> {
    if ext == "md"@ {
        decoded_note(t, stored)
    } else {
        crate::text::strip_all_end(stored, '\n')
    }
}

/// What saving the note titled `title` with `body` in `category` gives
/// (the saved note), and the changes it makes; `previous` names the file
/// the note was read from, when it is an existing note.
pub open spec fn save_note_changes(d: DataView, category: Seq<char>, title: Seq<char>, body: Seq<char>, previous: Option<Seq<char>>) -> (Result<DocView, Failure>, Seq<ChangeView>) {
    match name_check(category) {
        Err(m) => (Err(Failure::Invalid(m)), seq![]),
        Ok(c) => match name_check(title) {
            Err(m) => (Err(Failure::Invalid(m)), seq![]),
            Ok(t) => if !is_category(d, c) {
                (Err(Failure::NotFound(no_category())), seq![])
            } else {
                match save_plan(d, c, t, previous) {
                    Err(f) => (Err(f), seq![]),
                    Ok(plan) => {
                        let ext = plan.0;
                        let name = dotted(t, ext);
                        let text = stored_text(t, ext, body);
                        let c1 = plan.2 + seq![ChangeView::WriteNote { category: c, name, text }];
                        let d1 = apply_all(d, c1);
                        let a = match plan.1 {
                            Some(p) => if p != name {
                                retitle_files_changes(d1, c, p, name)
                            } else {
                                (Ok(()), seq![])
                            },
                            None => (Ok(()), seq![]),
                        };
                        let d2 = apply_all(d1, a.1);
                        let b = sync_files_changes(d2, c);
                        let d3 = apply_all(d2, b.1);
                        let all = chain((Ok(()), c1), chain(a, chain(b, index_changes(d3))));
                        match all.0 {
                            Err(f) => (Err(f), all.1),
                            Ok(_) => (Ok(DocView {
                                category: c,
                                title: t,
                                file_name: name,
                                extension: ext,
                                kind: "text"@,
                                body: shown_text(t, ext, text),
                                size_label: size_text(byte_len(text)),
                            }), all.1),
                        }
                    },
                }
            },
        },
    }
}

/// What deleting the file `file_name` of `category` gives, and the changes
/// it makes.
pub open spec fn delete_note_changes(d: DataView, category: Seq<char>, file_name: Seq<char>) -> (Result<(), Failure>, Seq<ChangeView>) {
    match name_check(category) {
        Err(m) => (Err(Failure::Invalid(m)), seq![]),
        Ok(c) => match file_name_check(file_name) {
            Err(m) => (Err(Failure::Invalid(m)), seq![]),
            Ok(f) => {
                let c1 = match note_entry(d, c, f) {
                    Some(e) => if e.is_file {
                        seq![ChangeView::RemoveNote { category: c, name: f }]
                    } else {
                        seq![]
                    },
                    None => seq![],
                };
                let d1 = apply_all(d, c1);
                let b = sync_files_changes(d1, c);
                chain((Ok(()), c1), chain(b, index_changes(apply_all(d1, b.1))))
            },
        },
    }
}

/// The `k`-th free name for an imported file: `stem k` or `stem k.ext`.
pub open spec fn numbered(stem: Seq<char>, k: nat, ext: Seq<char>) -> Seq<char> {
    if ext.len() == 0 {
        stem + " "@ + crate::sizes::decimal(k)
    } else {
        dotted(stem + " "@ + crate::sizes::decimal(k), ext)
    }
}

/// The first number from `k` to 200 whose numbered name is free in `c`.
pub open spec fn free_number(d: DataView, c: Seq<char>, stem: Seq<char>, ext: Seq<char>, k: nat) -> Option<nat>
    decreases 201 - k,
{
    if k > 200 {
        None
    } else if !entry_taken(d, c, numbered(stem, k, ext)) {
        Some(k)
    } else {
        free_number(d, c, stem, ext, k + 1)
    }
}

/// The number `free_number` finds is the first free one from `k`: every
/// numbered name before it is taken; when it finds none, every numbered name
/// from `k` to 200 is taken.
pub proof fn lemma_free_number_first(d: DataView, c: Seq<char>, stem: Seq<char>, ext: Seq<char>, k: nat)
    ensures
        free_number(d, c, stem, ext, k) matches Some(j) ==> k <= j <= 200 && !entry_taken(d, c, numbered(stem, j, ext))
            && forall|i: nat| k <= i < j ==> #[trigger] entry_taken(d, c, numbered(stem, i, ext)),
        free_number(d, c, stem, ext, k) is None ==> forall|i: nat| k <= i <= 200 ==> #[trigger] entry_taken(d, c, numbered(stem, i, ext)),
    decreases 201 - k,
{
    if k <= 200 && entry_taken(d, c, numbered(stem, k, ext)) {
        lemma_free_number_first(d, c, stem, ext, k + 1);
    }
}

/// An imported file gets the first free name: its own name (extension in
/// lower case) when that is free, else the first free of `stem 2`, ...,
/// `stem 200`, every earlier one being taken.
pub proof fn lemma_import_name_first_free(d: DataView, c: Seq<char>, file_name: Seq<char>)
    ensures
        import_name(d, c, file_name) matches Ok(n) ==> ({
            let ext = ascii_lower(file_extension(file_name));
            let stem = name_check(file_stem(file_name))->Ok_0;
            let base = if ext.len() == 0 { stem } else { dotted(stem, ext) };
            &&& !entry_taken(d, c, n)
            &&& (n == base || (entry_taken(d, c, base) && exists|k: nat| 2 <= k <= 200 && n == numbered(stem, k, ext)
                && forall|i: nat| 2 <= i < k ==> #[trigger] entry_taken(d, c, numbered(stem, i, ext))))
        }),
{
    let ext = ascii_lower(file_extension(file_name));
    if name_check(file_stem(file_name)) is Ok {
        let stem = name_check(file_stem(file_name))->Ok_0;
        lemma_free_number_first(d, c, stem, ext, 2);
    }
}

/// The name an imported file gets in `c`: its own (with the extension in
/// lower case) when that is free, else the first free numbered one.
pub open spec fn import_name(d: DataView, c: Seq<char>, file_name: Seq<char>) -> Result<Seq<char>, Failure> {
    let ext = ascii_lower(file_extension(file_name));
    match name_check(file_stem(file_name)) {
        Err(m) => Err(Failure::Invalid(m)),
        Ok(stem) => {
            let base = if ext.len() == 0 { stem } else { dotted(stem, ext) };
            if !entry_taken(d, c, base) {
                Ok(base)
            } else {
                match free_number(d, c, stem, ext, 2) {
                    None => Err(Failure::Conflict("同名文件太多了"@)),
                    Some(k) => Ok(numbered(stem, k, ext)),
                }
            }
        },
    }
}

/// The entry that an imported file becomes.
pub open spec fn imported_entry(name: Seq<char>, size: nat) -> EntryView {
    EntryView { name, is_file: true, size, content: ContentView::Missing, location: None }
}

/// What importing the file `src` into `category` gives (its summary), and
/// the changes it makes.
pub open spec fn import_changes(d: DataView, category: Seq<char>, src: ImportSource) -> (Result<SummaryView, Failure>, Seq<ChangeView>) {
    match existing_category(d, category) {
        Err(f) => (Err(f), seq![]),
        Ok(c) => if !src.is_file {
            (Err(Failure::NotFound("找不到要导入的文件"@)), seq![])
        } else if !listed_file_name(src.file_name@) {
            (Err(Failure::Invalid("这类文件不会在资料库中展示"@)), seq![])
        } else {
            match import_name(d, c, src.file_name@) {
                Err(f) => (Err(f), seq![]),
                Ok(n) => {
                    let c1 = seq![ChangeView::CopyIn { category: c, name: n, source: src.path@, size: src.size as nat }];
                    let d1 = apply_all(d, c1);
                    let b = sync_files_changes(d1, c);
                    let all = chain((Ok(()), c1), chain(b, index_changes(apply_all(d1, b.1))));
                    match all.0 {
                        Err(f) => (Err(f), all.1),
                        Ok(_) => match summary_of(c, imported_entry(n, src.size as nat)) {
                            None => (Err(Failure::Invalid("导入后无法识别文件"@)), all.1),
                            Some(s) => (Ok(s), all.1),
                        },
                    }
                },
            }
        },
    }
}

/// The view of an optional string.
pub open spec fn opt_string(o: Option<String>) -> Option<Seq<char>> {
    match o {
        Some(s) => Some(s@),
        None => None,
    }
}

/// `a.b`.
fn dotted_name(a: &String, b: &String) -> (r: String)
    ensures
        r@ == dotted(a@, b@),
{
    let mut out = chars_of(a.as_str());
    out.push('.');
    push_str(&mut out, b.as_str());
    proof {
        reveal_strlit(".");
    }
    assert(out@ =~= dotted(a@, b@));
    string_of(&out)
}

/// The content stored for a note titled `t` with the extension `ext`.
fn stored_note_text(t: &String, ext: &String, body: &str) -> (r: String)
    ensures
        r@ == stored_text(t@, ext@, body@),
{
    let md = "md".to_owned();
    if *ext == md {
        return encode_note(t.as_str(), body);
    }
    let raw = chars_of(body);
    let mut b = normalize_newlines(&raw);
    let nl: Vec<char> = vec!['\n'];
    assert(nl@ =~= seq!['\n']);
    if crate::text::ends_with(&b, &nl) {
        string_of(&b)
    } else if b.len() == 0 {
        String::new()
    } else {
        b.push('\n');
        string_of(&b)
    }
}

/// The text shown for a note titled `t` with the extension `ext` stored as
/// `stored`.
fn shown_note_text(t: &String, ext: &String, stored: &String) -> (r: String)
    ensures
        r@ == shown_text(t@, ext@, stored@),
{
    let md = "md".to_owned();
    if *ext == md {
        decode_note(t.as_str(), stored.as_str())
    } else {
        let s = chars_of(stored.as_str());
        let stripped = crate::text::strip_end_all(&s, '\n');
        string_of(&stripped)
    }
}

/// The view of a `Result` of a summary.
pub open spec fn summary_result(r: Result<NoteSummary, StoreError>) -> Result<SummaryView, Failure> {
    match r {
        Ok(v) => Ok(v@),
        Err(e) => Err(e@),
    }
}

/// `stem k`, or `stem k.ext` when `ext` is not empty.
fn numbered_name(stem: &String, k: u64, ext: &Vec<char>) -> (r: String)
    ensures
        r@ == numbered(stem@, k as nat, ext@),
{
    let mut out = chars_of(stem.as_str());
    out.push(' ');
    push_decimal(&mut out, k as u128);
    proof {
        reveal_strlit(" ");
        reveal_strlit(".");
    }
    if ext.len() == 0 {
        assert(out@ =~= numbered(stem@, k as nat, ext@));
    } else {
        out.push('.');
        push_chars(&mut out, ext);
        assert(out@ =~= numbered(stem@, k as nat, ext@));
    }
    string_of(&out)
}

/// The store of a data folder.
pub struct Store {
    data: DataFolder,
    changes: Vec<Change>,
}

impl Store {
    /// What the store holds of the data folder, after its changes.
    pub closed spec fn data_view(&self) -> DataView {
        self.data@
    }

    /// The changes the store has made and not yet handed out, in order.
    pub closed spec fn change_log(&self) -> Seq<ChangeView> {
        change_views(self.changes@)
    }

    fn record(&mut self, c: Change)
        ensures
            final(self).data_view() == apply(old(self).data_view(), c@),
            final(self).change_log() == old(self).change_log().push(c@),
    {
        self.data.apply_change(&c);
        let ghost before = change_views(self.changes@);
        self.changes.push(c);
        assert(change_views(self.changes@) =~= before.push(c@));
    }

    /// Hands out the changes made so far, in order, and forgets them.
    pub fn take_changes(&mut self) -> (r: Vec<Change>)
        ensures
            change_views(r@) == old(self).change_log(),
            final(self).change_log() == Seq::<ChangeView>::empty(),
            final(self).data_view() == old(self).data_view(),
    {
        let mut out: Vec<Change> = Vec::new();
        std::mem::swap(&mut out, &mut self.changes);
        assert(change_views(self.changes@) =~= Seq::<ChangeView>::empty());
        out
    }

    /// What the store holds of the data folder, with its changes made.
    pub fn data(&self) -> (r: &DataFolder)
        ensures
            r@ == self.data_view(),
    {
        &self.data
    }

    /// The path of the data folder as it was given.
    pub fn root(&self) -> (r: &String)
        ensures
            r@ == self.data_view().root,
    {
        &self.data.root
    }

    /// The absolute path of the data folder, as it is shown to the user.
    pub fn display_path(&self) -> (r: String)
        ensures
            r@ == plain_path_chars(self.data_view().location),
    {
        plain_path(self.data.location.as_str())
    }

    fn read_order(&self) -> (r: Result<LibraryOrder, StoreError>)
        ensures
            match r {
                Ok(o) => order_of(self.data_view()) == Ok::<OrderView, Failure>(o.view_order()),
                Err(e) => order_of(self.data_view()) == Err::<OrderView, Failure>(e@),
            },
    {
        match &self.data.order {
            Content::Missing => {
                let o = parse_order("");
                proof {
                    reveal_strlit("");
                    assert(""@ =~= Seq::<char>::empty());
                    assert(normalized(seq![]) =~= seq![]) by {
                        assert(crate::text::strip_all_start(seq![], crate::notes::bom()) =~= Seq::<char>::empty());
                    }
                }
                Ok(o)
            },
            Content::Text(t) => {
                let raw = chars_of(t.as_str());
                let norm = normalize_newlines(&raw);
                let text = string_of(&norm);
                Ok(parse_order(text.as_str()))
            },
            Content::Unreadable(m) => Err(StoreError::Io(m.clone())),
        }
    }

    fn raw_categories(&self) -> (r: Vec<String>)
        ensures
            str_views(r@) == dir_names(self.data_view().notes),
    {
        let ghost nv = folder_views(self.data.notes@);
        let mut found: Vec<String> = Vec::new();
        let mut i: usize = 0;
        while i < self.data.notes.len()
            invariant
                i <= self.data.notes.len(),
                nv == folder_views(self.data.notes@),
                nv == self.data_view().notes,
                str_views(found@) == dir_names(nv.subrange(0, i as int)),
            decreases self.data.notes.len() - i,
        {
            assert(nv.subrange(0, i + 1).drop_last() =~= nv.subrange(0, i as int));
            let f = &self.data.notes[i];
            assert(nv[i as int] == f@);
            let cs = chars_of(f.name.as_str());
            let is_hidden = cs.len() > 0 && cs[0] == '.';
            if f.is_dir && !is_hidden {
                let ghost before = str_views(found@);
                found.push(f.name.clone());
                assert(str_views(found@) =~= before.push(f.name@));
            }
            i = i + 1;
        }
        assert(nv.subrange(0, self.data.notes.len() as int) =~= nv);
        found
    }


    fn folder_summaries(&self, category: &String) -> (r: (Vec<NoteSummary>, Vec<String>))
        ensures
            summary_views(r.0@) == listed_summaries(category@, folder_entries(self.data_view(), category@)),
            str_views(r.1@) == listed_names(self.data_view(), category@),
    {
        let mut ss: Vec<NoteSummary> = Vec::new();
        let mut names: Vec<String> = Vec::new();
        let ghost d = self.data_view();
        proof {
            crate::model::lemma_find_folder_bound(d.notes, category@);
        }
        match folder_index(&self.data.notes, category) {
            Some(fi) => {
                let entries = &self.data.notes[fi].entries;
                let ghost ev = entry_views(entries@);
                assert(ev == folder_entries(d, category@));
                let mut i: usize = 0;
                while i < entries.len()
                    invariant
                        i <= entries.len(),
                        ev == entry_views(entries@),
                        summary_views(ss@) == listed_summaries(category@, ev.subrange(0, i as int)),
                        str_views(names@) == file_names(summary_views(ss@)),
                    decreases entries.len() - i,
                {
                    assert(ev.subrange(0, i + 1).drop_last() =~= ev.subrange(0, i as int));
                    assert(ev[i as int] == entries@[i as int]@);
                    match summarize_entry(category, &entries[i]) {
                        Some(s) => {
                            let ghost b1 = summary_views(ss@);
                            let ghost b2 = str_views(names@);
                            names.push(s.file_name.clone());
                            ss.push(s);
                            assert(summary_views(ss@) =~= b1.push(s@));
                            assert(str_views(names@) =~= b2.push(s@.file_name));
                            assert(file_names(summary_views(ss@)) =~= file_names(b1).push(s@.file_name));
                        },
                        None => {},
                    }
                    i = i + 1;
                }
                assert(ev.subrange(0, entries.len() as int) =~= ev);
            },
            None => {
                assert(summary_views(ss@) =~= Seq::<SummaryView>::empty());
                assert(str_views(names@) =~= Seq::<Seq<char>>::empty());
                assert(file_names(summary_views(ss@)) =~= Seq::<Seq<char>>::empty());
            },
        }
        (ss, names)
    }

    fn notes_in_category(&self, category: &String, saved: &Vec<String>) -> (r: Vec<NoteSummary>)
        ensures
            summary_views(r@) == notes_in(self.data_view(), category@, str_views(saved@)),
    {
        let (ss, names) = self.folder_summaries(category);
        let ghost sv = summary_views(ss@);
        let order = arrange(saved.as_slice(), names);
        let ghost ov = str_views(order@);
        let mut notes: Vec<NoteSummary> = Vec::new();
        let mut i: usize = 0;
        while i < order.len()
            invariant
                i <= order.len(),
                ov == str_views(order@),
                sv == summary_views(ss@),
                summary_views(notes@) == pick_named(sv, ov.subrange(0, i as int)),
            decreases order.len() - i,
        {
            assert(ov[i as int] == order@[i as int]@);
            let s = find_named(&ss, &order[i]);
            let ghost before = summary_views(notes@);
            notes.push(s);
            assert(summary_views(notes@) =~= before.push(s@));
            assert(pick_named(sv, ov.subrange(0, i + 1)) =~= pick_named(sv, ov.subrange(0, i as int)).push(last_named(sv, ov[i as int])));
            i = i + 1;
        }
        assert(ov.subrange(0, order.len() as int) =~= ov);
        notes
    }


    fn is_category(&self, name: &String) -> (r: bool)
        ensures
            r == is_category(self.data_view(), name@),
    {
        proof {
            crate::model::lemma_find_folder_bound(self.data_view().notes, name@);
        }
        match folder_index(&self.data.notes, name) {
            Some(i) => {
                assert(self.data_view().notes[i as int] == self.data.notes@[i as int]@);
                self.data.notes[i].is_dir
            },
            None => false,
        }
    }

    fn saved_order_of(order: &LibraryOrder, category: &String) -> (r: Vec<String>)
        ensures
            str_views(r@) == saved_files(order.view_order(), category@),
    {
        let name = chars_of(category.as_str());
        let k = find_file_order(&order.files, &name);
        proof {
            crate::order::lemma_find_key_bound(file_orders_view(order.files@), name@);
        }
        if k < order.files.len() {
            assert(file_orders_view(order.files@)[k as int] == (order.files@[k as int].category@, str_views(order.files@[k as int].names@)));
            order.files[k].names.clone()
        } else {
            let v: Vec<String> = Vec::new();
            assert(str_views(v@) =~= Seq::<Seq<char>>::empty());
            v
        }
    }

    fn chosen_categories(&self, category: Option<&str>) -> (r: Result<Vec<String>, StoreError>)
        ensures
            names_result(r) == listed_categories(self.data_view(), opt_text(category)),
    {
        match category {
            Some(c) => {
                let raw = chars_of(c);
                let t = trim_chars(&raw);
                if t.len() > 0 {
                    let ts = string_of(&t);
                    let name = validate_name(ts.as_str())?;
                    if !self.is_category(&name) {
                        return Err(not_found("分类不存在"));
                    }
                    let mut v: Vec<String> = Vec::new();
                    v.push(name);
                    assert(str_views(v@) =~= seq![v@[0]@]);
                    Ok(v)
                } else {
                    self.list_categories()
                }
            },
            None => self.list_categories(),
        }
    }

    /// The notes of the named category, or of every category in its shown
    /// order, each category's notes in their saved order; when a query is
    /// given, only those whose title or file name contains it, ignoring case.
    pub fn list_notes(&self, category: Option<&str>, query: Option<&str>) -> (r: Result<Vec<NoteSummary>, StoreError>)
        ensures
            summaries_result(r) == notes_result(self.data_view(), opt_text(category), opt_text(query)),
    {
        let q_raw = match query {
            Some(q) => chars_of(q),
            None => Vec::new(),
        };
        let q_trim = trim_chars(&q_raw);
        let q = if q_trim.len() == 0 {
            q_trim
        } else {
            let q_str = string_of(&q_trim);
            let q_low = lowercase_text(q_str.as_str());
            chars_of(q_low.as_str())
        };
        proof {
            assert(q_raw@ == match opt_text(query) { Some(x) => x, None => Seq::<char>::empty() });
        }
        assert(q@ == note_query(opt_text(query)));
        let cats = self.chosen_categories(category)?;
        let order = self.read_order()?;
        let ghost d = self.data_view();
        let ghost o = order.view_order();
        let ghost cv = str_views(cats@);
        let mut notes: Vec<NoteSummary> = Vec::new();
        let mut i: usize = 0;
        while i < cats.len()
            invariant
                i <= cats.len(),
                d == self.data_view(),
                o == order.view_order(),
                cv == str_views(cats@),
                summary_views(notes@) == notes_listing(d, cv.subrange(0, i as int), o, q@),
            decreases cats.len() - i,
        {
            assert(cv.subrange(0, i + 1).drop_last() =~= cv.subrange(0, i as int));
            assert(cv[i as int] == cats@[i as int]@);
            let saved = Self::saved_order_of(&order, &cats[i]);
            let found = self.notes_in_category(&cats[i], &saved);
            let ghost fv = summary_views(found@);
            let ghost base = summary_views(notes@);
            let mut j: usize = 0;
            while j < found.len()
                invariant
                    j <= found.len(),
                    fv == summary_views(found@),
                    summary_views(notes@) == base + matching(fv.subrange(0, j as int), q@),
                decreases found.len() - j,
            {
                assert(fv.subrange(0, j + 1).drop_last() =~= fv.subrange(0, j as int));
                assert(fv[j as int] == found@[j as int]@);
                if shown(&q, &found[j]) {
                    let s = &found[j];
                    let ghost before = summary_views(notes@);
                    notes.push(NoteSummary {
                        category: s.category.clone(),
                        title: s.title.clone(),
                        file_name: s.file_name.clone(),
                        extension: s.extension.clone(),
                        kind: s.kind.clone(),
                    });
                    assert(summary_views(notes@) =~= before.push(fv[j as int]));
                    assert(base + matching(fv.subrange(0, j + 1), q@) =~= (base + matching(fv.subrange(0, j as int), q@)).push(fv[j as int]));
                }
                j = j + 1;
            }
            assert(fv.subrange(0, found.len() as int) =~= fv);
            i = i + 1;
        }
        assert(cv.subrange(0, cats.len() as int) =~= cv);
        Ok(notes)
    }


    fn listed_day_names(&self) -> (r: Vec<String>)
        ensures
            str_views(r@) == index_days(self.data_view()),
    {
        let ghost dv = day_views(self.data.days@);
        let md = chars_of(".md");
        let later = chars_of("later.md");
        let mut names: Vec<String> = Vec::new();
        let mut i: usize = 0;
        while i < self.data.days.len()
            invariant
                i <= self.data.days.len(),
                dv == day_views(self.data.days@),
                dv == self.data_view().days,
                md@ == ".md"@,
                later@ == "later.md"@,
                strictly_sorted(str_views(names@)),
                forall|x: Seq<char>| #[trigger] str_views(names@).contains(x) <==> ((exists|q: int| 0 <= q < i && #[trigger] dv[q].0 == x) && day_listed(x)),
            decreases self.data.days.len() - i,
        {
            let name = &self.data.days[i].name;
            assert(dv[i as int].0 == name@);
            let nc = chars_of(name.as_str());
            let listed = crate::text::ends_with(&nc, &md) && !crate::text::same_chars(&nc, &later);
            if listed {
                insert_sorted(&mut names, name.clone());
            }
            assert forall|x: Seq<char>| #[trigger] str_views(names@).contains(x) <==> ((exists|q: int| 0 <= q < i + 1 && #[trigger] dv[q].0 == x) && day_listed(x)) by {
                if x == name@ {
                    assert(dv[i as int].0 == x);
                }
                if exists|q: int| 0 <= q < i + 1 && #[trigger] dv[q].0 == x {
                    let q = choose|q: int| 0 <= q < i + 1 && #[trigger] dv[q].0 == x;
                    if q < i {
                        assert(exists|q: int| 0 <= q < i && #[trigger] dv[q].0 == x);
                    }
                }
            }
            i = i + 1;
        }
        proof {
            let nv = str_views(names@);
            assert forall|x: Seq<char>| #[trigger] nv.contains(x) <==> (find_day(dv, x) >= 0 && day_listed(x)) by {
                lemma_find_day_bound(dv, x);
                if exists|q: int| 0 <= q < dv.len() && #[trigger] dv[q].0 == x {
                    let q = choose|q: int| 0 <= q < dv.len() && #[trigger] dv[q].0 == x;
                    assert(dv[q].0 == x);
                }
                if find_day(dv, x) >= 0 {
                    assert(dv[find_day(dv, x)].0 == x);
                }
            }
            let u = index_days(self.data_view());
            assert(strictly_sorted(u) && forall|x: Seq<char>| #[trigger] u.contains(x) <==> (find_day(dv, x) >= 0 && day_listed(x)));
            assert forall|x: Seq<char>| u.contains(x) <==> nv.contains(x) by {}
            lemma_sorted_unique(u, nv);
        }
        names
    }

    fn index_text(&self) -> (r: Result<String, StoreError>)
        ensures
            match r {
                Ok(t) => index_text(self.data_view()) == Ok::<Seq<char>, Failure>(t@),
                Err(e) => index_text(self.data_view()) == Err::<Seq<char>, Failure>(e@),
            },
    {
        let ghost d = self.data_view();
        let mut lines: Vec<Vec<char>> = Vec::new();
        push_text_line(&mut lines, &chars_of("# 资料目录"));
        push_text_line(&mut lines, &Vec::new());
        push_text_line(&mut lines, &chars_of("本文件由摸鱼大王自动更新。"));
        push_text_line(&mut lines, &Vec::new());
        push_text_line(&mut lines, &chars_of("## 待办"));
        push_text_line(&mut lines, &Vec::new());
        let ghost head = seq!["# 资料目录"@, seq![], "本文件由摸鱼大王自动更新。"@, seq![], "## 待办"@, seq![]];
        assert(char_views(lines@) =~= head);
        let days = self.listed_day_names();
        let ghost dn = str_views(days@);
        let ghost day_part = if !d.todos_listed {
            seq![]
        } else if dn.len() == 0 {
            seq!["- （还没有待办文件）"@]
        } else {
            dn.map_values(|n: Seq<char>| day_link(n))
        };
        if !self.data.todos_listed {
            assert(head + day_part =~= head);
        } else if days.len() == 0 {
            push_text_line(&mut lines, &chars_of("- （还没有待办文件）"));
        } else {
            let mut i: usize = 0;
            while i < days.len()
                invariant
                    i <= days.len(),
                    dn == str_views(days@),
                    char_views(lines@) == head + dn.subrange(0, i as int).map_values(|n: Seq<char>| day_link(n)),
                decreases days.len() - i,
            {
                assert(dn[i as int] == days@[i as int]@);
                let name = chars_of(days[i].as_str());
                let label = strip_md_exec(&name);
                let l = link_line("- [", &label, "](<../todos/", &name, ">)");
                let ghost before = char_views(lines@);
                push_text_line(&mut lines, &l);
                assert(head + dn.subrange(0, i + 1).map_values(|n: Seq<char>| day_link(n)) =~= before.push(day_link(dn[i as int])));
                i = i + 1;
            }
            assert(dn.subrange(0, days.len() as int) =~= dn);
        }
        assert(char_views(lines@) =~= head + day_part);
        push_text_line(&mut lines, &Vec::new());
        push_text_line(&mut lines, &chars_of("## 资料"));
        let ghost top = head + day_part + seq![seq![], "## 资料"@];
        assert(char_views(lines@) =~= top);
        let cats = self.list_categories()?;
        let ghost cv = str_views(cats@);
        let ghost mut ss: Seq<(Seq<char>, Seq<SummaryView>)> = seq![];
        let mut i: usize = 0;
        assert(cv.subrange(0, 0) =~= Seq::<Seq<char>>::empty());
        while i < cats.len()
            invariant
                i <= cats.len(),
                d == self.data_view(),
                cv == str_views(cats@),
                categories_of(d) == Ok::<Seq<Seq<char>>, Failure>(cv),
                index_sections(d, cv.subrange(0, i as int)) == Ok::<Seq<(Seq<char>, Seq<SummaryView>)>, Failure>(ss),
                char_views(lines@) == top + index_sections_lines(ss),
            decreases cats.len() - i,
        {
            assert(cv.subrange(0, i + 1).drop_last() =~= cv.subrange(0, i as int));
            assert(cv[i as int] == cats@[i as int]@);
            let listed = self.list_notes(Some(cats[i].as_str()), None);
            match listed {
                Err(e) => {
                    proof {
                        lemma_index_sections_err(d, cv.subrange(0, i + 1), cv.subrange(i + 1, cv.len() as int), e@);
                        assert(cv.subrange(0, i + 1) + cv.subrange(i + 1, cv.len() as int) =~= cv);
                    }
                    return Err(e);
                },
                Ok(notes) => {
                    let ghost nv = summary_views(notes@);
                    let ghost base = char_views(lines@);
                    let mut sec: Vec<Vec<char>> = Vec::new();
                    push_text_line(&mut sec, &Vec::new());
                    let mut h = chars_of("### ");
                    push_chars(&mut h, &chars_of(cats[i].as_str()));
                    push_text_line(&mut sec, &h);
                    push_text_line(&mut sec, &Vec::new());
                    let ghost sh = seq![seq![], "### "@ + cv[i as int], seq![]];
                    assert(char_views(sec@) =~= sh);
                    if notes.len() == 0 {
                        push_text_line(&mut sec, &chars_of("- （空）"));
                    } else {
                        let mut j: usize = 0;
                        while j < notes.len()
                            invariant
                                j <= notes.len(),
                                nv == summary_views(notes@),
                                char_views(sec@) == sh + nv.subrange(0, j as int).map_values(|s: SummaryView| note_link(s)),
                            decreases notes.len() - j,
                        {
                            assert(nv[j as int] == notes@[j as int]@);
                            let n = &notes[j];
                            let mut l = chars_of("- [");
                            push_chars(&mut l, &chars_of(n.title.as_str()));
                            push_str(&mut l, "](<../notes/");
                            push_chars(&mut l, &chars_of(n.category.as_str()));
                            push_str(&mut l, "/");
                            push_chars(&mut l, &chars_of(n.file_name.as_str()));
                            push_str(&mut l, ">)");
                            assert(l@ =~= note_link(nv[j as int]));
                            let ghost before = char_views(sec@);
                            push_text_line(&mut sec, &l);
                            assert(sh + nv.subrange(0, j + 1).map_values(|s: SummaryView| note_link(s)) =~= before.push(note_link(nv[j as int])));
                            j = j + 1;
                        }
                        assert(nv.subrange(0, notes.len() as int) =~= nv);
                    }
                    assert(char_views(sec@) =~= index_section(cv[i as int], nv));
                    let mut k: usize = 0;
                    while k < sec.len()
                        invariant
                            k <= sec.len(),
                            char_views(lines@) == base + char_views(sec@).subrange(0, k as int),
                        decreases sec.len() - k,
                    {
                        let ghost before = char_views(lines@);
                        push_text_line(&mut lines, &sec[k]);
                        assert(char_views(sec@)[k as int] == sec@[k as int]@);
                        assert(base + char_views(sec@).subrange(0, k + 1) =~= before.push(sec@[k as int]@));
                        k = k + 1;
                    }
                    assert(char_views(sec@).subrange(0, sec.len() as int) =~= char_views(sec@));
                    proof {
                        let ss2 = ss.push((cv[i as int], nv));
                        assert(ss2.drop_last() =~= ss);
                        assert(index_sections_lines(ss2) == index_sections_lines(ss) + index_section(cv[i as int], nv));
                        assert(char_views(lines@) =~= top + index_sections_lines(ss2));
                        ss = ss2;
                    }
                },
            }
            i = i + 1;
        }
        assert(cv.subrange(0, cats.len() as int) =~= cv);
        assert(char_views(lines@) =~= index_lines(d.todos_listed, index_days(d), ss));
        let text = join_lines(&lines);
        Ok(string_of(&text))
    }

    fn write_index(&mut self) -> (r: Result<(), StoreError>)
        ensures
            unit_result(r) == index_changes(old(self).data_view()).0,
            final(self).change_log() == old(self).change_log() + index_changes(old(self).data_view()).1,
            final(self).data_view() == apply_all(old(self).data_view(), index_changes(old(self).data_view()).1),
    {
        let ghost d = self.data_view();
        match self.index_text() {
            Err(e) => {
                assert(old(self).change_log() + Seq::<ChangeView>::empty() =~= old(self).change_log());
                assert(apply_all(d, Seq::<ChangeView>::empty()) == d);
                Err(e)
            },
            Ok(text) => {
                self.record(Change::WriteIndex { text });
                proof {
                    let cs = index_changes(d).1;
                    assert(cs.drop_last() =~= Seq::<ChangeView>::empty());
                    assert(apply_all(d, cs) == apply(apply_all(d, cs.drop_last()), cs.last()));
                    assert(old(self).change_log().push(cs[0]) =~= old(self).change_log() + cs);
                }
                Ok(())
            },
        }
    }


    /// A store of the data folder `data` that has made no change yet.
    pub fn new(data: DataFolder) -> (r: Store)
        ensures
            r.data_view() == data@,
            r.change_log() == Seq::<ChangeView>::empty(),
    {
        let s = Store { data, changes: Vec::new() };
        assert(change_views(s.changes@) =~= Seq::<ChangeView>::empty());
        s
    }

    /// Opens the store of the data folder `data`, making its folders and
    /// its index.
    pub fn open(data: DataFolder) -> (r: Result<Store, StoreError>)
        ensures
            layout_changes(data@).0 is Ok <==> r is Ok,
            r matches Err(e) ==> layout_changes(data@).0 == Err::<(), Failure>(e@),
            r matches Ok(s) ==> s.change_log() == layout_changes(data@).1 && s.data_view() == apply(data@, ChangeView::CreateFolders),
    {
        let mut store = Store::new(data);
        match store.ensure_layout() {
            Ok(()) => {
                assert(Seq::<ChangeView>::empty() + layout_changes(data@).1 =~= layout_changes(data@).1);
                Ok(store)
            },
            Err(e) => Err(e),
        }
    }

    /// Makes the folders `todos/`, `.meta/` and `notes/` where they are
    /// missing, and writes the index.
    pub fn ensure_layout(&mut self) -> (r: Result<(), StoreError>)
        ensures
            unit_result(r) == layout_changes(old(self).data_view()).0,
            final(self).change_log() == old(self).change_log() + layout_changes(old(self).data_view()).1,
            final(self).data_view() == apply(old(self).data_view(), ChangeView::CreateFolders),
    {
        let ghost d = self.data_view();
        self.record(Change::CreateFolders);
        let ghost d1 = self.data_view();
        let r = self.write_index();
        proof {
            let c = index_changes(d1).1;
            assert(old(self).change_log().push(ChangeView::CreateFolders) + c =~= old(self).change_log() + (seq![ChangeView::CreateFolders] + c));
            if c.len() > 0 {
                assert(c.drop_last() =~= Seq::<ChangeView>::empty());
                assert(apply_all(d1, c) == apply(apply_all(d1, c.drop_last()), c.last()));
            }
        }
        r
    }

    fn day_content(&self, name: &String) -> (r: Result<String, StoreError>)
        ensures
            match r {
                Ok(t) => day_text(self.data_view(), name@) == Ok::<Seq<char>, Failure>(t@),
                Err(e) => day_text(self.data_view(), name@) == Err::<Seq<char>, Failure>(e@),
            },
    {
        proof {
            lemma_find_day_bound(self.data_view().days, name@);
        }
        match day_index(&self.data.days, name) {
            None => Ok(String::new()),
            Some(i) => {
                assert(self.data_view().days[i as int] == (self.data.days@[i as int].name@, self.data.days@[i as int].content@));
                match &self.data.days[i].content {
                    Content::Missing => Ok(String::new()),
                    Content::Text(t) => {
                        let raw = chars_of(t.as_str());
                        let norm = normalize_newlines(&raw);
                        Ok(string_of(&norm))
                    },
                    Content::Unreadable(m) => Err(StoreError::Io(m.clone())),
                }
            },
        }
    }

    /// The items of the to-do list of `date` (`YYYY-MM-DD`), in the order
    /// of the file.
    pub fn load_day(&self, date: &str) -> (r: Result<Vec<TodoItem>, StoreError>)
        ensures
            todos_result(r) == day_result(self.data_view(), date@),
    {
        let date = validate_date(date)?;
        let mut name = date.clone();
        name.append(".md");
        let text = self.day_content(&name)?;
        Ok(parse_todos(text.as_str()))
    }

    fn write_day(&mut self, date: &String, items: &Vec<TodoItem>)
        ensures
            final(self).change_log() == old(self).change_log() + day_changes(old(self).data_view(), date@, todo_views(items@)),
            final(self).data_view() == apply_all(old(self).data_view(), day_changes(old(self).data_view(), date@, todo_views(items@))),
    {
        let ghost d = self.data_view();
        let mut name = date.clone();
        name.append(".md");
        proof {
            lemma_find_day_bound(d.days, name@);
        }
        if items.len() == 0 {
            match day_index(&self.data.days, &name) {
                Some(_) => {
                    let c = Change::RemoveDay { name };
                    let ghost cv = c@;
                    self.record(c);
                    proof {
                        assert(seq![cv].drop_last() =~= Seq::<ChangeView>::empty());
                        assert(apply_all(d, seq![cv]) == apply(apply_all(d, seq![cv].drop_last()), cv));
                        assert(old(self).change_log().push(cv) =~= old(self).change_log() + seq![cv]);
                    }
                },
                None => {
                    assert(old(self).change_log() + Seq::<ChangeView>::empty() =~= old(self).change_log());
                },
            }
        } else {
            let text = todo_file_text(date.as_str(), items);
            let c = Change::WriteDay { name, text };
            let ghost cv = c@;
            self.record(c);
            proof {
                assert(seq![cv].drop_last() =~= Seq::<ChangeView>::empty());
                assert(apply_all(d, seq![cv]) == apply(apply_all(d, seq![cv].drop_last()), cv));
                assert(old(self).change_log().push(cv) =~= old(self).change_log() + seq![cv]);
            }
        }
    }

    /// Saves `items` as the to-do list of `date`: texts are cleaned, empty
    /// items dropped, open items put before done ones; with no items left
    /// the day's file is removed. Then the index is written.
    pub fn save_day(&mut self, date: &str, items: &[TodoItem]) -> (r: Result<(), StoreError>)
        ensures
            unit_result(r) == save_day_changes(old(self).data_view(), date@, todo_views(items@)).0,
            final(self).change_log() == old(self).change_log() + save_day_changes(old(self).data_view(), date@, todo_views(items@)).1,
            final(self).data_view() == apply_all(old(self).data_view(), save_day_changes(old(self).data_view(), date@, todo_views(items@)).1),
    {
        let ghost d = self.data_view();
        let ghost iv = todo_views(items@);
        let date = match validate_date(date) {
            Ok(v) => v,
            Err(e) => {
                assert(old(self).change_log() + Seq::<ChangeView>::empty() =~= old(self).change_log());
                return Err(e);
            },
        };
        let cleaned = match clean_todos(items) {
            Ok(v) => v,
            Err(e) => {
                assert(old(self).change_log() + Seq::<ChangeView>::empty() =~= old(self).change_log());
                return Err(e);
            },
        };
        let sorted = sink_done(cleaned);
        self.write_day(&date, &sorted);
        let ghost c1 = day_changes(d, date@, todo_views(sorted@));
        let ghost d1 = self.data_view();
        let ghost log1 = self.change_log();
        let r = self.write_index();
        proof {
            let c2 = index_changes(d1).1;
            assert(log1 + c2 =~= old(self).change_log() + (c1 + c2));
            lemma_apply_all_concat(d, c1, c2);
        }
        r
    }


    fn earlier_days(&self, today: &String) -> (r: Vec<String>)
        ensures
            str_views(r@) == carry_dates(self.data_view(), today@),
    {
        let ghost d = self.data_view();
        let ghost dv = day_views(self.data.days@);
        let md = chars_of(".md");
        let tc = chars_of(today.as_str());
        let mut dates: Vec<String> = Vec::new();
        let mut i: usize = 0;
        while i < self.data.days.len()
            invariant
                i <= self.data.days.len(),
                d == self.data_view(),
                dv == day_views(self.data.days@),
                dv == d.days,
                md@ == ".md"@,
                tc@ == today@,
                strictly_sorted(str_views(dates@)),
                forall|x: Seq<char>| #[trigger] str_views(dates@).contains(x) <==> ((exists|q: int| 0 <= q < i && #[trigger] dv[q].0 == day_file_name(x)) && valid_date(x) && text_less(x, today@)),
            decreases self.data.days.len() - i,
        {
            let name = chars_of(self.data.days[i].name.as_str());
            assert(dv[i as int].0 == name@);
            let ghost mut added: Option<Seq<char>> = None;
            proof {
                reveal_strlit(".md");
            }
            if name.len() >= 3 && crate::text::ends_with(&name, &md) {
                let stem_v = crate::text::slice_chars(&name, 0, name.len() - 3);
                assert(name@ =~= stem_v@ + ".md"@);
                let stem = string_of(&stem_v);
                if validate_date(stem.as_str()).is_ok() && less_chars(&stem_v, &tc) {
                    insert_sorted(&mut dates, stem);
                    proof {
                        added = Some(stem_v@);
                    }
                }
            }
            assert forall|x: Seq<char>| #[trigger] str_views(dates@).contains(x) <==> ((exists|q: int| 0 <= q < i + 1 && #[trigger] dv[q].0 == day_file_name(x)) && valid_date(x) && text_less(x, today@)) by {
                if dv[i as int].0 == day_file_name(x) {
                    assert(name@ == x + ".md"@);
                    assert(name@.len() >= 3);
                    assert(name@.subrange(0, name@.len() - 3) =~= x);
                    assert(crate::text::has_suffix(name@, ".md"@)) by {
                        assert(name@.subrange(name@.len() - 3, name@.len() as int) =~= ".md"@);
                    }
                }
                if exists|q: int| 0 <= q < i + 1 && #[trigger] dv[q].0 == day_file_name(x) {
                    let q = choose|q: int| 0 <= q < i + 1 && #[trigger] dv[q].0 == day_file_name(x);
                    if q < i {
                        assert(exists|q: int| 0 <= q < i && #[trigger] dv[q].0 == day_file_name(x));
                    }
                }
                if added == Some(x) {
                    assert(dv[i as int].0 == day_file_name(x));
                }
            }
            i = i + 1;
        }
        proof {
            let nv = str_views(dates@);
            assert forall|x: Seq<char>| #[trigger] nv.contains(x) <==> earlier_day(d, x, today@) by {
                lemma_find_day_bound(dv, day_file_name(x));
                if exists|q: int| 0 <= q < dv.len() && #[trigger] dv[q].0 == day_file_name(x) {
                    let q = choose|q: int| 0 <= q < dv.len() && #[trigger] dv[q].0 == day_file_name(x);
                    assert(dv[q].0 == day_file_name(x));
                }
                if find_day(dv, day_file_name(x)) >= 0 {
                    assert(dv[find_day(dv, day_file_name(x))].0 == day_file_name(x));
                }
            }
            let u = carry_dates(d, today@);
            assert(strictly_sorted(nv) && forall|x: Seq<char>| #[trigger] nv.contains(x) <==> earlier_day(d, x, today@));
            assert(strictly_sorted(u) && forall|x: Seq<char>| #[trigger] u.contains(x) <==> earlier_day(d, x, today@));
            assert forall|x: Seq<char>| u.contains(x) <==> nv.contains(x) by {}
            lemma_sorted_unique(u, nv);
        }
        dates
    }

    fn carry_day(&mut self, date: &String, moved: &mut Vec<TodoItem>) -> (r: Result<(), StoreError>)
        ensures
            carry_step(old(self).data_view(), todo_views(old(moved)@), date@).0 == match r {
                Ok(_) => Ok::<Seq<(Seq<char>, bool)>, Failure>(todo_views(final(moved)@)),
                Err(e) => Err(e@),
            },
            final(self).change_log() == old(self).change_log() + carry_step(old(self).data_view(), todo_views(old(moved)@), date@).1,
            final(self).data_view() == apply_all(old(self).data_view(), carry_step(old(self).data_view(), todo_views(old(moved)@), date@).1),
    {
        reveal(carry_step);
        let ghost d = self.data_view();
        let items = match self.load_day(date.as_str()) {
            Ok(v) => v,
            Err(e) => {
                assert(old(self).change_log() + Seq::<ChangeView>::empty() =~= old(self).change_log());
                return Err(e);
            },
        };
        let (open, done) = partition_todos(&items);
        if open.len() == 0 {
            assert(old(self).change_log() + Seq::<ChangeView>::empty() =~= old(self).change_log());
            return Ok(());
        }
        let ghost m0 = todo_views(moved@);
        let mut open_mut = open;
        moved.append(&mut open_mut);
        assert(todo_views(moved@) =~= m0 + open_todos(todo_views(items@)));
        self.save_day(date.as_str(), done.as_slice())
    }

    fn carry_rest(&mut self, today: &String, moved: Vec<TodoItem>) -> (r: Result<usize, StoreError>)
        ensures
            carry_finish(old(self).data_view(), today@, todo_views(moved@)).0 == match r {
                Ok(n) => Ok::<nat, Failure>(n as nat),
                Err(e) => Err(e@),
            },
            final(self).change_log() == old(self).change_log() + carry_finish(old(self).data_view(), today@, todo_views(moved@)).1,
            final(self).data_view() == apply_all(old(self).data_view(), carry_finish(old(self).data_view(), today@, todo_views(moved@)).1),
    {
        let count = moved.len();
        assert(old(self).change_log() + Seq::<ChangeView>::empty() =~= old(self).change_log());
        if count == 0 {
            return Ok(0);
        }
        let mut today_items = self.load_day(today.as_str())?;
        let mut all = moved;
        let ghost m0 = todo_views(all@);
        let ghost t0 = todo_views(today_items@);
        all.append(&mut today_items);
        assert(todo_views(all@) =~= m0 + t0);
        self.save_day(today.as_str(), all.as_slice())?;
        Ok(count)
    }

    /// Moves the open items of every earlier day to the list of `today`,
    /// before today's own items; earlier days keep their done items. Gives
    /// how many items moved.
    pub fn carry_unfinished(&mut self, today: &str) -> (r: Result<usize, StoreError>)
        ensures
            carry_changes(old(self).data_view(), today@).0 == match r {
                Ok(n) => Ok::<nat, Failure>(n as nat),
                Err(e) => Err(e@),
            },
            final(self).change_log() == old(self).change_log() + carry_changes(old(self).data_view(), today@).1,
            final(self).data_view() == apply_all(old(self).data_view(), carry_changes(old(self).data_view(), today@).1),
    {
        let ghost d0 = self.data_view();
        let ghost log0 = self.change_log();
        let ghost t0 = today@;
        let today_s = match validate_date(today) {
            Ok(v) => v,
            Err(e) => {
                assert(log0 + Seq::<ChangeView>::empty() =~= log0);
                return Err(e);
            },
        };
        let dates = self.earlier_days(&today_s);
        let ghost dv = str_views(dates@);
        let mut moved: Vec<TodoItem> = Vec::new();
        let ghost mut delta: Seq<ChangeView> = seq![];
        let mut i: usize = 0;
        assert(dv.subrange(0, 0) =~= Seq::<Seq<char>>::empty());
        assert(log0 + Seq::<ChangeView>::empty() =~= log0);
        assert(todo_views(moved@) =~= Seq::<(Seq<char>, bool)>::empty());
        while i < dates.len()
            invariant
                i <= dates.len(),
                d0 == old(self).data_view(),
                log0 == old(self).change_log(),
                today_s@ == t0,
                t0 == today@,
                valid_date(t0),
                dv == str_views(dates@),
                dv == carry_dates(d0, today_s@),
                carry_fold(d0, dv.subrange(0, i as int)) == (Ok::<Seq<(Seq<char>, bool)>, Failure>(todo_views(moved@)), delta),
                self.change_log() == log0 + delta,
                self.data_view() == apply_all(d0, delta),
            decreases dates.len() - i,
        {
            assert(dv.subrange(0, i + 1).drop_last() =~= dv.subrange(0, i as int));
            assert(dv[i as int] == dates@[i as int]@);
            let ghost pre = dv.subrange(0, i + 1);
            let ghost rest = dv.subrange(i + 1, dv.len() as int);
            assert(pre + rest =~= dv);
            let ghost d1 = self.data_view();
            let ghost log1 = self.change_log();
            let ghost m0 = todo_views(moved@);
            let r = self.carry_day(&dates[i], &mut moved);
            proof {
                let cs2 = carry_step(d1, m0, dv[i as int]).1;
                lemma_apply_all_concat(d0, delta, cs2);
                assert(log1 + cs2 =~= log0 + (delta + cs2));
                delta = delta + cs2;
            }
            assert(pre.last() == dv[i as int]);
            match r {
                Err(e) => {
                    proof {
                        assert(carry_fold(d0, pre) == (Err::<Seq<(Seq<char>, bool)>, Failure>(e@), delta));
                        lemma_carry_fold_err(d0, pre, rest);
                        assert(carry_fold(d0, dv) == carry_fold(d0, pre));
                        assert(carry_fold(d0, carry_dates(d0, t0)) == (Err::<Seq<(Seq<char>, bool)>, Failure>(e@), delta));
                        assert(carry_changes(d0, t0) == (Err::<nat, Failure>(e@), delta));
                    }
                    return Err(e);
                },
                Ok(()) => {},
            }
            i = i + 1;
        }
        assert(dv.subrange(0, dates.len() as int) =~= dv);
        let ghost d1 = self.data_view();
        let ghost log1 = self.change_log();
        let ghost mv = todo_views(moved@);
        let r = self.carry_rest(&today_s, moved);
        proof {
            let cs2 = carry_finish(d1, today_s@, mv).1;
            lemma_apply_all_concat(d0, delta, cs2);
            assert(log1 + cs2 =~= log0 + (delta + cs2));
        }
        r
    }


    fn write_order(&mut self, order: &LibraryOrder)
        ensures
            made(*old(self), *final(self), seq![order_write(order.view_order())]),
    {
        let text = render_order(order);
        let c = Change::WriteOrder { text };
        let ghost cv = c@;
        self.record(c);
        proof {
            lemma_made_one(*old(self), *self, cv);
        }
    }

    fn sync_category_order(&mut self) -> (r: Result<(), StoreError>)
        ensures
            unit_result(r) == sync_categories_changes(old(self).data_view()).0,
            made(*old(self), *final(self), sync_categories_changes(old(self).data_view()).1),
    {
        proof {
            lemma_made_none(*self);
        }
        let mut order = self.read_order()?;
        if let Some(m) = &self.data.notes_error {
            return Err(StoreError::Io(m.clone()));
        }
        let present = self.raw_categories();
        let cats = arrange(order.categories.as_slice(), present);
        order.keep_files(&cats);
        order.categories = cats;
        self.write_order(&order);
        Ok(())
    }

    fn sync_file_order(&mut self, category: &String) -> (r: Result<(), StoreError>)
        ensures
            unit_result(r) == sync_files_changes(old(self).data_view(), category@).0,
            made(*old(self), *final(self), sync_files_changes(old(self).data_view(), category@).1),
    {
        proof {
            lemma_made_none(*self);
        }
        let mut order = self.read_order()?;
        proof {
            crate::model::lemma_find_folder_bound(self.data_view().notes, category@);
        }
        match folder_index(&self.data.notes, category) {
            None => return Err(StoreError::Io(self.data.missing_dir_message.clone())),
            Some(i) => {
                assert(self.data_view().notes[i as int] == self.data.notes@[i as int]@);
                if !self.data.notes[i].is_dir {
                    return Err(StoreError::Io(self.data.not_dir_message.clone()));
                }
            },
        }
        let saved = Self::saved_order_of(&order, category);
        let (_, present) = self.folder_summaries(category);
        let names = arrange(saved.as_slice(), present);
        order.set_files(category, names);
        self.write_order(&order);
        Ok(())
    }

    fn retitle_category_order(&mut self, from: &String, to: &String) -> (r: Result<(), StoreError>)
        ensures
            unit_result(r) == retitle_categories_changes(old(self).data_view(), from@, to@).0,
            made(*old(self), *final(self), retitle_categories_changes(old(self).data_view(), from@, to@).1),
    {
        proof {
            lemma_made_none(*self);
        }
        let mut order = self.read_order()?;
        crate::order::rename_names(&mut order.categories, from, to);
        match order.remove_files(from) {
            Some(files) => order.set_files(to, files),
            None => {},
        }
        self.write_order(&order);
        Ok(())
    }

    fn retitle_file_order(&mut self, category: &String, from: &String, to: &String) -> (r: Result<(), StoreError>)
        ensures
            unit_result(r) == retitle_files_changes(old(self).data_view(), category@, from@, to@).0,
            made(*old(self), *final(self), retitle_files_changes(old(self).data_view(), category@, from@, to@).1),
    {
        proof {
            lemma_made_none(*self);
        }
        let mut order = self.read_order()?;
        order.rename_in_files(category, from, to);
        self.write_order(&order);
        Ok(())
    }

    fn write_index_step(&mut self) -> (r: Result<(), StoreError>)
        ensures
            unit_result(r) == index_changes(old(self).data_view()).0,
            made(*old(self), *final(self), index_changes(old(self).data_view()).1),
    {
        self.write_index()
    }

    fn finish_categories(&mut self) -> (r: Result<(), StoreError>)
        ensures
            unit_result(r) == categories_done(old(self).data_view()).0,
            made(*old(self), *final(self), categories_done(old(self).data_view()).1),
    {
        let ghost s0 = *self;
        let r1 = self.sync_category_order();
        match r1 {
            Err(e) => Err(e),
            Ok(()) => {
                let ghost s1 = *self;
                let r2 = self.write_index_step();
                proof {
                    lemma_made_chain(s0, s1, *self, sync_categories_changes(s0.data_view()).1, index_changes(s1.data_view()).1);
                }
                r2
            },
        }
    }

    /// Saves `names` as the order of the categories: the named categories
    /// that exist, in that order, then the others, sorted.
    pub fn reorder_categories(&mut self, names: &[String]) -> (r: Result<(), StoreError>)
        ensures
            unit_result(r) == reorder_categories_changes(old(self).data_view(), str_views(names@)).0,
            made(*old(self), *final(self), reorder_categories_changes(old(self).data_view(), str_views(names@)).1),
    {
        proof {
            lemma_made_none(*self);
        }
        if let Some(m) = &self.data.notes_error {
            return Err(StoreError::Io(m.clone()));
        }
        let present = self.raw_categories();
        let mut order = self.read_order()?;
        order.categories = arrange(names, present);
        let ghost s0 = *self;
        self.write_order(&order);
        let ghost s1 = *self;
        let r = self.write_index_step();
        proof {
            lemma_made_chain(s0, s1, *self, seq![order_write(order.view_order())], index_changes(s1.data_view()).1);
        }
        r
    }

    fn existing_category(&self, value: &str) -> (r: Result<String, StoreError>)
        ensures
            match r {
                Ok(n) => existing_category(self.data_view(), value@) == Ok::<Seq<char>, Failure>(n@),
                Err(e) => existing_category(self.data_view(), value@) == Err::<Seq<char>, Failure>(e@),
            },
    {
        let name = validate_name(value)?;
        if !self.is_category(&name) {
            return Err(not_found("分类不存在"));
        }
        Ok(name)
    }

    /// Saves `names` as the order of the files of `category`: the named
    /// files that exist, in that order, then the others, sorted.
    pub fn reorder_files(&mut self, category: &str, names: &[String]) -> (r: Result<(), StoreError>)
        ensures
            unit_result(r) == reorder_files_changes(old(self).data_view(), category@, str_views(names@)).0,
            made(*old(self), *final(self), reorder_files_changes(old(self).data_view(), category@, str_views(names@)).1),
    {
        proof {
            lemma_made_none(*self);
        }
        let category = self.existing_category(category)?;
        let (_, present) = self.folder_summaries(&category);
        let mut order = self.read_order()?;
        order.set_files(&category, arrange(names, present));
        let ghost s0 = *self;
        self.write_order(&order);
        let ghost s1 = *self;
        let r = self.write_index_step();
        proof {
            lemma_made_chain(s0, s1, *self, seq![order_write(order.view_order())], index_changes(s1.data_view()).1);
        }
        r
    }

    /// Creates the category `name`.
    pub fn create_category(&mut self, name: &str) -> (r: Result<(), StoreError>)
        ensures
            unit_result(r) == create_category_changes(old(self).data_view(), name@).0,
            made(*old(self), *final(self), create_category_changes(old(self).data_view(), name@).1),
    {
        proof {
            lemma_made_none(*self);
            crate::model::lemma_find_folder_bound(self.data_view().notes, name@);
        }
        let name = validate_name(name)?;
        if self.category_taken(&name) {
            return Err(crate::records::conflict("已有同名分类"));
        }
        let ghost s0 = *self;
        let c = Change::CreateCategory { name };
        let ghost cv = c@;
        self.record(c);
        let ghost s1 = *self;
        proof {
            lemma_made_one(s0, s1, cv);
        }
        let r = self.finish_categories();
        proof {
            lemma_made_chain(s0, s1, *self, seq![cv], categories_done(s1.data_view()).1);
        }
        r
    }

    /// Deletes the category `name` with everything in its folder.
    pub fn delete_category(&mut self, name: &str) -> (r: Result<(), StoreError>)
        ensures
            unit_result(r) == delete_category_changes(old(self).data_view(), name@).0,
            made(*old(self), *final(self), delete_category_changes(old(self).data_view(), name@).1),
    {
        proof {
            lemma_made_none(*self);
        }
        let name = self.existing_category(name)?;
        let ghost s0 = *self;
        let c = Change::RemoveCategory { name };
        let ghost cv = c@;
        self.record(c);
        let ghost s1 = *self;
        proof {
            lemma_made_one(s0, s1, cv);
        }
        let r = self.finish_categories();
        proof {
            lemma_made_chain(s0, s1, *self, seq![cv], categories_done(s1.data_view()).1);
        }
        r
    }

    /// Renames the category `from` to `to`, keeping its place in the order.
    pub fn rename_category(&mut self, from: &str, to: &str) -> (r: Result<(), StoreError>)
        ensures
            unit_result(r) == rename_category_changes(old(self).data_view(), from@, to@).0,
            made(*old(self), *final(self), rename_category_changes(old(self).data_view(), from@, to@).1),
    {
        proof {
            lemma_made_none(*self);
        }
        let from = validate_name(from)?;
        let to = validate_name(to)?;
        if from == to {
            return Ok(());
        }
        if !self.is_category(&from) {
            return Err(not_found("分类不存在"));
        }
        proof {
            crate::model::lemma_find_folder_bound(self.data_view().notes, to@);
        }
        if self.category_taken(&to) {
            return Err(crate::records::conflict("已有同名分类"));
        }
        let ghost s0 = *self;
        let c = Change::RenameCategory { from: from.clone(), to: to.clone() };
        let ghost cv = c@;
        self.record(c);
        let ghost s1 = *self;
        proof {
            lemma_made_one(s0, s1, cv);
        }
        let r1 = self.retitle_category_order(&from, &to);
        let ghost s2 = *self;
        proof {
            lemma_made_chain(s0, s1, s2, seq![cv], retitle_categories_changes(s1.data_view(), from@, to@).1);
        }
        match r1 {
            Err(e) => Err(e),
            Ok(()) => {
                let r2 = self.finish_categories();
                proof {
                    let a = retitle_categories_changes(s1.data_view(), from@, to@).1;
                    let b = categories_done(s2.data_view()).1;
                    lemma_made_chain(s1, s2, *self, a, b);
                    lemma_made_chain(s0, s1, *self, seq![cv], a + b);
                    assert(seq![cv] + (a + b) =~= seq![cv] + a + b);
                }
                r2
            },
        }
    }


    /// Whether an entry of `notes/` has the name `name`, as the file system
    /// compares names.
    fn category_taken(&self, name: &String) -> (r: bool)
        ensures
            r == folder_taken(self.data_view(), name@),
    {
        let ghost d = self.data_view();
        let r = folder_name_taken(&self.data.notes, self.data.ignore_case, name);
        proof {
            if r {
                let k = choose|k: int| 0 <= k < d.notes.len() && #[trigger] same_name(d.ignore_case, d.notes[k].name, name@);
                assert(same_name(d.ignore_case, d.notes[k].name, name@));
            } else {
                assert forall|k: int| 0 <= k < d.notes.len() implies !#[trigger] same_name(d.ignore_case, d.notes[k].name, name@) by {}
            }
        }
        r
    }

    /// Whether an entry of the folder of `category` has the name `name`, as
    /// the file system compares names.
    fn note_taken(&self, category: &String, name: &String) -> (r: bool)
        ensures
            r == entry_taken(self.data_view(), category@, name@),
    {
        proof {
            crate::model::lemma_find_folder_bound(self.data_view().notes, category@);
        }
        match folder_index(&self.data.notes, category) {
            None => false,
            Some(i) => {
                let ghost d = self.data_view();
                let ghost es = folder_entries(d, category@);
                assert(es == entry_views(self.data.notes[i as int].entries@));
                let r = entry_name_taken(&self.data.notes[i].entries, self.data.ignore_case, name);
                proof {
                    if r {
                        let k = choose|k: int| 0 <= k < es.len() && #[trigger] same_name(d.ignore_case, es[k].name, name@);
                        assert(same_name(d.ignore_case, es[k].name, name@));
                    } else {
                        assert forall|k: int| 0 <= k < es.len() implies !#[trigger] same_name(d.ignore_case, es[k].name, name@) by {}
                    }
                }
                r
            },
        }
    }

    fn find_note(&self, category: &String, file_name: &String) -> (r: Option<&Entry>)
        ensures
            match r {
                Some(e) => note_entry(self.data_view(), category@, file_name@) == Some(e@),
                None => note_entry(self.data_view(), category@, file_name@) is None,
            },
    {
        proof {
            crate::model::lemma_find_folder_bound(self.data_view().notes, category@);
        }
        match folder_index(&self.data.notes, category) {
            None => None,
            Some(i) => {
                let entries = &self.data.notes[i].entries;
                assert(folder_entries(self.data_view(), category@) == entry_views(entries@));
                match entry_index(entries, file_name) {
                    None => None,
                    Some(j) => {
                        assert(entry_views(entries@)[j as int] == entries@[j as int]@);
                        Some(&entries[j])
                    },
                }
            },
        }
    }

    /// The note `file_name` of `category` with its text and size.
    pub fn read_note(&self, category: &str, file_name: &str) -> (r: Result<NoteDoc, StoreError>)
        ensures
            doc_result(r) == read_note_result(self.data_view(), category@, file_name@),
    {
        let category = validate_name(category)?;
        let file_name = validate_file_name(file_name)?;
        let entry = match self.find_note(&category, &file_name) {
            Some(e) => e,
            None => return Err(not_found("资料不存在")),
        };
        let summary = match summarize_entry(&category, entry) {
            Some(s) => s,
            None => return Err(not_found("资料不存在")),
        };
        let text_kind = "text".to_owned();
        let md = "md".to_owned();
        let body = if summary.kind == text_kind {
            let raw = match &entry.content {
                Content::Missing => String::new(),
                Content::Text(t) => {
                    let rc = chars_of(t.as_str());
                    let norm = normalize_newlines(&rc);
                    string_of(&norm)
                },
                Content::Unreadable(m) => return Err(StoreError::Io(m.clone())),
            };
            if summary.extension == md {
                decode_note(summary.title.as_str(), raw.as_str())
            } else {
                let rc = chars_of(raw.as_str());
                let stripped = crate::text::strip_end_all(&rc, '\n');
                string_of(&stripped)
            }
        } else {
            String::new()
        };
        Ok(NoteDoc {
            category: summary.category,
            title: summary.title,
            file_name: summary.file_name,
            extension: summary.extension,
            kind: summary.kind,
            body,
            size_label: format_size(entry.size),
        })
    }

    /// The absolute path of the file `file_name` of `category`, as it is shown.
    pub fn absolute_path(&self, category: &str, file_name: &str) -> (r: Result<String, StoreError>)
        ensures
            text_result(r) == absolute_path_result(self.data_view(), category@, file_name@),
    {
        let category = validate_name(category)?;
        let file_name = validate_file_name(file_name)?;
        match self.find_note(&category, &file_name) {
            Some(e) => {
                if e.is_file {
                    let path = self.data.path_of_note(&category, e);
                    Ok(plain_path(path.as_str()))
                } else {
                    Err(not_found("资料不存在"))
                }
            },
            None => Err(not_found("资料不存在")),
        }
    }

    fn open_note(&mut self, category: &str, file_name: &str, reveal: bool) -> (r: Result<(), StoreError>)
        ensures
            unit_result(r) == open_note_changes(old(self).data_view(), category@, file_name@, reveal).0,
            made(*old(self), *final(self), open_note_changes(old(self).data_view(), category@, file_name@, reveal).1),
    {
        proof {
            lemma_made_none(*self);
        }
        let path = self.absolute_path(category, file_name)?;
        let c = if reveal {
            Change::Reveal { path }
        } else {
            Change::Open { path }
        };
        let ghost cv = c@;
        self.record(c);
        proof {
            lemma_made_one(*old(self), *self, cv);
        }
        Ok(())
    }

    /// Opens the file `file_name` of `category` with the program the system
    /// chooses.
    pub fn open_file(&mut self, category: &str, file_name: &str) -> (r: Result<(), StoreError>)
        ensures
            unit_result(r) == open_note_changes(old(self).data_view(), category@, file_name@, false).0,
            made(*old(self), *final(self), open_note_changes(old(self).data_view(), category@, file_name@, false).1),
    {
        self.open_note(category, file_name, false)
    }

    /// Shows the file `file_name` of `category` in the system's file manager.
    pub fn reveal_file(&mut self, category: &str, file_name: &str) -> (r: Result<(), StoreError>)
        ensures
            unit_result(r) == open_note_changes(old(self).data_view(), category@, file_name@, true).0,
            made(*old(self), *final(self), open_note_changes(old(self).data_view(), category@, file_name@, true).1),
    {
        self.open_note(category, file_name, true)
    }

    /// Opens the data folder in the system's file manager.
    pub fn open_root(&mut self) -> (r: Result<(), StoreError>)
        ensures
            r is Ok,
            made(*old(self), *final(self), seq![ChangeView::Open { path: plain_path_chars(old(self).data_view().location) }]),
    {
        let path = self.display_path();
        let c = Change::Open { path };
        let ghost cv = c@;
        self.record(c);
        proof {
            lemma_made_one(*old(self), *self, cv);
        }
        Ok(())
    }

    /// Opens the folder of `category` in the system's file manager.
    pub fn open_category_directory(&mut self, category: &str) -> (r: Result<(), StoreError>)
        ensures
            unit_result(r) == open_category_changes(old(self).data_view(), category@).0,
            made(*old(self), *final(self), open_category_changes(old(self).data_view(), category@).1),
    {
        proof {
            lemma_made_none(*self);
        }
        let category = self.existing_category(category)?;
        proof {
            crate::model::lemma_find_folder_bound(self.data_view().notes, category@);
        }
        let i = match folder_index(&self.data.notes, &category) {
            Some(i) => i,
            None => return Err(not_found("分类不存在")),
        };
        let folder = self.data.path_of_folder(&category);
        let path = plain_path(folder.as_str());
        let c = Change::Open { path };
        let ghost cv = c@;
        self.record(c);
        proof {
            lemma_made_one(*old(self), *self, cv);
        }
        Ok(())
    }

    /// Writes `content` to the Markdown file `target`, which must lie
    /// outside the data folder.
    pub fn write_export(&mut self, target: &ExportTarget, content: &str) -> (r: Result<(), StoreError>)
        ensures
            unit_result(r) == export_changes(old(self).data_view(), target.path@, target.file_name@, parent_view(*target), content@).0,
            made(*old(self), *final(self), export_changes(old(self).data_view(), target.path@, target.file_name@, parent_view(*target), content@).1),
    {
        proof {
            lemma_made_none(*self);
        }
        if content.len() > 2_000_000 {
            return Err(invalid("导出内容过长"));
        }
        let name = chars_of(target.file_name.as_str());
        let lower = to_ascii_lower(&name);
        let md = chars_of(".md");
        if crate::text::same_chars(&name, &md) || !crate::text::ends_with(&lower, &md) {
            return Err(invalid("请保存为 .md 文件"));
        }
        match &target.parent_parts {
            Some(parts) => {
                if parts_start_with(parts, &self.data.root_parts) {
                    return Err(invalid("请保存到数据目录以外"));
                }
            },
            None => {},
        }
        let c = Change::WriteExport { path: target.path.clone(), text: content.to_owned() };
        let ghost cv = c@;
        self.record(c);
        proof {
            lemma_made_one(*old(self), *self, cv);
        }
        Ok(())
    }

    /// The categories in the order they are shown: the saved order first,
    /// then categories not in it, sorted.
    pub fn list_categories(&self) -> (r: Result<Vec<String>, StoreError>)
        ensures
            names_result(r) == categories_of(self.data_view()),
    {
        if let Some(m) = &self.data.notes_error {
            return Err(StoreError::Io(m.clone()));
        }
        let found = self.raw_categories();
        let order = self.read_order()?;
        Ok(arrange(order.categories.as_slice(), found))
    }

    /// Decides how the note titled `t` is saved in the category `c`, and
    /// renames the file it was read from when its name changes.
    fn plan_save(&mut self, c: &String, t: &String, previous: Option<&str>) -> (r: Result<(String, Option<String>), StoreError>)
        ensures
            match r {
                Ok(p) => save_plan(old(self).data_view(), c@, t@, opt_text(previous)) matches Ok(plan)
                    && plan.0 == p.0@ && plan.1 == opt_string(p.1)
                    && made(*old(self), *final(self), plan.2),
                Err(e) => save_plan(old(self).data_view(), c@, t@, opt_text(previous)) == Err::<(Seq<char>, Option<Seq<char>>, Seq<ChangeView>), Failure>(e@)
                    && made(*old(self), *final(self), seq![]),
            },
    {
        proof {
            lemma_made_none(*self);
        }
        let md = "md".to_owned();
        let chosen: Option<Vec<char>> = match previous {
            Some(p) => {
                let raw = chars_of(p);
                let tp = trim_chars(&raw);
                if tp.len() > 0 {
                    Some(tp)
                } else {
                    None
                }
            },
            None => None,
        };
        match chosen {
            None => {
                let name = dotted_name(t, &md);
                if self.note_taken(c, &name) {
                    return Err(crate::records::conflict("已有同名资料"));
                }
                Ok((md, None))
            },
            Some(p) => {
                let ps = string_of(&p);
                let p2 = validate_file_name(ps.as_str())?;
                let summary = match self.find_note(c, &p2) {
                    Some(e) => match summarize_entry(c, e) {
                        Some(s) => s,
                        None => return Err(not_found("资料不存在")),
                    },
                    None => return Err(not_found("资料不存在")),
                };
                let text_kind = "text".to_owned();
                if summary.kind != text_kind {
                    return Err(invalid("非文本文件请用系统程序打开编辑"));
                }
                let dest = dotted_name(t, &summary.extension);
                if p2 != dest {
                    if self.note_taken(c, &dest) {
                        return Err(crate::records::conflict("已有同名资料"));
                    }
                    let ch = Change::RenameNote { category: c.clone(), from: p2.clone(), to: dest };
                    let ghost cv = ch@;
                    self.record(ch);
                    proof {
                        lemma_made_one(*old(self), *self, cv);
                    }
                }
                Ok((summary.extension, Some(p2)))
            },
        }
    }

    /// Saves the note titled `title` with `body` in `category` and gives it
    /// back as it now reads. `previous` names the file the note was read
    /// from; when the title changes, that file is renamed and keeps its
    /// extension and its place in the order. A new note is a Markdown file.
    pub fn save_note(&mut self, category: &str, title: &str, body: &str, previous: Option<&str>) -> (r: Result<NoteDoc, StoreError>)
        ensures
            doc_result(r) == save_note_changes(old(self).data_view(), category@, title@, body@, opt_text(previous)).0,
            made(*old(self), *final(self), save_note_changes(old(self).data_view(), category@, title@, body@, opt_text(previous)).1),
    {
        proof {
            lemma_made_none(*self);
        }
        let category = validate_name(category)?;
        let title = validate_name(title)?;
        if !self.is_category(&category) {
            return Err(not_found("分类不存在"));
        }
        let ghost s0 = *self;
        let ghost d0 = s0.data_view();
        let (ext, from) = self.plan_save(&category, &title, previous)?;
        let ghost s1 = *self;
        let ghost plan = save_plan(d0, category@, title@, opt_text(previous))->Ok_0;
        let name = dotted_name(&title, &ext);
        let text = stored_note_text(&title, &ext, body);
        let shown = shown_note_text(&title, &ext, &text);
        let size = crate::model::text_size(&text);
        let c = Change::WriteNote { category: category.clone(), name: name.clone(), text };
        let ghost cv = c@;
        self.record(c);
        let ghost s2 = *self;
        proof {
            lemma_made_one(s1, s2, cv);
            lemma_made_chain(s0, s1, s2, plan.2, seq![cv]);
        }
        let ghost c1 = plan.2 + seq![cv];
        let r_a = match &from {
            Some(p) => if *p != name {
                self.retitle_file_order(&category, p, &name)
            } else {
                proof {
                    lemma_made_none(*self);
                }
                Ok(())
            },
            None => {
                proof {
                    lemma_made_none(*self);
                }
                Ok(())
            },
        };
        let ghost s3 = *self;
        let ghost a = match plan.1 {
            Some(p) => if p != name@ {
                retitle_files_changes(s2.data_view(), category@, p, name@)
            } else {
                (Ok(()), seq![])
            },
            None => (Ok(()), seq![]),
        };
        proof {
            lemma_made_chain(s0, s2, s3, c1, a.1);
        }
        match r_a {
            Err(e) => return Err(e),
            Ok(()) => {},
        }
        let r_b = self.sync_file_order(&category);
        let ghost s4 = *self;
        let ghost b = sync_files_changes(s3.data_view(), category@);
        proof {
            lemma_made_chain(s0, s3, s4, c1 + a.1, b.1);
        }
        match r_b {
            Err(e) => return Err(e),
            Ok(()) => {},
        }
        let r_c = self.write_index_step();
        proof {
            let x = index_changes(s4.data_view());
            lemma_made_chain(s0, s4, *self, c1 + a.1 + b.1, x.1);
            assert(c1 + a.1 + b.1 + x.1 =~= c1 + (a.1 + (b.1 + x.1)));
        }
        match r_c {
            Err(e) => return Err(e),
            Ok(()) => {},
        }
        Ok(NoteDoc {
            category,
            title,
            file_name: name,
            extension: ext,
            kind: "text".to_owned(),
            body: shown,
            size_label: format_size(size),
        })
    }

    /// The name an imported file called `file_name` gets in the category `c`.
    fn import_name_of(&self, c: &String, file_name: &String) -> (r: Result<String, StoreError>)
        ensures
            match r {
                Ok(n) => import_name(self.data_view(), c@, file_name@) == Ok::<Seq<char>, Failure>(n@),
                Err(e) => import_name(self.data_view(), c@, file_name@) == Err::<Seq<char>, Failure>(e@),
            },
    {
        let fc = chars_of(file_name.as_str());
        let (stem_c, ext_c) = split_file_name(&fc);
        let ext_l = to_ascii_lower(&ext_c);
        let stem_s = string_of(&stem_c);
        let stem = validate_name(stem_s.as_str())?;
        let ext = string_of(&ext_l);
        let base = if ext_l.len() == 0 {
            stem.clone()
        } else {
            dotted_name(&stem, &ext)
        };
        if !self.note_taken(c, &base) {
            return Ok(base);
        }
        let ghost d = self.data_view();
        let ghost goal = import_name(d, c@, file_name@);
        let mut k: u64 = 2;
        while k <= 200
            invariant
                2 <= k <= 201,
                d == self.data_view(),
                goal == import_name(d, c@, file_name@),
                goal == match free_number(d, c@, stem@, ext_l@, k as nat) {
                    None => Err::<Seq<char>, Failure>(Failure::Conflict("同名文件太多了"@)),
                    Some(j) => Ok(numbered(stem@, j, ext_l@)),
                },
            decreases 201 - k,
        {
            let n = numbered_name(&stem, k, &ext_l);
            if !self.note_taken(c, &n) {
                return Ok(n);
            }
            k = k + 1;
        }
        Err(crate::records::conflict("同名文件太多了"))
    }

    /// Copies the file `source` into `category`, under its own name when
    /// that is free, else under the first free name `stem 2`, `stem 3`, ...
    /// up to 200, and gives its summary.
    pub fn import_file(&mut self, category: &str, source: &ImportSource) -> (r: Result<NoteSummary, StoreError>)
        ensures
            summary_result(r) == import_changes(old(self).data_view(), category@, *source).0,
            made(*old(self), *final(self), import_changes(old(self).data_view(), category@, *source).1),
    {
        proof {
            lemma_made_none(*self);
        }
        let c = self.existing_category(category)?;
        if !source.is_file {
            return Err(not_found("找不到要导入的文件"));
        }
        let fc = chars_of(source.file_name.as_str());
        if !is_listed_file_name(&fc) {
            return Err(invalid("这类文件不会在资料库中展示"));
        }
        let n = self.import_name_of(&c, &source.file_name)?;
        let ghost s0 = *self;
        let ch = Change::CopyIn { category: c.clone(), name: n.clone(), source: source.path.clone(), size: source.size };
        let ghost cv = ch@;
        self.record(ch);
        let ghost s1 = *self;
        proof {
            lemma_made_one(s0, s1, cv);
        }
        let r_b = self.sync_file_order(&c);
        let ghost s2 = *self;
        let ghost b = sync_files_changes(s1.data_view(), c@);
        proof {
            lemma_made_chain(s0, s1, s2, seq![cv], b.1);
        }
        match r_b {
            Err(e) => return Err(e),
            Ok(()) => {},
        }
        let r_c = self.write_index_step();
        proof {
            let x = index_changes(s2.data_view());
            lemma_made_chain(s0, s2, *self, seq![cv] + b.1, x.1);
            assert(seq![cv] + b.1 + x.1 =~= seq![cv] + (b.1 + x.1));
        }
        match r_c {
            Err(e) => return Err(e),
            Ok(()) => {},
        }
        let entry = Entry { name: n, is_file: true, size: source.size, content: Content::Missing, location: None };
        match summarize_entry(&c, &entry) {
            None => Err(invalid("导入后无法识别文件")),
            Some(s) => Ok(s),
        }
    }

    /// Deletes the file `file_name` of `category`, when there is one.
    pub fn delete_note(&mut self, category: &str, file_name: &str) -> (r: Result<(), StoreError>)
        ensures
            unit_result(r) == delete_note_changes(old(self).data_view(), category@, file_name@).0,
            made(*old(self), *final(self), delete_note_changes(old(self).data_view(), category@, file_name@).1),
    {
        proof {
            lemma_made_none(*self);
        }
        let category = validate_name(category)?;
        let file_name = validate_file_name(file_name)?;
        let is_file = match self.find_note(&category, &file_name) {
            Some(e) => e.is_file,
            None => false,
        };
        let ghost s0 = *self;
        let ghost c1 = match note_entry(s0.data_view(), category@, file_name@) {
            Some(e) => if e.is_file {
                seq![ChangeView::RemoveNote { category: category@, name: file_name@ }]
            } else {
                seq![]
            },
            None => seq![],
        };
        if is_file {
            let ch = Change::RemoveNote { category: category.clone(), name: file_name };
            let ghost cv = ch@;
            self.record(ch);
            proof {
                lemma_made_one(s0, *self, cv);
            }
        } else {
            proof {
                lemma_made_none(*self);
            }
        }
        let ghost s1 = *self;
        let r_b = self.sync_file_order(&category);
        let ghost s2 = *self;
        let ghost b = sync_files_changes(s1.data_view(), category@);
        proof {
            lemma_made_chain(s0, s1, s2, c1, b.1);
        }
        match r_b {
            Err(e) => return Err(e),
            Ok(()) => {},
        }
        let r_c = self.write_index_step();
        proof {
            let x = index_changes(s2.data_view());
            lemma_made_chain(s0, s2, *self, c1 + b.1, x.1);
            assert(c1 + b.1 + x.1 =~= c1 + (b.1 + x.1));
        }
        r_c
    }
}

} // verus!
