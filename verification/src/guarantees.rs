//! What the store's operations promise across calls: what a later read
//! gives back of an earlier write.
use vstd::prelude::*;
use crate::arrange::{arranged, lemma_arrange_idempotent, lemma_arranged_exists, lemma_arranged_names, lemma_arranged_renamed};
use crate::model::{apply, apply_all, lemma_apply_all_concat, ChangeView, DataView, ImportSource};
use crate::order::{find_key, kept_files, lemma_find_key_bound, lookup, order_text, renamed, set_files, without_key, OrderView};
use crate::readback::{
    all_storable, lemma_order_roundtrip, lemma_parsed_storable, storable_files, storable_key, storable_name,
    storable_order,
};
use crate::records::{Failure, SummaryView};
use crate::store::{
    rename_category_changes, retitle_categories_changes,
    folder_taken, same_name, categories_done, create_category_changes, delete_category_changes, hidden, sync_categories_changes,
    categories_of, dir_names, existing_category, file_names, index_changes, last_named, lemma_index_changes_keep,
    listed_names, listed_summaries, notes_in, order_of, order_write, pick_named, read_content,
    reorder_categories_changes, reorder_files_changes, saved_files,
};
use crate::model::{
    find_entry, unlocated, find_folder, folder_entries, is_category, with_entries, written_entries, renamed_entries,
    EntryView, FolderView, ContentView, byte_len,
};
use crate::names::{file_extension, file_name_check, file_stem, has_extension, last_dot, lemma_last_dot, listed_file_name, name_check, text_extension};
use crate::notes::{decoded_note, encoded_note, lemma_normalized_twice, lemma_note_roundtrip, normalized};
use crate::records::DocView;
use crate::store::{
    chain, dotted, note_body, note_entry, read_note_result, retitle_files_changes, save_note_changes, save_plan,
    shown_text, stored_text, summary_of, sync_files_changes,
    entry_taken, import_changes, import_name, imported_entry,
};
use crate::text::{ascii_lower, has_infix, has_prefix, has_suffix, is_space, lacks, trim};

verus! {

/// The names of `names` are all storable when each is one of `pool`, whose
/// names are.
proof fn lemma_storable_within(names: Seq<Seq<char>>, pool: Seq<Seq<char>>)
    requires
        all_storable(pool),
        forall|x: Seq<char>| #[trigger] names.contains(x) ==> pool.contains(x),
    ensures
        all_storable(names),
{
    assert forall|i: int| 0 <= i < names.len() implies storable_name(#[trigger] names[i]) by {
        assert(names.contains(names[i]));
        let q = choose|q: int| 0 <= q < pool.len() && pool[q] == names[i];
        assert(storable_name(pool[q]));
    }
}

/// Writing the order file, and then the index, leaves the notes as they
/// were and the order file holding `o`.
proof fn lemma_order_write_then_index(d: DataView, o: OrderView)
    ensures
        ({
            let c1 = seq![order_write(o)];
            let d2 = apply_all(d, c1 + index_changes(apply_all(d, c1)).1);
            &&& d2.notes == d.notes
            &&& d2.notes_error == d.notes_error
            &&& read_content(d2.order) == Ok::<Seq<char>, Failure>(crate::notes::normalized(order_text(o)))
        }),
{
    let c1 = seq![order_write(o)];
    let d1 = apply_all(d, c1);
    assert(c1.drop_last() =~= Seq::<ChangeView>::empty());
    assert(apply_all(d, c1) == apply(apply_all(d, c1.drop_last()), c1.last()));
    assert(d1 == apply(d, order_write(o)));
    lemma_apply_all_concat(d, c1, index_changes(d1).1);
    lemma_index_changes_keep(d1);
}

/// After the categories are dragged into the order `names`, they are
/// listed in it: the named categories that exist, each once, in that
/// order, then the others, sorted.
pub proof fn lemma_reorder_categories_listed(d: DataView, names: Seq<Seq<char>>)
    requires
        d.notes_error is None,
        order_of(d) is Ok,
        all_storable(dir_names(d.notes)),
    ensures
        categories_of(apply_all(d, reorder_categories_changes(d, names).1)) == Ok::<Seq<Seq<char>>, Failure>(
            arranged(names, dir_names(d.notes)),
        ),
{
    let o = order_of(d)->Ok_0;
    let dirs = dir_names(d.notes);
    let a = arranged(names, dirs);
    let ow = OrderView { categories: a, files: o.files };
    lemma_order_write_then_index(d, ow);
    lemma_arranged_exists(names, dirs);
    lemma_arranged_names(a, names, dirs);
    lemma_parsed_storable(read_content(d.order)->Ok_0);
    lemma_storable_within(a, dirs);
    assert(storable_order(ow));
    lemma_order_roundtrip(ow);
    lemma_arranged_exists(a, dirs);
    lemma_arrange_idempotent(a, names, dirs, arranged(a, dirs));
}

/// Setting the file order of `key` makes it the file order found for `key`.
proof fn lemma_set_files_lookup(files: Seq<(Seq<char>, Seq<Seq<char>>)>, key: Seq<char>, v: Seq<Seq<char>>)
    ensures
        lookup(set_files(files, key, v), key) == Some(v),
        storable_files(files) && storable_key(key) && all_storable(v) ==> storable_files(set_files(files, key, v)),
{
    let i = find_key(files, key);
    lemma_find_key_bound(files, key);
    let f2 = set_files(files, key, v);
    if i < 0 {
        assert(f2.drop_last() =~= files);
    } else {
        lemma_find_key_last(files, key);
        lemma_find_key_bound(f2, key);
        let j = find_key(f2, key);
        assert(f2[i].0 == key);
        if j != i {
            if j > i {
                assert(f2[j] == files[j]);
            } else {
                assert(find_key(f2, key) >= i) by {
                    lemma_find_key_at_least(f2, key, i);
                }
            }
        }
    }
    if storable_files(files) && storable_key(key) && all_storable(v) {
        assert forall|j: int| 0 <= j < f2.len() implies storable_key(#[trigger] f2[j].0) && all_storable(f2[j].1) by {
            if j < files.len() && (i < 0 || j != i) {
                assert(f2[j] == files[j]);
            }
        }
    }
}

/// The file order found for `key` is its last one.
proof fn lemma_find_key_last(files: Seq<(Seq<char>, Seq<Seq<char>>)>, key: Seq<char>)
    ensures
        forall|j: int| find_key(files, key) < j < files.len() ==> #[trigger] files[j].0 != key,
    decreases files.len(),
{
    lemma_find_key_bound(files, key);
    if files.len() > 0 && files.last().0 != key {
        lemma_find_key_last(files.drop_last(), key);
        assert forall|j: int| find_key(files, key) < j < files.len() implies #[trigger] files[j].0 != key by {
            if j < files.len() - 1 {
                assert(files.drop_last()[j] == files[j]);
            }
        }
    }
}

/// A file order of `key` at `i` is found at `i` or after it.
proof fn lemma_find_key_at_least(files: Seq<(Seq<char>, Seq<Seq<char>>)>, key: Seq<char>, i: int)
    requires
        0 <= i < files.len(),
        files[i].0 == key,
    ensures
        find_key(files, key) >= i,
    decreases files.len(),
{
    if files.last().0 != key {
        assert(i < files.len() - 1);
        assert(files.drop_last()[i] == files[i]);
        lemma_find_key_at_least(files.drop_last(), key, i);
    }
}

/// A category name that the checks accept can head a file section.
proof fn lemma_category_storable(d: DataView, category: Seq<char>)
    requires
        existing_category(d, category) is Ok,
    ensures
        storable_key(existing_category(d, category)->Ok_0),
{
    let c = existing_category(d, category)->Ok_0;
    let name = crate::text::trim(category);
    assert(c == name);
    crate::todos::lemma_trim_props(category);
    crate::todos::lemma_trimmed_ends(c);
    assert forall|i: int| 0 <= i < c.len() implies c[i] != '\n' && c[i] != '\r' by {
        if c[i] == '\n' || c[i] == '\r' {
            assert(crate::names::name_forbidden(c[i]));
        }
    }
}

/// The summaries picked for names that all name summaries have those names.
pub proof fn lemma_picked_names(ss: Seq<SummaryView>, ns: Seq<Seq<char>>)
    requires
        forall|x: Seq<char>| #[trigger] ns.contains(x) ==> file_names(ss).contains(x),
    ensures
        file_names(pick_named(ss, ns)) == ns,
{
    assert forall|i: int| 0 <= i < ns.len() implies #[trigger] pick_named(ss, ns)[i].file_name == ns[i] by {
        assert(ns.contains(ns[i]));
        lemma_last_named(ss, ns[i]);
    }
    assert(file_names(pick_named(ss, ns)) =~= ns);
}

proof fn lemma_last_named(ss: Seq<SummaryView>, name: Seq<char>)
    requires
        file_names(ss).contains(name),
    ensures
        last_named(ss, name).file_name == name,
    decreases ss.len(),
{
    if ss.last().file_name != name {
        let q = choose|q: int| 0 <= q < file_names(ss).len() && file_names(ss)[q] == name;
        assert(q < ss.len() - 1);
        assert(file_names(ss.drop_last())[q] == name);
        lemma_last_named(ss.drop_last(), name);
    }
}

/// After the files of a category are dragged into the order `names`, they
/// are listed in it: the named files that the category shows, each once,
/// in that order, then the others, sorted.
pub proof fn lemma_reorder_files_listed(d: DataView, category: Seq<char>, names: Seq<Seq<char>>)
    requires
        existing_category(d, category) is Ok,
        order_of(d) is Ok,
        order_of(d)->Ok_0.categories.no_duplicates(),
        all_storable(listed_names(d, existing_category(d, category)->Ok_0)),
    ensures
        ({
            let c = existing_category(d, category)->Ok_0;
            let d2 = apply_all(d, reorder_files_changes(d, category, names).1);
            let shown = notes_in(d2, c, saved_files(order_of(d2)->Ok_0, c));
            &&& order_of(d2) is Ok
            &&& shown == pick_named(listed_summaries(c, folder_entries(d, c)), arranged(names, listed_names(d, c)))
            &&& file_names(shown) == arranged(names, listed_names(d, c))
        }),
{
    let c = existing_category(d, category)->Ok_0;
    let o = order_of(d)->Ok_0;
    let l = listed_names(d, c);
    let a = arranged(names, l);
    let ow = OrderView { categories: o.categories, files: set_files(o.files, c, a) };
    lemma_order_write_then_index(d, ow);
    lemma_arranged_exists(names, l);
    lemma_arranged_names(a, names, l);
    lemma_parsed_storable(read_content(d.order)->Ok_0);
    lemma_storable_within(a, l);
    lemma_category_storable(d, category);
    lemma_set_files_lookup(o.files, c, a);
    assert(storable_order(ow));
    lemma_order_roundtrip(ow);
    let d2 = apply_all(d, reorder_files_changes(d, category, names).1);
    let o2 = order_of(d2)->Ok_0;
    assert(lookup(o2.files, c) == lookup(ow.files, c));
    assert(saved_files(o2, c) == a);
    assert(folder_entries(d2, c) == folder_entries(d, c));
    lemma_arranged_exists(a, l);
    lemma_arrange_idempotent(a, names, l, arranged(a, l));
    lemma_picked_names(listed_summaries(c, folder_entries(d, c)), a);
}

/// Whether each change of `cs` writes the order file or the index.
pub open spec fn only_meta(cs: Seq<ChangeView>) -> bool {
    forall|i: int| 0 <= i < cs.len() ==> (#[trigger] cs[i] is WriteOrder || cs[i] is WriteIndex)
}

/// Writing the order file and the index leaves the notes as they are.
proof fn lemma_meta_keeps_notes(d: DataView, cs: Seq<ChangeView>)
    requires
        only_meta(cs),
    ensures
        apply_all(d, cs).notes == d.notes,
    decreases cs.len(),
{
    if cs.len() > 0 {
        let init = cs.drop_last();
        assert(only_meta(init)) by {
            assert forall|i: int| 0 <= i < init.len() implies (#[trigger] init[i] is WriteOrder || init[i] is WriteIndex) by {
                assert(init[i] == cs[i]);
            }
        }
        lemma_meta_keeps_notes(d, init);
        assert(cs[cs.len() - 1] is WriteOrder || cs[cs.len() - 1] is WriteIndex);
    }
}

proof fn lemma_meta_concat(a: Seq<ChangeView>, b: Seq<ChangeView>)
    requires
        only_meta(a),
        only_meta(b),
    ensures
        only_meta(a + b),
{
    assert forall|i: int| 0 <= i < (a + b).len() implies (#[trigger] (a + b)[i] is WriteOrder || (a + b)[i] is WriteIndex) by {
        if i < a.len() {
            assert((a + b)[i] == a[i]);
        } else {
            assert((a + b)[i] == b[i - a.len()]);
        }
    }
}

/// Folders with the same names, in the same places, are found alike.
proof fn lemma_same_folder_names(a: Seq<FolderView>, b: Seq<FolderView>, x: Seq<char>)
    requires
        a.len() == b.len(),
        forall|i: int| 0 <= i < a.len() ==> #[trigger] a[i].name == b[i].name,
    ensures
        find_folder(a, x) == find_folder(b, x),
    decreases a.len(),
{
    if a.len() > 0 {
        assert(a.last().name == b.last().name);
        lemma_same_folder_names(a.drop_last(), b.drop_last(), x);
    }
}

/// Replacing the entries of the folder of `c` keeps every folder where it
/// was, and gives the folder of `c` those entries.
proof fn lemma_with_entries(d: DataView, c: Seq<char>, es: Seq<EntryView>, x: Seq<char>)
    requires
        is_category(d, c),
    ensures
        find_folder(with_entries(d, c, es).notes, x) == find_folder(d.notes, x),
        is_category(with_entries(d, c, es), c),
        folder_entries(with_entries(d, c, es), c) == es,
{
    crate::model::lemma_find_folder_bound(d.notes, c);
    let d2 = with_entries(d, c, es);
    lemma_same_folder_names(d2.notes, d.notes, x);
    lemma_same_folder_names(d2.notes, d.notes, c);
}

/// The last entry named `name` is found.
proof fn lemma_find_entry_is(es: Seq<EntryView>, name: Seq<char>, j: int)
    requires
        0 <= j < es.len(),
        es[j].name == name,
        forall|k: int| j < k < es.len() ==> #[trigger] es[k].name != name,
    ensures
        find_entry(es, name) == j,
    decreases es.len(),
{
    if j < es.len() - 1 {
        assert(es[es.len() - 1].name != name);
        assert forall|k: int| j < k < es.drop_last().len() implies #[trigger] es.drop_last()[k].name != name by {
            assert(es.drop_last()[k] == es[k]);
        }
        assert(es.drop_last()[j] == es[j]);
        lemma_find_entry_is(es.drop_last(), name, j);
    }
}

/// No entry after the one found has its name.
proof fn lemma_find_entry_last(es: Seq<EntryView>, name: Seq<char>)
    ensures
        -1 <= find_entry(es, name) < es.len(),
        find_entry(es, name) >= 0 ==> es[find_entry(es, name)].name == name,
        forall|k: int| find_entry(es, name) < k < es.len() ==> #[trigger] es[k].name != name,
    decreases es.len(),
{
    if es.len() > 0 && es.last().name != name {
        lemma_find_entry_last(es.drop_last(), name);
        assert forall|k: int| find_entry(es, name) < k < es.len() implies #[trigger] es[k].name != name by {
            if k < es.len() - 1 {
                assert(es.drop_last()[k] == es[k]);
            }
        }
    }
}

/// The file just written is found with what was written.
proof fn lemma_written_found(es: Seq<EntryView>, name: Seq<char>, text: Seq<char>)
    ensures
        ({
            let w = written_entries(es, name, text);
            let j = find_entry(w, name);
            &&& 0 <= j < w.len()
            &&& w[j].name == name
            &&& w[j].is_file
            &&& w[j].size == byte_len(text)
            &&& w[j].content == ContentView::Text(text)
        }),
{
    let w = written_entries(es, name, text);
    lemma_find_entry_last(es, name);
    let j0 = find_entry(es, name);
    if j0 < 0 {
        lemma_find_entry_is(w, name, w.len() - 1);
    } else {
        assert forall|k: int| j0 < k < w.len() implies #[trigger] w[k].name != name by {
            assert(w[k] == es[k]);
        }
        lemma_find_entry_is(w, name, j0);
    }
}

/// What the checks accept as a name: trimmed, not empty, without the
/// characters that names may not hold.
proof fn lemma_checked_name(t: Seq<char>)
    requires
        name_check(t) == Ok::<Seq<char>, Seq<char>>(t),
    ensures
        t.len() > 0,
        !is_space(t[0]),
        !is_space(t.last()),
        forall|i: int| 0 <= i < t.len() ==> !crate::names::name_forbidden(#[trigger] t[i]),
        lacks(t, '\r'),
        lacks(t, '\n'),
{
    crate::todos::lemma_trim_props(t);
    assert(trim(t) == t);
    crate::todos::lemma_trimmed_ends(t);
    assert forall|i: int| 0 <= i < t.len() implies !crate::names::name_forbidden(#[trigger] t[i]) by {}
    assert forall|i: int| 0 <= i < t.len() implies t[i] != '\r' && t[i] != '\n' by {
        assert(!crate::names::name_forbidden(t[i]));
    }
}

/// Where the file name `t.ext` splits into its stem and extension.
proof fn lemma_dotted_split(t: Seq<char>, ext: Seq<char>)
    requires
        t.len() > 0,
        ext == seq!['m', 'd'] || ext == seq!['t', 'x', 't'],
    ensures
        last_dot(dotted(t, ext)) == t.len(),
        has_extension(dotted(t, ext)),
        file_stem(dotted(t, ext)) == t,
        file_extension(dotted(t, ext)) == ext,
{
    reveal_strlit(".");
    let n = dotted(t, ext);
    assert(n == t + seq!['.'] + ext);
    lemma_last_dot(n);
    assert(n[t.len() as int] == '.');
    assert(last_dot(n) >= t.len()) by {
        if last_dot(n) < t.len() {
            assert(n[t.len() as int] != '.');
        }
    }
    assert(last_dot(n) <= t.len()) by {
        if last_dot(n) > t.len() {
            assert(n[last_dot(n)] == ext[last_dot(n) - t.len() - 1]);
        }
    }
    assert(!(n =~= seq!['.', '.'])) by {
        assert(n.len() >= 4);
    }
    assert(n.subrange(0, t.len() as int) =~= t);
    assert(n.subrange(t.len() + 1int, n.len() as int) =~= ext);
}

/// The file `t.ext` is one that the library shows.
proof fn lemma_dotted_listed(t: Seq<char>, ext: Seq<char>)
    requires
        t.len() > 0,
        t[0] != '.',
        !has_prefix(t, seq!['~', '$']),
        ext == seq!['m', 'd'] || ext == seq!['t', 'x', 't'],
    ensures
        listed_file_name(dotted(t, ext)),
{
    reveal_strlit(".");
    let n = dotted(t, ext);
    assert(n == t + seq!['.'] + ext);
    assert(n[0] == t[0]);
    assert(!has_prefix(n, seq!['~', '$'])) by {
        if t.len() >= 2 {
            assert(n.subrange(0, 2) =~= t.subrange(0, 2));
        } else {
            assert(n[1] == '.');
            assert(n.subrange(0, 2)[1] == '.');
        }
    }
    let lower = ascii_lower(n);
    assert(lower.last() == ext.last());
    assert(!has_suffix(lower, seq!['.', 't', 'm', 'p'])) by {
        if has_suffix(lower, seq!['.', 't', 'm', 'p']) {
            assert(lower.subrange(lower.len() - 4, lower.len() as int).last() == lower.last());
        }
    }
    assert(!has_suffix(lower, seq!['.', 't', 'e', 'm', 'p'])) by {
        if has_suffix(lower, seq!['.', 't', 'e', 'm', 'p']) {
            assert(lower.subrange(lower.len() - 5, lower.len() as int).last() == lower.last());
        }
    }
    assert(!has_suffix(lower, seq!['.', 's', 'w', 'p'])) by {
        if has_suffix(lower, seq!['.', 's', 'w', 'p']) {
            assert(lower.subrange(lower.len() - 4, lower.len() as int).last() == lower.last());
        }
    }
    assert(!has_suffix(lower, seq!['~'])) by {
        if has_suffix(lower, seq!['~']) {
            assert(lower.subrange(lower.len() - 1, lower.len() as int).last() == lower.last());
        }
    }
}

/// The file name of a note, its title with a text extension, passes the
/// checks as it is.
proof fn lemma_note_file_name(t: Seq<char>, ext: Seq<char>)
    requires
        t.len() > 0,
        !is_space(t[0]),
        forall|i: int| 0 <= i < t.len() ==> !crate::names::name_forbidden(#[trigger] t[i]),
        t[0] != '.',
        !has_prefix(t, seq!['~', '$']),
        ext == seq!['m', 'd'] || ext == seq!['t', 'x', 't'],
    ensures
        file_name_check(dotted(t, ext)) == Ok::<Seq<char>, Seq<char>>(dotted(t, ext)),
{
    reveal_strlit(".");
    let n = dotted(t, ext);
    assert(n == t + seq!['.'] + ext);
    assert(n[0] == t[0]);
    assert(n.last() == ext.last());
    crate::todos::lemma_trim_fixed(n);
    assert forall|i: int| 0 <= i < n.len() implies !crate::names::file_name_forbidden(#[trigger] n[i]) by {
        if i < t.len() {
            assert(n[i] == t[i]);
            assert(!crate::names::name_forbidden(t[i]));
        } else if i > t.len() {
            assert(n[i] == ext[i - t.len() - 1]);
        }
    }
    lemma_dotted_listed(t, ext);
    assert(!crate::names::blank_name(n)) by {
        assert(n.len() >= 4);
    }
}

/// Reading a note file written with `text` under the title `t` gives that
/// note.
proof fn lemma_read_written(df: DataView, c: Seq<char>, t: Seq<char>, ext: Seq<char>, body: Seq<char>)
    requires
        name_check(c) == Ok::<Seq<char>, Seq<char>>(c),
        name_check(t) == Ok::<Seq<char>, Seq<char>>(t),
        t[0] != '.',
        !has_prefix(t, seq!['~', '$']),
        ext == seq!['m', 'd'] || ext == seq!['t', 'x', 't'],
        note_entry(df, c, dotted(t, ext)) matches Some(e) && e.name == dotted(t, ext) && e.is_file
            && e.size == byte_len(stored_text(t, ext, body))
            && e.content == ContentView::Text(stored_text(t, ext, body)),
    ensures
        read_note_result(df, c, dotted(t, ext)) == Ok::<DocView, Failure>(DocView {
            category: c,
            title: t,
            file_name: dotted(t, ext),
            extension: ext,
            kind: "text"@,
            body: shown_text(t, ext, stored_text(t, ext, body)),
            size_label: crate::sizes::size_text(byte_len(stored_text(t, ext, body))),
        }),
{
    reveal_strlit("md");
    reveal_strlit("text");
    let name = dotted(t, ext);
    let text = stored_text(t, ext, body);
    lemma_checked_name(t);
    lemma_note_file_name(t, ext);
    lemma_dotted_split(t, ext);
    lemma_dotted_listed(t, ext);
    let e = note_entry(df, c, name)->Some_0;
    assert(ascii_lower(ext) =~= ext);
    assert(text_extension(ext));
    let sv = summary_of(c, e)->Some_0;
    assert(summary_of(c, e) is Some);
    assert(sv.title == t && sv.extension == ext && sv.kind == "text"@);
    if ext == seq!['m', 'd'] {
        lemma_note_roundtrip(t, body);
        assert(ext == "md"@);
    } else {
        lemma_normalized_twice(body);
        let nb = normalized(body);
        if !has_suffix(nb, seq!['\n']) && nb.len() > 0 {
            let t2 = nb + seq!['\n'];
            assert(lacks(t2, '\r')) by {
                assert forall|i: int| 0 <= i < t2.len() implies t2[i] != '\r' by {
                    if i < nb.len() {
                        assert(t2[i] == nb[i]);
                    }
                }
            }
            assert(t2[0] == nb[0]);
            crate::notes::lemma_normalized_plain(t2);
        } else if nb.len() == 0 {
            assert(normalized(seq![]) =~= Seq::<char>::empty()) by {
                assert(crate::text::strip_all_start(seq![], crate::notes::bom()) =~= Seq::<char>::empty());
            }
        }
        assert(normalized(text) == text);
    }
}

/// Saving a note writes its file, with its stored text, and nothing after
/// that touches the notes.
#[verifier::rlimit(40)]
proof fn lemma_saved_entry(
    d: DataView,
    category: Seq<char>,
    title: Seq<char>,
    body: Seq<char>,
    previous: Option<Seq<char>>,
)
    requires
        save_note_changes(d, category, title, body, previous).0 is Ok,
    ensures
        ({
            let r = save_note_changes(d, category, title, body, previous);
            let doc = r.0->Ok_0;
            let text = stored_text(doc.title, doc.extension, body);
            &&& doc.category == name_check(category)->Ok_0
            &&& doc.title == name_check(title)->Ok_0
            &&& doc.extension == seq!['m', 'd'] || doc.extension == seq!['t', 'x', 't']
            &&& doc.file_name == dotted(doc.title, doc.extension)
            &&& doc.kind == "text"@
            &&& doc.body == shown_text(doc.title, doc.extension, text)
            &&& doc.size_label == crate::sizes::size_text(byte_len(text))
            &&& note_entry(apply_all(d, r.1), doc.category, doc.file_name) matches Some(e) && e.name == doc.file_name
                && e.is_file && e.size == byte_len(text) && e.content == ContentView::Text(text)
        }),
{
    reveal_strlit("md");
    let r = save_note_changes(d, category, title, body, previous);
    let c = name_check(category)->Ok_0;
    let t = name_check(title)->Ok_0;
    let plan = save_plan(d, c, t, previous)->Ok_0;
    let ext = plan.0;
    let name = dotted(t, ext);
    let text = stored_text(t, ext, body);
    let wn = ChangeView::WriteNote { category: c, name, text };
    let c1 = plan.2 + seq![wn];
    let dp = apply_all(d, plan.2);
    let d1 = apply_all(d, c1);
    assert(ext == seq!['m', 'd'] || ext == seq!['t', 'x', 't']) by {
        reveal_strlit("text");
        reveal_strlit("file");
        if previous is Some && crate::store::chosen_category(previous) is Some {
            let p2 = file_name_check(crate::store::chosen_category(previous)->Some_0)->Ok_0;
            let e = note_entry(d, c, p2)->Some_0;
            let sv = summary_of(c, e)->Some_0;
            assert(sv.kind == "text"@);
            assert("file"@ != "text"@) by {
                assert("file"@[0] != "text"@[0]);
            }
            assert(text_extension(sv.extension));
        }
    }
    assert(is_category(d, c));
    assert(is_category(dp, c)) by {
        if plan.2.len() > 0 {
            let rn = plan.2[0];
            assert(plan.2 =~= seq![rn]);
            assert(seq![rn].drop_last() =~= Seq::<ChangeView>::empty());
            assert(apply_all(d, seq![rn]) == apply(apply_all(d, seq![rn].drop_last()), rn));
            if let ChangeView::RenameNote { category: rc, from, to } = rn {
                assert(rc == c);
                lemma_with_entries(d, c, renamed_entries(folder_entries(d, c), from, to), c);
            }
        } else {
            assert(plan.2 =~= Seq::<ChangeView>::empty());
        }
    }
    lemma_apply_all_concat(d, plan.2, seq![wn]);
    assert(seq![wn].drop_last() =~= Seq::<ChangeView>::empty());
    assert(apply_all(dp, seq![wn]) == apply(apply_all(dp, seq![wn].drop_last()), wn));
    assert(d1 == with_entries(dp, c, written_entries(folder_entries(dp, c), name, text)));
    lemma_with_entries(dp, c, written_entries(folder_entries(dp, c), name, text), c);
    lemma_written_found(folder_entries(dp, c), name, text);
    let a = match plan.1 {
        Some(p) => if p != name {
            retitle_files_changes(d1, c, p, name)
        } else {
            (Ok(()), seq![])
        },
        None => (Ok(()), seq![]),
    };
    let d2 = apply_all(d1, a.1);
    let b = sync_files_changes(d2, c);
    let d3 = apply_all(d2, b.1);
    let x = index_changes(d3);
    assert(r.1 == c1 + (a.1 + (b.1 + x.1)));
    assert(only_meta(a.1)) by {
        assert forall|i: int| 0 <= i < a.1.len() implies (#[trigger] a.1[i] is WriteOrder || a.1[i] is WriteIndex) by {}
    }
    assert(only_meta(b.1)) by {
        assert forall|i: int| 0 <= i < b.1.len() implies (#[trigger] b.1[i] is WriteOrder || b.1[i] is WriteIndex) by {}
    }
    assert(only_meta(x.1)) by {
        assert forall|i: int| 0 <= i < x.1.len() implies (#[trigger] x.1[i] is WriteOrder || x.1[i] is WriteIndex) by {}
    }
    lemma_meta_concat(b.1, x.1);
    lemma_meta_concat(a.1, b.1 + x.1);
    lemma_apply_all_concat(d, c1, a.1 + (b.1 + x.1));
    lemma_meta_keeps_notes(d1, a.1 + (b.1 + x.1));
}

/// A saved note reads back as the note that saving it returned: its body,
/// title, file name and size.
pub proof fn lemma_note_reads_back(
    d: DataView,
    category: Seq<char>,
    title: Seq<char>,
    body: Seq<char>,
    previous: Option<Seq<char>>,
)
    requires
        save_note_changes(d, category, title, body, previous).0 is Ok,
        save_note_changes(d, category, title, body, previous).0->Ok_0.title[0] != '.',
        !has_prefix(save_note_changes(d, category, title, body, previous).0->Ok_0.title, seq!['~', '$']),
    ensures
        ({
            let r = save_note_changes(d, category, title, body, previous);
            let doc = r.0->Ok_0;
            read_note_result(apply_all(d, r.1), doc.category, doc.file_name) == Ok::<DocView, Failure>(doc)
        }),
{
    let r = save_note_changes(d, category, title, body, previous);
    let doc = r.0->Ok_0;
    lemma_saved_entry(d, category, title, body, previous);
    crate::todos::lemma_trim_props(category);
    crate::todos::lemma_trim_props(title);
    let c = doc.category;
    let t = doc.title;
    assert(name_check(c) == Ok::<Seq<char>, Seq<char>>(c));
    assert(name_check(t) == Ok::<Seq<char>, Seq<char>>(t));
    lemma_read_written(apply_all(d, r.1), c, t, doc.extension, body);
}

/// Whether no two folders of `notes/` have the same name, as on a real
/// file system.
pub open spec fn distinct_folders(d: DataView) -> bool {
    forall|i: int, j: int| 0 <= i < j < d.notes.len() ==> #[trigger] d.notes[i].name != #[trigger] d.notes[j].name
}

/// The category names are those of the folders that are not hidden.
proof fn lemma_dir_names_contains(ns: Seq<FolderView>, x: Seq<char>)
    ensures
        dir_names(ns).contains(x) <==> exists|k: int| 0 <= k < ns.len() && #[trigger] ns[k].name == x && ns[k].is_dir && !hidden(x),
    decreases ns.len(),
{
    if ns.len() > 0 {
        let init = ns.drop_last();
        lemma_dir_names_contains(init, x);
        let f = ns.last();
        let r = dir_names(init);
        if dir_names(ns).contains(x) {
            if r.contains(x) {
                let k = choose|k: int| 0 <= k < init.len() && #[trigger] init[k].name == x && init[k].is_dir && !hidden(x);
                assert(ns[k] == init[k]);
            } else {
                assert(f.is_dir && !hidden(f.name));
                let q = choose|q: int| 0 <= q < r.push(f.name).len() && r.push(f.name)[q] == x;
                assert(q == r.len());
                assert(ns[ns.len() - 1].name == x);
            }
        }
        if exists|k: int| 0 <= k < ns.len() && #[trigger] ns[k].name == x && ns[k].is_dir && !hidden(x) {
            let k = choose|k: int| 0 <= k < ns.len() && #[trigger] ns[k].name == x && ns[k].is_dir && !hidden(x);
            if k < ns.len() - 1 {
                assert(init[k] == ns[k]);
                assert(r.contains(x));
                if f.is_dir && !hidden(f.name) {
                    let q = choose|q: int| 0 <= q < r.len() && r[q] == x;
                    assert(r.push(f.name)[q] == x);
                }
            } else {
                assert(r.push(f.name)[r.len() as int] == x);
            }
        }
    }
}

/// After the category folders changed from those of `d` to those of `d1`,
/// bringing the category order up to date and writing the index lists
/// exactly the category folders of `d1`.
proof fn lemma_categories_done_lists(d1: DataView)
    requires
        categories_done(d1).0 is Ok,
    ensures
        categories_of(apply_all(d1, categories_done(d1).1)) matches Ok(cs)
            && forall|x: Seq<char>| #[trigger] cs.contains(x) <==> dir_names(d1.notes).contains(x),
{
    let o = order_of(d1)->Ok_0;
    let dirs = dir_names(d1.notes);
    let a = arranged(o.categories, dirs);
    let ow = OrderView { categories: a, files: crate::order::kept_files(o.files, a) };
    assert(sync_categories_changes(d1).1 == seq![order_write(ow)]);
    lemma_order_write_then_index(d1, ow);
    let df = apply_all(d1, categories_done(d1).1);
    let p = crate::order::parsed_order(normalized(order_text(ow)));
    lemma_arranged_exists(p.categories, dirs);
    lemma_arranged_names(arranged(p.categories, dirs), p.categories, dirs);
}

/// A created category is listed, beside every category listed before.
pub proof fn lemma_created_category_listed(d: DataView, name: Seq<char>)
    requires
        create_category_changes(d, name).0 is Ok,
        !hidden(name_check(name)->Ok_0),
    ensures
        categories_of(apply_all(d, create_category_changes(d, name).1)) matches Ok(cs)
            && forall|x: Seq<char>| #[trigger] cs.contains(x) <==> (dir_names(d.notes).contains(x) || x == name_check(name)->Ok_0),
{
    let n = name_check(name)->Ok_0;
    let c1 = seq![ChangeView::CreateCategory { name: n }];
    let d1 = apply_all(d, c1);
    assert(c1.drop_last() =~= Seq::<ChangeView>::empty());
    assert(d1 == apply(apply_all(d, c1.drop_last()), c1.last()));
    lemma_apply_all_concat(d, c1, categories_done(d1).1);
    lemma_categories_done_lists(d1);
    assert(d1.notes.drop_last() =~= d.notes);
    assert(dir_names(d1.notes) == dir_names(d.notes).push(n));
    assert forall|x: Seq<char>| dir_names(d1.notes).contains(x) <==> (dir_names(d.notes).contains(x) || x == n) by {
        let r = dir_names(d.notes);
        if r.push(n).contains(x) && x != n {
            let q = choose|q: int| 0 <= q < r.push(n).len() && r.push(n)[q] == x;
            assert(r[q] == x);
        }
        if r.contains(x) {
            let q = choose|q: int| 0 <= q < r.len() && r[q] == x;
            assert(r.push(n)[q] == x);
        }
        if x == n {
            assert(r.push(n)[r.len() as int] == x);
        }
    }
}

/// A deleted category is no longer listed, and every other category still is.
pub proof fn lemma_deleted_category_gone(d: DataView, name: Seq<char>)
    requires
        delete_category_changes(d, name).0 is Ok,
        distinct_folders(d),
    ensures
        categories_of(apply_all(d, delete_category_changes(d, name).1)) matches Ok(cs)
            && forall|x: Seq<char>| #[trigger] cs.contains(x) <==> (dir_names(d.notes).contains(x) && x != name_check(name)->Ok_0),
{
    let n = name_check(name)->Ok_0;
    let c1 = seq![ChangeView::RemoveCategory { name: n }];
    let d1 = apply_all(d, c1);
    assert(c1.drop_last() =~= Seq::<ChangeView>::empty());
    assert(d1 == apply(apply_all(d, c1.drop_last()), c1.last()));
    lemma_apply_all_concat(d, c1, categories_done(d1).1);
    lemma_categories_done_lists(d1);
    crate::model::lemma_find_folder_bound(d.notes, n);
    let i = find_folder(d.notes, n);
    assert(d1.notes == d.notes.remove(i));
    assert forall|x: Seq<char>| dir_names(d1.notes).contains(x) <==> (dir_names(d.notes).contains(x) && x != n) by {
        lemma_dir_names_contains(d.notes, x);
        lemma_dir_names_contains(d1.notes, x);
        let ns = d.notes;
        let ms = d1.notes;
        if exists|k: int| 0 <= k < ms.len() && #[trigger] ms[k].name == x && ms[k].is_dir && !hidden(x) {
            let k = choose|k: int| 0 <= k < ms.len() && #[trigger] ms[k].name == x && ms[k].is_dir && !hidden(x);
            let k2 = if k < i { k } else { k + 1 };
            assert(ms[k] == ns[k2]);
            assert(k2 != i);
            if x == n {
                if k2 < i {
                    assert(ns[k2].name != ns[i].name);
                } else {
                    assert(ns[i].name != ns[k2].name);
                }
            }
        }
        if dir_names(ns).contains(x) && x != n {
            let k = choose|k: int| 0 <= k < ns.len() && #[trigger] ns[k].name == x && ns[k].is_dir && !hidden(x);
            assert(k != i);
            let k2 = if k < i { k } else { k - 1 };
            assert(ms[k2] == ns[k]);
        }
    }
}

/// Renaming a category keeps its files: the folder of the new name holds
/// what the folder of the old name held, and the old name is gone.
pub proof fn lemma_renamed_category_keeps_files(d: DataView, from: Seq<char>, to: Seq<char>)
    requires
        rename_category_changes(d, from, to).0 is Ok,
        name_check(from)->Ok_0 != name_check(to)->Ok_0,
    ensures
        ({
            let f = name_check(from)->Ok_0;
            let t = name_check(to)->Ok_0;
            let d2 = apply_all(d, rename_category_changes(d, from, to).1);
            &&& is_category(d2, t)
            &&& folder_entries(d2, t) == unlocated(folder_entries(d, f))
            &&& distinct_folders(d) ==> find_folder(d2.notes, f) < 0
        }),
{
    let f = name_check(from)->Ok_0;
    let t = name_check(to)->Ok_0;
    let c1 = seq![ChangeView::RenameCategory { from: f, to: t }];
    let d1 = apply_all(d, c1);
    assert(c1.drop_last() =~= Seq::<ChangeView>::empty());
    assert(d1 == apply(apply_all(d, c1.drop_last()), c1.last()));
    crate::model::lemma_find_folder_bound(d.notes, f);
    crate::model::lemma_find_folder_bound(d.notes, t);
    lemma_untaken_folder(d, t);
    let i = find_folder(d.notes, f);
    assert(d1.notes == d.notes.update(i, FolderView { name: t, location: None, entries: unlocated(d.notes[i].entries), ..d.notes[i] }));
    assert forall|k: int| 0 <= k < d1.notes.len() && k != i implies #[trigger] d1.notes[k].name != t by {
        assert(d1.notes[k] == d.notes[k]);
    }
    lemma_find_folder_is(d1.notes, t, i);
    let a = retitle_categories_changes(d1, f, t);
    let d2a = apply_all(d1, a.1);
    let cd = categories_done(d2a);
    assert(rename_category_changes(d, from, to).1 == c1 + (a.1 + cd.1));
    assert(only_meta(a.1)) by {
        assert forall|i: int| 0 <= i < a.1.len() implies (#[trigger] a.1[i] is WriteOrder || a.1[i] is WriteIndex) by {}
    }
    assert(only_meta(cd.1)) by {
        let y = sync_categories_changes(d2a);
        let z = index_changes(apply_all(d2a, y.1));
        assert forall|i: int| 0 <= i < cd.1.len() implies (#[trigger] cd.1[i] is WriteOrder || cd.1[i] is WriteIndex) by {
            if y.0 is Ok {
                assert(cd.1 == y.1 + z.1);
                if i < y.1.len() {
                    assert(cd.1[i] == y.1[i]);
                } else {
                    assert(cd.1[i] == z.1[i - y.1.len()]);
                }
            }
        }
    }
    lemma_meta_concat(a.1, cd.1);
    lemma_apply_all_concat(d, c1, a.1 + cd.1);
    lemma_meta_keeps_notes(d1, a.1 + cd.1);
    if distinct_folders(d) {
        assert forall|k: int| 0 <= k < d1.notes.len() implies #[trigger] d1.notes[k].name != f by {
            if k != i {
                assert(d1.notes[k] == d.notes[k]);
                if k < i {
                    assert(d.notes[k].name != d.notes[i].name);
                } else {
                    assert(d.notes[i].name != d.notes[k].name);
                }
            }
        }
        lemma_find_folder_none(d1.notes, f);
    }
}

/// The last folder named `name` is found.
proof fn lemma_find_folder_is(notes: Seq<FolderView>, name: Seq<char>, j: int)
    requires
        0 <= j < notes.len(),
        notes[j].name == name,
        forall|k: int| 0 <= k < notes.len() && k != j ==> #[trigger] notes[k].name != name,
    ensures
        find_folder(notes, name) == j,
    decreases notes.len(),
{
    if notes.last().name != name {
        assert(j < notes.len() - 1);
        assert forall|k: int| 0 <= k < notes.drop_last().len() && k != j implies #[trigger] notes.drop_last()[k].name != name by {
            assert(notes.drop_last()[k] == notes[k]);
        }
        assert(notes.drop_last()[j] == notes[j]);
        lemma_find_folder_is(notes.drop_last(), name, j);
    } else if j != notes.len() - 1 {
        assert(notes[notes.len() - 1].name != name);
    }
}

/// When no entry of `notes/` has the name `name`, as the file system
/// compares names, none has exactly that name.
proof fn lemma_untaken_folder(d: DataView, name: Seq<char>)
    ensures
        !folder_taken(d, name) ==> forall|k: int| 0 <= k < d.notes.len() ==> #[trigger] d.notes[k].name != name,
{
    if !folder_taken(d, name) {
        assert forall|k: int| 0 <= k < d.notes.len() implies #[trigger] d.notes[k].name != name by {
            if d.notes[k].name == name {
                assert(same_name(d.ignore_case, d.notes[k].name, name));
            }
        }
    }
}

/// A folder that is not there is not found.
proof fn lemma_find_folder_none(notes: Seq<FolderView>, name: Seq<char>)
    requires
        forall|k: int| 0 <= k < notes.len() ==> #[trigger] notes[k].name != name,
    ensures
        find_folder(notes, name) < 0,
{
    crate::model::lemma_find_folder_bound(notes, name);
    if find_folder(notes, name) >= 0 {
        assert(notes[find_folder(notes, name)].name == name);
    }
}

/// Writing the order file alone changes nothing else.
proof fn lemma_order_write_one(d: DataView, o: OrderView)
    ensures
        apply_all(d, seq![order_write(o)]) == (DataView { order: ContentView::Text(order_text(o)), ..d }),
{
    let c1 = seq![order_write(o)];
    assert(c1.drop_last() =~= Seq::<ChangeView>::empty());
    assert(apply_all(d, c1) == apply(apply_all(d, c1.drop_last()), c1.last()));
}

/// Dropping the file order of a category keeps the others storable.
proof fn lemma_without_key_storable(files: Seq<(Seq<char>, Seq<Seq<char>>)>, key: Seq<char>)
    requires
        storable_files(files),
    ensures
        storable_files(without_key(files, key)),
{
    let i = find_key(files, key);
    lemma_find_key_bound(files, key);
    if i >= 0 {
        let f2 = files.remove(i);
        assert forall|j: int| 0 <= j < f2.len() implies storable_key(#[trigger] f2[j].0) && all_storable(f2[j].1) by {
            if j < i {
                assert(f2[j] == files[j]);
            } else {
                assert(f2[j] == files[j + 1]);
            }
        }
    }
}

/// Keeping some file orders keeps them storable.
proof fn lemma_kept_files_storable(files: Seq<(Seq<char>, Seq<Seq<char>>)>, cats: Seq<Seq<char>>)
    requires
        storable_files(files),
    ensures
        storable_files(kept_files(files, cats)),
    decreases files.len(),
{
    if files.len() > 0 {
        let init = files.drop_last();
        assert(storable_files(init)) by {
            assert forall|j: int| 0 <= j < init.len() implies storable_key(#[trigger] init[j].0) && all_storable(init[j].1) by {
                assert(init[j] == files[j]);
            }
        }
        lemma_kept_files_storable(init, cats);
        let r = kept_files(init, cats);
        if cats.contains(files.last().0) {
            assert(storable_key(files[files.len() - 1].0) && all_storable(files[files.len() - 1].1));
            assert forall|j: int| 0 <= j < r.push(files.last()).len() implies storable_key(#[trigger] r.push(files.last())[j].0)
                && all_storable(r.push(files.last())[j].1) by {
                if j < r.len() {
                    assert(r.push(files.last())[j] == r[j]);
                }
            }
        }
    }
}

/// A name that the checks accept can be stored in the order file.
proof fn lemma_valid_name_storable(value: Seq<char>)
    requires
        name_check(value) is Ok,
    ensures
        name_check(name_check(value)->Ok_0) == Ok::<Seq<char>, Seq<char>>(name_check(value)->Ok_0),
        storable_key(name_check(value)->Ok_0),
{
    crate::todos::lemma_trim_props(value);
    let n = name_check(value)->Ok_0;
    assert(name_check(n) == Ok::<Seq<char>, Seq<char>>(n));
    lemma_checked_name(n);
}

/// Renaming a category that the saved order lists keeps its place: the
/// categories are listed as before, with the new name in place of the old.
#[verifier::rlimit(40)]
pub proof fn lemma_renamed_category_keeps_place(d: DataView, from: Seq<char>, to: Seq<char>)
    requires
        rename_category_changes(d, from, to).0 is Ok,
        name_check(from)->Ok_0 != name_check(to)->Ok_0,
        !hidden(name_check(from)->Ok_0),
        !hidden(name_check(to)->Ok_0),
        distinct_folders(d),
        all_storable(dir_names(d.notes)),
        order_of(d) is Ok,
        order_of(d)->Ok_0.categories.no_duplicates(),
        order_of(d)->Ok_0.categories.contains(name_check(from)->Ok_0),
        !order_of(d)->Ok_0.categories.contains(name_check(to)->Ok_0),
    ensures
        categories_of(apply_all(d, rename_category_changes(d, from, to).1)) == Ok::<Seq<Seq<char>>, Failure>(
            renamed(categories_of(d)->Ok_0, name_check(from)->Ok_0, name_check(to)->Ok_0),
        ),
{
    let f = name_check(from)->Ok_0;
    let t = name_check(to)->Ok_0;
    let o = order_of(d)->Ok_0;
    let dirs = dir_names(d.notes);
    // The folder is renamed in its place.
    let c1 = seq![ChangeView::RenameCategory { from: f, to: t }];
    let d1 = apply_all(d, c1);
    assert(c1.drop_last() =~= Seq::<ChangeView>::empty());
    assert(d1 == apply(apply_all(d, c1.drop_last()), c1.last()));
    crate::model::lemma_find_folder_bound(d.notes, f);
    lemma_untaken_folder(d, t);
    let i = find_folder(d.notes, f);
    assert(d1.notes == d.notes.update(i, FolderView { name: t, location: None, entries: unlocated(d.notes[i].entries), ..d.notes[i] }));
    let dirs1 = dir_names(d1.notes);
    assert forall|x: Seq<char>| #[trigger] dirs1.contains(x) <==> ((dirs.contains(x) && x != f) || x == t) by {
        lemma_dir_names_contains(d.notes, x);
        lemma_dir_names_contains(d1.notes, x);
        if dirs1.contains(x) {
            let k = choose|k: int| 0 <= k < d1.notes.len() && #[trigger] d1.notes[k].name == x && d1.notes[k].is_dir && !hidden(x);
            if k != i {
                assert(d1.notes[k] == d.notes[k]);
                if k < i {
                    assert(d.notes[k].name != d.notes[i].name);
                } else {
                    assert(d.notes[i].name != d.notes[k].name);
                }
            }
        }
        if dirs.contains(x) && x != f {
            let k = choose|k: int| 0 <= k < d.notes.len() && #[trigger] d.notes[k].name == x && d.notes[k].is_dir && !hidden(x);
            assert(k != i);
            assert(d1.notes[k] == d.notes[k]);
        }
        if x == t {
            assert(d1.notes[i].name == t && d1.notes[i].is_dir);
        }
    }
    assert(dirs.contains(f)) by {
        lemma_dir_names_contains(d.notes, f);
        assert(d.notes[i].name == f);
    }
    assert(!dirs.contains(t)) by {
        lemma_dir_names_contains(d.notes, t);
    }
    lemma_valid_name_storable(to);
    assert(all_storable(dirs1)) by {
        assert forall|j: int| 0 <= j < dirs1.len() implies crate::readback::storable_name(#[trigger] dirs1[j]) by {
            assert(dirs1.contains(dirs1[j]));
            if dirs1[j] != t {
                assert(dirs.contains(dirs1[j]));
                let q = choose|q: int| 0 <= q < dirs.len() && dirs[q] == dirs1[j];
                assert(crate::readback::storable_name(dirs[q]));
            }
        }
    }
    // The saved order is renamed, and read back.
    lemma_parsed_storable(read_content(d.order)->Ok_0);
    assert(order_of(d1) == order_of(d));
    let files1 = match lookup(o.files, f) {
        Some(ns) => set_files(without_key(o.files, f), t, ns),
        None => without_key(o.files, f),
    };
    let ow1 = OrderView { categories: renamed(o.categories, f, t), files: files1 };
    let a = retitle_categories_changes(d1, f, t);
    assert(a.1 == seq![order_write(ow1)]);
    lemma_without_key_storable(o.files, f);
    if lookup(o.files, f) is Some {
        lemma_find_key_bound(o.files, f);
        let q = find_key(o.files, f);
        assert(storable_key(o.files[q].0) && all_storable(o.files[q].1));
        lemma_set_files_lookup(without_key(o.files, f), t, o.files[q].1);
    }
    assert(storable_order(ow1)) by {
        let rc = renamed(o.categories, f, t);
        assert forall|p: int, q: int| 0 <= p < rc.len() && 0 <= q < rc.len() && p != q implies rc[p] != rc[q] by {
            assert(o.categories[p] != o.categories[q]);
            assert(o.categories.contains(o.categories[p]) && o.categories.contains(o.categories[q]));
        }
        assert forall|p: int| 0 <= p < rc.len() implies crate::readback::storable_name(#[trigger] rc[p]) by {
            assert(crate::readback::storable_name(o.categories[p]));
        }
    }
    lemma_order_roundtrip(ow1);
    let d2 = apply_all(d1, a.1);
    lemma_order_write_one(d1, ow1);
    let o2 = order_of(d2)->Ok_0;
    assert(o2.categories == renamed(o.categories, f, t));
    // The order is brought up to date with the folders, and read back.
    let a2 = arranged(o2.categories, dirs1);
    let ow2 = OrderView { categories: a2, files: kept_files(o2.files, a2) };
    let cd = categories_done(d2);
    assert(sync_categories_changes(d2).1 == seq![order_write(ow2)]);
    lemma_order_write_then_index(d2, ow2);
    lemma_arranged_exists(o2.categories, dirs1);
    lemma_arranged_names(a2, o2.categories, dirs1);
    lemma_storable_within(a2, dirs1);
    lemma_kept_files_storable(o2.files, a2);
    assert(storable_order(ow2));
    lemma_order_roundtrip(ow2);
    lemma_arranged_exists(a2, dirs1);
    lemma_arrange_idempotent(a2, o2.categories, dirs1, arranged(a2, dirs1));
    lemma_arranged_renamed(o.categories, dirs, dirs1, f, t);
    // The changes, one group after another.
    assert(rename_category_changes(d, from, to).1 == c1 + (a.1 + cd.1));
    lemma_apply_all_concat(d, c1, a.1 + cd.1);
    lemma_apply_all_concat(d1, a.1, cd.1);
}

/// Listing the notes of a category with no query lists every note it shows,
/// in its saved order.
pub proof fn lemma_category_listing_unfiltered(d: DataView, category: Seq<char>)
    requires
        crate::text::trim(category).len() > 0,
        crate::store::listed_categories(d, Some(category)) is Ok,
        order_of(d) is Ok,
    ensures
        ({
            let c = crate::store::listed_categories(d, Some(category))->Ok_0[0];
            crate::store::notes_result(d, Some(category), None) == Ok::<Seq<SummaryView>, Failure>(
                notes_in(d, c, saved_files(order_of(d)->Ok_0, c)),
            )
        }),
{
    let cs = crate::store::listed_categories(d, Some(category))->Ok_0;
    let o = order_of(d)->Ok_0;
    let c = cs[0];
    assert(crate::store::note_query(None) =~= Seq::<char>::empty()) by {
        assert(crate::text::trim(seq![]) =~= Seq::<char>::empty());
    }
    assert(cs.len() == 1);
    assert(cs.drop_last() =~= Seq::<Seq<char>>::empty());
    let ns = notes_in(d, c, saved_files(o, c));
    crate::store::lemma_matching_everything(ns);
    assert(crate::store::notes_listing(d, cs, o, seq![]) == crate::store::notes_listing(d, cs.drop_last(), o, seq![]) + crate::store::matching(ns, seq![]));
    assert(Seq::<SummaryView>::empty() + ns =~= ns);
}

/// A save that a check refuses, in the order the checks are made (the
/// category's name, the title, the category's folder, then the file the
/// note is saved to), fails and changes nothing.
pub proof fn lemma_refused_save_changes_nothing(
    d: DataView,
    category: Seq<char>,
    title: Seq<char>,
    body: Seq<char>,
    previous: Option<Seq<char>>,
)
    requires
        name_check(category) is Err
            || name_check(title) is Err
            || !is_category(d, name_check(category)->Ok_0)
            || save_plan(d, name_check(category)->Ok_0, name_check(title)->Ok_0, previous) is Err,
    ensures
        save_note_changes(d, category, title, body, previous).0 is Err,
        save_note_changes(d, category, title, body, previous).1 == Seq::<ChangeView>::empty(),
{
}

/// An import that a check refuses (the category, the source being a file,
/// its name being shown, a free name for it) fails and changes nothing.
pub proof fn lemma_refused_import_changes_nothing(d: DataView, category: Seq<char>, src: ImportSource)
    requires
        existing_category(d, category) is Err
            || !src.is_file
            || !listed_file_name(src.file_name@)
            || import_name(d, existing_category(d, category)->Ok_0, src.file_name@) is Err,
    ensures
        import_changes(d, category, src).0 is Err,
        import_changes(d, category, src).1 == Seq::<ChangeView>::empty(),
{
}

/// An import adds one file to the category, under the name `import_name`
/// gives (one that no entry of the category had, as the file system
/// compares names), and leaves every other file of every category as it
/// was; it reports that file.
pub proof fn lemma_import_adds_one_file(d: DataView, category: Seq<char>, src: ImportSource)
    requires
        import_changes(d, category, src).0 is Ok,
    ensures
        ({
            let r = import_changes(d, category, src);
            let c = name_check(category)->Ok_0;
            let n = import_name(d, c, src.file_name@)->Ok_0;
            let d2 = apply_all(d, r.1);
            &&& r.0->Ok_0.category == c
            &&& r.0->Ok_0.file_name == n
            &&& !entry_taken(d, c, n)
            &&& r.1[0] == ChangeView::CopyIn { category: c, name: n, source: src.path@, size: src.size as nat }
            &&& d2.notes == with_entries(d, c, folder_entries(d, c).push(imported_entry(n, src.size as nat))).notes
            &&& is_category(d2, c)
            &&& folder_entries(d2, c) == folder_entries(d, c).push(imported_entry(n, src.size as nat))
        }),
{
    let r = import_changes(d, category, src);
    let c = name_check(category)->Ok_0;
    let n = import_name(d, c, src.file_name@)->Ok_0;
    crate::store::lemma_import_name_first_free(d, c, src.file_name@);
    let cp = ChangeView::CopyIn { category: c, name: n, source: src.path@, size: src.size as nat };
    let c1 = seq![cp];
    let d1 = apply_all(d, c1);
    assert(c1.drop_last() =~= Seq::<ChangeView>::empty());
    assert(d1 == apply(apply_all(d, c1.drop_last()), cp));
    let es = folder_entries(d, c).push(imported_entry(n, src.size as nat));
    assert(d1 == with_entries(d, c, es));
    lemma_with_entries(d, c, es, c);
    let b = sync_files_changes(d1, c);
    let x = index_changes(apply_all(d1, b.1));
    assert(r.1 == c1 + (b.1 + x.1));
    assert(only_meta(b.1)) by {
        assert forall|i: int| 0 <= i < b.1.len() implies (#[trigger] b.1[i] is WriteOrder || b.1[i] is WriteIndex) by {}
    }
    assert(only_meta(x.1)) by {
        assert forall|i: int| 0 <= i < x.1.len() implies (#[trigger] x.1[i] is WriteOrder || x.1[i] is WriteIndex) by {}
    }
    lemma_meta_concat(b.1, x.1);
    lemma_apply_all_concat(d, c1, b.1 + x.1);
    lemma_meta_keeps_notes(d1, b.1 + x.1);
    let d2 = apply_all(d, r.1);
    assert(d2.notes == d1.notes);
}

/// The index lists, under each category, every note the category shows, in
/// its saved order: what listing the category's notes with no query gives.
pub proof fn lemma_index_lists_every_note(d: DataView, cats: Seq<Seq<char>>)
    requires
        order_of(d) is Ok,
        forall|i: int|
            0 <= i < cats.len() ==> name_check(#[trigger] cats[i]) == Ok::<Seq<char>, Seq<char>>(cats[i])
                && is_category(d, cats[i]),
    ensures
        crate::store::index_sections(d, cats) == Ok::<Seq<(Seq<char>, Seq<SummaryView>)>, Failure>(
            cats.map_values(|c: Seq<char>| (c, notes_in(d, c, saved_files(order_of(d)->Ok_0, c)))),
        ),
    decreases cats.len(),
{
    if cats.len() > 0 {
        let o = order_of(d)->Ok_0;
        let init = cats.drop_last();
        assert forall|i: int| 0 <= i < init.len() implies name_check(#[trigger] init[i]) == Ok::<Seq<char>, Seq<char>>(init[i])
            && is_category(d, init[i]) by {
            assert(init[i] == cats[i]);
        }
        lemma_index_lists_every_note(d, init);
        let c = cats.last();
        assert(name_check(c) == Ok::<Seq<char>, Seq<char>>(c) && is_category(d, c)) by {
            assert(c == cats[cats.len() - 1]);
        }
        assert(trim(c) == c && c.len() > 0);
        assert(crate::store::listed_categories(d, Some(c)) == Ok::<Seq<Seq<char>>, Failure>(seq![c]));
        lemma_category_listing_unfiltered(d, c);
        assert(crate::store::notes_result(d, Some(c), None) == Ok::<Seq<SummaryView>, Failure>(notes_in(d, c, saved_files(o, c))));
        assert(cats.map_values(|x: Seq<char>| (x, notes_in(d, x, saved_files(o, x)))) =~= init.map_values(
            |x: Seq<char>| (x, notes_in(d, x, saved_files(o, x))),
        ).push((c, notes_in(d, c, saved_files(o, c)))));
    } else {
        assert(cats.map_values(|x: Seq<char>| (x, notes_in(d, x, saved_files(order_of(d)->Ok_0, x))))
            =~= Seq::<(Seq<char>, Seq<SummaryView>)>::empty());
    }
}

/// Searching a category lists, in the category's saved order, exactly the
/// notes whose title or file name, in lower case, holds the trimmed query
/// in lower case: a query for a file's extension or its whole name finds
/// it.
pub proof fn lemma_category_search(d: DataView, category: Seq<char>, query: Seq<char>)
    requires
        crate::text::trim(category).len() > 0,
        crate::text::trim(query).len() > 0,
        crate::store::listed_categories(d, Some(category)) is Ok,
        order_of(d) is Ok,
    ensures
        ({
            let c = crate::store::listed_categories(d, Some(category))->Ok_0[0];
            let q = crate::store::lowercase(crate::text::trim(query));
            crate::store::notes_result(d, Some(category), Some(query)) == Ok::<Seq<SummaryView>, Failure>(
                notes_in(d, c, saved_files(order_of(d)->Ok_0, c)).filter(
                    |s: SummaryView| has_infix(crate::store::lowercase(s.title), q) || has_infix(crate::store::lowercase(s.file_name), q),
                ),
            )
        }),
{
    let cs = crate::store::listed_categories(d, Some(category))->Ok_0;
    let o = order_of(d)->Ok_0;
    let c = cs[0];
    let q = crate::store::lowercase(crate::text::trim(query));
    assert(crate::store::note_query(Some(query)) == q);
    assert(cs.len() == 1);
    assert(cs.drop_last() =~= Seq::<Seq<char>>::empty());
    let ns = notes_in(d, c, saved_files(o, c));
    crate::store::lemma_search_keeps_matches(ns, q);
    assert(crate::store::notes_listing(d, cs, o, q) == crate::store::notes_listing(d, cs.drop_last(), o, q) + crate::store::matching(ns, q));
    assert(Seq::<SummaryView>::empty() + crate::store::matching(ns, q) =~= crate::store::matching(ns, q));
    let p1 = |s: SummaryView| q.len() == 0 || has_infix(crate::store::lowercase(s.title), q) || has_infix(crate::store::lowercase(s.file_name), q);
    let p2 = |s: SummaryView| has_infix(crate::store::lowercase(s.title), q) || has_infix(crate::store::lowercase(s.file_name), q);
    assert(p1 == p2) by {
        assert forall|s: SummaryView| #[trigger] p1(s) == p2(s) by {
            if q.len() == 0 {
                assert(crate::store::lowercase(s.title).subrange(0, 0) =~= q);
            }
        }
    }
}

/// File orders with the same keys in the same places are found alike.
proof fn lemma_same_keys(a: Seq<(Seq<char>, Seq<Seq<char>>)>, b: Seq<(Seq<char>, Seq<Seq<char>>)>, k: Seq<char>)
    requires
        a.len() == b.len(),
        forall|j: int| 0 <= j < a.len() ==> #[trigger] a[j].0 == b[j].0,
    ensures
        find_key(a, k) == find_key(b, k),
    decreases a.len(),
{
    if a.len() > 0 {
        assert forall|j: int| 0 <= j < a.drop_last().len() implies #[trigger] a.drop_last()[j].0 == b.drop_last()[j].0 by {
            assert(a.drop_last()[j] == a[j]);
            assert(b.drop_last()[j] == b[j]);
        }
        lemma_same_keys(a.drop_last(), b.drop_last(), k);
        assert(a[a.len() - 1].0 == b[b.len() - 1].0);
    }
}

/// Renaming a name of one file order of storable file orders to a storable
/// name leaves them storable.
proof fn lemma_renamed_files_storable(
    files: Seq<(Seq<char>, Seq<Seq<char>>)>,
    i: int,
    key: Seq<char>,
    from: Seq<char>,
    to: Seq<char>,
)
    requires
        storable_files(files),
        storable_name(to),
        -1 <= i < files.len(),
        i >= 0 ==> files[i].0 == key,
    ensures
        storable_files(if i < 0 { files } else { files.update(i, (key, renamed(files[i].1, from, to))) }),
{
    if i >= 0 {
        let f2 = files.update(i, (key, renamed(files[i].1, from, to)));
        assert forall|j: int| 0 <= j < f2.len() implies storable_key(#[trigger] f2[j].0) && all_storable(f2[j].1) by {
            assert(storable_key(files[j].0) && all_storable(files[j].1));
            if j == i {
                let ns = files[i].1;
                assert forall|m: int| 0 <= m < renamed(ns, from, to).len() implies storable_name(#[trigger] renamed(ns, from, to)[m]) by {
                    assert(storable_name(ns[m]));
                }
            }
        }
    }
}

/// Renaming the file `from` of `category` in the saved order puts `to` in
/// its place: the category's saved file order reads back with `to` for
/// `from`, and the order of the categories and the file orders of the
/// other categories read back as before.
pub proof fn lemma_retitled_file_order(d: DataView, category: Seq<char>, from: Seq<char>, to: Seq<char>)
    requires
        order_of(d) is Ok,
        order_of(d)->Ok_0.categories.no_duplicates(),
        storable_name(to),
    ensures
        ({
            let o = order_of(d)->Ok_0;
            let d2 = apply_all(d, retitle_files_changes(d, category, from, to).1);
            &&& retitle_files_changes(d, category, from, to).0 is Ok
            &&& d2.notes == d.notes
            &&& order_of(d2) is Ok
            &&& order_of(d2)->Ok_0.categories == o.categories
            &&& saved_files(order_of(d2)->Ok_0, category) == renamed(saved_files(o, category), from, to)
            &&& forall|k: Seq<char>| k != category ==> #[trigger] saved_files(order_of(d2)->Ok_0, k) == saved_files(o, k)
        }),
{
    let o = order_of(d)->Ok_0;
    let i = find_key(o.files, category);
    lemma_find_key_bound(o.files, category);
    let files2 = if i < 0 {
        o.files
    } else {
        o.files.update(i, (category, renamed(o.files[i].1, from, to)))
    };
    let o2 = OrderView { categories: o.categories, files: files2 };
    let cs = retitle_files_changes(d, category, from, to).1;
    assert(cs == seq![order_write(o2)]);
    assert(cs.drop_last() =~= Seq::<ChangeView>::empty());
    assert(apply_all(d, cs) == apply(apply_all(d, cs.drop_last()), cs.last()));
    let d2 = apply_all(d, cs);
    lemma_parsed_storable(read_content(d.order)->Ok_0);
    assert(files2.len() == o.files.len());
    assert forall|j: int| 0 <= j < files2.len() implies #[trigger] files2[j].0 == o.files[j].0 by {}
    lemma_renamed_files_storable(o.files, i, category, from, to);
    assert(storable_order(o2));
    lemma_order_roundtrip(o2);
    let o3 = order_of(d2)->Ok_0;
    assert(o3 == crate::order::parsed_order(order_text(o2)));
    assert forall|k: Seq<char>| #[trigger] lookup(o3.files, k) == lookup(files2, k) by {
        assert(crate::readback::same_file_orders(crate::order::parsed_order(order_text(o2)).files, o2.files));
        assert(lookup(crate::order::parsed_order(order_text(o2)).files, k) == lookup(o2.files, k));
    }
    assert forall|k: Seq<char>| #[trigger] lookup(files2, k) == (if k == category && i >= 0 {
        Some(renamed(o.files[i].1, from, to))
    } else {
        lookup(o.files, k)
    }) by {
        lemma_same_keys(files2, o.files, k);
        lemma_find_key_bound(o.files, k);
    }
    if i < 0 {
        assert(renamed(Seq::<Seq<char>>::empty(), from, to) =~= Seq::<Seq<char>>::empty());
    }
}

/// A name is listed among the files of a category exactly when an entry of
/// that name is one the library shows.
proof fn lemma_listed_name_entry(c: Seq<char>, es: Seq<EntryView>, x: Seq<char>)
    ensures
        file_names(listed_summaries(c, es)).contains(x) <==> exists|k: int|
            0 <= k < es.len() && #[trigger] es[k].name == x && summary_of(c, es[k]) is Some,
    decreases es.len(),
{
    if es.len() > 0 {
        let init = es.drop_last();
        let l = es.last();
        lemma_listed_name_entry(c, init, x);
        let rest = listed_summaries(c, init);
        if exists|k: int| 0 <= k < init.len() && #[trigger] init[k].name == x && summary_of(c, init[k]) is Some {
            let k = choose|k: int| 0 <= k < init.len() && #[trigger] init[k].name == x && summary_of(c, init[k]) is Some;
            assert(es[k] == init[k]);
        }
        if exists|k: int| 0 <= k < es.len() && #[trigger] es[k].name == x && summary_of(c, es[k]) is Some {
            let k = choose|k: int| 0 <= k < es.len() && #[trigger] es[k].name == x && summary_of(c, es[k]) is Some;
            if k < init.len() {
                assert(init[k] == es[k]);
            }
        }
        match summary_of(c, l) {
            Some(sm) => {
                assert(file_names(rest.push(sm)) =~= file_names(rest).push(sm.file_name));
                assert(sm.file_name == l.name);
                assert(es[es.len() - 1] == l);
                if file_names(rest).contains(x) {
                    let q = choose|q: int| 0 <= q < file_names(rest).len() && file_names(rest)[q] == x;
                    assert(file_names(rest).push(sm.file_name)[q] == x);
                }
                if file_names(rest).push(sm.file_name).contains(x) && x != l.name {
                    let q = choose|q: int| 0 <= q < file_names(rest).push(sm.file_name).len() && file_names(rest).push(sm.file_name)[q] == x;
                    assert(file_names(rest)[q] == x);
                }
                if x == l.name {
                    assert(file_names(rest).push(sm.file_name)[file_names(rest).len() as int] == x);
                }
            },
            None => {
                assert(es[es.len() - 1] == l);
            },
        }
    }
}

/// Every entry after renaming or writing the file `n` is named `n` or was
/// an entry before.
proof fn lemma_entries_kept_or_named(es: Seq<EntryView>, p: Seq<char>, n: Seq<char>, text: Seq<char>)
    ensures
        forall|k2: int| 0 <= k2 < renamed_entries(es, p, n).len() ==> #[trigger] renamed_entries(es, p, n)[k2].name == n
            || exists|k: int| 0 <= k < es.len() && es[k] == renamed_entries(es, p, n)[k2],
        forall|k2: int| 0 <= k2 < written_entries(es, n, text).len() ==> #[trigger] written_entries(es, n, text)[k2].name == n
            || exists|k: int| 0 <= k < es.len() && es[k] == written_entries(es, n, text)[k2],
{
    let r = renamed_entries(es, p, n);
    let w = written_entries(es, n, text);
    lemma_find_entry_last(es, p);
    lemma_find_entry_last(es, n);
    assert forall|k2: int| 0 <= k2 < r.len() implies #[trigger] r[k2].name == n
        || exists|k: int| 0 <= k < es.len() && es[k] == r[k2] by {
        if r[k2].name != n {
            assert(es[k2] == r[k2]);
        }
    }
    assert forall|k2: int| 0 <= k2 < w.len() implies #[trigger] w[k2].name == n
        || exists|k: int| 0 <= k < es.len() && es[k] == w[k2] by {
        if w[k2].name != n {
            assert(es[k2] == w[k2]);
        }
    }
}

/// The names listed among `es2`, whose entries are named `n` or were
/// entries of `es`, are `n` or names listed among `es`.
proof fn lemma_listed_within(c: Seq<char>, es: Seq<EntryView>, es2: Seq<EntryView>, n: Seq<char>)
    requires
        forall|k2: int| 0 <= k2 < es2.len() ==> #[trigger] es2[k2].name == n || exists|k: int| 0 <= k < es.len() && es[k] == es2[k2],
    ensures
        forall|x: Seq<char>| #[trigger] file_names(listed_summaries(c, es2)).contains(x) ==> x == n
            || file_names(listed_summaries(c, es)).contains(x),
{
    assert forall|x: Seq<char>| #[trigger] file_names(listed_summaries(c, es2)).contains(x) implies x == n
        || file_names(listed_summaries(c, es)).contains(x) by {
        lemma_listed_name_entry(c, es2, x);
        lemma_listed_name_entry(c, es, x);
        let k2 = choose|k2: int| 0 <= k2 < es2.len() && #[trigger] es2[k2].name == x && summary_of(c, es2[k2]) is Some;
        if x != n {
            let k = choose|k: int| 0 <= k < es.len() && es[k] == es2[k2];
            assert(es[k].name == x && summary_of(c, es[k]) is Some);
        }
    }
}

/// Saving a note under a new title keeps its place: its file is renamed in
/// its category's saved order, so the category is listed in that order with
/// the new file name where the old one was.
#[verifier::rlimit(60)]
pub proof fn lemma_renamed_note_keeps_place(
    d: DataView,
    category: Seq<char>,
    title: Seq<char>,
    body: Seq<char>,
    previous: Option<Seq<char>>,
)
    requires
        save_note_changes(d, category, title, body, previous).0 is Ok,
        ({
            let doc = save_note_changes(d, category, title, body, previous).0->Ok_0;
            let plan = save_plan(d, doc.category, doc.title, previous)->Ok_0;
            plan.1 matches Some(p) && p != doc.file_name
        }),
        order_of(d) is Ok,
        order_of(d)->Ok_0.categories.no_duplicates(),
        all_storable(listed_names(d, name_check(category)->Ok_0)),
    ensures
        ({
            let r = save_note_changes(d, category, title, body, previous);
            let doc = r.0->Ok_0;
            let c = doc.category;
            let p = save_plan(d, doc.category, doc.title, previous)->Ok_0.1->Some_0;
            let d2 = apply_all(d, r.1);
            crate::store::notes_result(d2, Some(c), None) == Ok::<Seq<SummaryView>, Failure>(
                notes_in(d2, c, renamed(saved_files(order_of(d)->Ok_0, c), p, doc.file_name)),
            )
        }),
{
    reveal_strlit("md");
    let r = save_note_changes(d, category, title, body, previous);
    lemma_saved_entry(d, category, title, body, previous);
    let doc = r.0->Ok_0;
    let c = name_check(category)->Ok_0;
    let t = name_check(title)->Ok_0;
    let plan = save_plan(d, c, t, previous)->Ok_0;
    let p = plan.1->Some_0;
    let ext = plan.0;
    let n = dotted(t, ext);
    let text = stored_text(t, ext, body);
    let o = order_of(d)->Ok_0;
    assert(doc.category == c && doc.title == t && doc.file_name == n);
    // The file is renamed, if its name changes, and written.
    let wn = ChangeView::WriteNote { category: c, name: n, text };
    let c1 = plan.2 + seq![wn];
    let dp = apply_all(d, plan.2);
    let d1 = apply_all(d, c1);
    let e0 = folder_entries(d, c);
    assert(is_category(d, c));
    let e1 = if plan.2.len() > 0 { renamed_entries(e0, p, n) } else { e0 };
    assert(dp == with_entries(d, c, e1) || (plan.2.len() == 0 && dp == d)) by {
        if plan.2.len() > 0 {
            let rn = plan.2[0];
            assert(plan.2 =~= seq![rn]);
            assert(seq![rn].drop_last() =~= Seq::<ChangeView>::empty());
            assert(apply_all(d, seq![rn]) == apply(apply_all(d, seq![rn].drop_last()), rn));
        } else {
            assert(plan.2 =~= Seq::<ChangeView>::empty());
        }
    }
    if plan.2.len() > 0 {
        lemma_with_entries(d, c, e1, c);
    }
    assert(is_category(dp, c) && folder_entries(dp, c) == e1 && dp.order == d.order);
    lemma_apply_all_concat(d, plan.2, seq![wn]);
    assert(seq![wn].drop_last() =~= Seq::<ChangeView>::empty());
    assert(apply_all(dp, seq![wn]) == apply(apply_all(dp, seq![wn].drop_last()), wn));
    let e2 = written_entries(e1, n, text);
    assert(d1 == with_entries(dp, c, e2));
    lemma_with_entries(dp, c, e2, c);
    assert(d1.order == d.order);
    // The names it lists can be stored.
    lemma_entries_kept_or_named(e0, p, n, text);
    lemma_entries_kept_or_named(e1, p, n, text);
    lemma_listed_within(c, e1, e2, n);
    if plan.2.len() > 0 {
        lemma_listed_within(c, e0, e1, n);
    }
    assert(storable_name(n)) by {
        reveal_strlit(".");
        crate::todos::lemma_trim_props(title);
        crate::todos::lemma_trimmed_ends(t);
        assert forall|i: int| 0 <= i < n.len() implies n[i] != '\n' && n[i] != '\r' by {
            if i < t.len() {
                assert(n[i] == t[i]);
                if t[i] == '\n' || t[i] == '\r' {
                    assert(crate::names::name_forbidden(t[i]));
                }
            } else if i > t.len() {
                assert(n[i] == ext[i - t.len() - 1]);
            }
        }
        assert(n.last() == ext.last());
    }
    let l1 = listed_names(d1, c);
    assert(all_storable(l1)) by {
        assert forall|j: int| 0 <= j < l1.len() implies storable_name(#[trigger] l1[j]) by {
            assert(l1.contains(l1[j]));
            if l1[j] != n {
                let l0 = listed_names(d, c);
                assert(l0.contains(l1[j]));
                let q = choose|q: int| 0 <= q < l0.len() && l0[q] == l1[j];
                assert(storable_name(l0[q]));
            }
        }
    }
    // The saved order is retitled.
    assert(order_of(d1) == order_of(d));
    let a = retitle_files_changes(d1, c, p, n);
    lemma_retitled_file_order(d1, c, p, n);
    let d2 = apply_all(d1, a.1);
    let o2 = order_of(d2)->Ok_0;
    let rn = renamed(saved_files(o, c), p, n);
    assert(saved_files(o2, c) == rn);
    // Then brought up to date with the files, and the index written.
    let b = sync_files_changes(d2, c);
    let d3 = apply_all(d2, b.1);
    let x = index_changes(d3);
    assert(r.1 == c1 + (a.1 + (b.1 + x.1)));
    assert(listed_names(d2, c) == l1);
    lemma_with_entries(dp, c, e2, c);
    assert(is_category(d2, c));
    let ar = arranged(rn, l1);
    let o3 = OrderView { categories: o2.categories, files: set_files(o2.files, c, ar) };
    assert(b.1 == seq![order_write(o3)]);
    lemma_order_write_then_index(d2, o3);
    lemma_apply_all_concat(d, c1, a.1 + (b.1 + x.1));
    lemma_apply_all_concat(d1, a.1, b.1 + x.1);
    let df = apply_all(d, r.1);
    assert(df == apply_all(d2, b.1 + x.1));
    lemma_arranged_exists(rn, l1);
    lemma_arranged_names(ar, rn, l1);
    lemma_storable_within(ar, l1);
    lemma_parsed_storable(read_content(d2.order)->Ok_0);
    lemma_category_storable(d, category);
    lemma_set_files_lookup(o2.files, c, ar);
    assert(storable_order(o3));
    lemma_order_roundtrip(o3);
    let of = order_of(df)->Ok_0;
    assert(lookup(of.files, c) == lookup(o3.files, c));
    assert(saved_files(of, c) == ar);
    // The listing keeps the retitled order.
    crate::todos::lemma_trim_props(category);
    assert(crate::store::listed_categories(df, Some(c)) == Ok::<Seq<Seq<char>>, Failure>(seq![c]));
    lemma_category_listing_unfiltered(df, c);
    assert(folder_entries(df, c) == folder_entries(d2, c));
    lemma_arranged_exists(ar, l1);
    lemma_arrange_idempotent(ar, rn, l1, arranged(ar, l1));
}

} // verus!
