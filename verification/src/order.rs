//! The file `.meta/order.md`, which keeps the order the user dragged
//! categories and files into.
use vstd::prelude::*;
use crate::arrange::{contains_text, insert_sorted, lemma_sorted_unique, str_views, strictly_sorted, text_less, lemma_less_irreflexive,
    lemma_less_transitive, lemma_less_total, less_chars};
use crate::notes::{normalize_newlines, normalized};
use crate::text::{
    chars_of, has_prefix, push_chars, push_str, same_chars, slice_chars, starts_with, string_of,
    trim, trim_chars, trim_end, is_space,
};
use crate::todos::{char_views, lines, split_lines};

verus! {

/// The saved order of the files of one category.
#[derive(Debug, Clone)]
pub struct FileOrder {
    pub category: String,
    pub names: Vec<String>,
}

/// The saved order of the categories, and of the files of each category.
#[derive(Debug, Clone)]
pub struct LibraryOrder {
    pub categories: Vec<String>,
    pub files: Vec<FileOrder>,
}

/// What an order holds: the category names, and for each category that has
/// a saved file order, its name with that order.
pub struct OrderView {
    pub categories: Seq<Seq<char>>,
    pub files: Seq<(Seq<char>, Seq<Seq<char>>)>,
}

/// The view of the saved file orders.
pub open spec fn file_orders_view(f: Seq<FileOrder>) -> Seq<(Seq<char>, Seq<Seq<char>>)> {
    f.map_values(|x: FileOrder| (x.category@, str_views(x.names@)))
}

impl LibraryOrder {
    /// What this order holds.
    pub open spec fn view_order(&self) -> OrderView {
        OrderView { categories: str_views(self.categories@), files: file_orders_view(self.files@) }
    }
}

/// The index of the entry for `key` in `files`, or -1.
pub open spec fn find_key(files: Seq<(Seq<char>, Seq<Seq<char>>)>, key: Seq<char>) -> int
    decreases files.len(),
{
    if files.len() == 0 {
        -1
    } else if files.last().0 == key {
        files.len() - 1
    } else {
        find_key(files.drop_last(), key)
    }
}

/// The saved file order of `key`, if there is one.
pub open spec fn lookup(files: Seq<(Seq<char>, Seq<Seq<char>>)>, key: Seq<char>) -> Option<Seq<Seq<char>>> {
    let i = find_key(files, key);
    if i < 0 {
        None
    } else {
        Some(files[i].1)
    }
}

/// `files` with an entry for `key`, empty if it had none.
pub open spec fn with_key(files: Seq<(Seq<char>, Seq<Seq<char>>)>, key: Seq<char>) -> Seq<(Seq<char>, Seq<Seq<char>>)> {
    if find_key(files, key) < 0 {
        files.push((key, seq![]))
    } else {
        files
    }
}

/// `files` with `item` added at the end of the order of `key`.
pub open spec fn with_item(
    files: Seq<(Seq<char>, Seq<Seq<char>>)>,
    key: Seq<char>,
    item: Seq<char>,
) -> Seq<(Seq<char>, Seq<Seq<char>>)> {
    let i = find_key(files, key);
    if i < 0 {
        files.push((key, seq![item]))
    } else {
        files.update(i, (key, files[i].1.push(item)))
    }
}

/// The heading line of the category section.
pub open spec fn categories_heading() -> Seq<char> {
    "## 分类"@
}

/// The heading line of the file section.
pub open spec fn files_heading() -> Seq<char> {
    "## 文件"@
}

/// Where reading an order file has got to: the section (0 before any,
/// 1 categories, 2 files), the category whose files are being read, and
/// what has been read.
pub struct OrderReading {
    pub section: int,
    pub current: Seq<char>,
    pub order: OrderView,
}

/// The reading after one more line.
pub open spec fn read_order_line(st: OrderReading, raw_line: Seq<char>) -> OrderReading {
    let line = trim_end(raw_line);
    if line == categories_heading() {
        OrderReading { section: 1, current: seq![], order: st.order }
    } else if line == files_heading() {
        OrderReading { section: 2, current: seq![], order: st.order }
    } else if has_prefix(line, seq!['#', '#', '#', ' ']) {
        if st.section == 2 {
            let name = trim(line.subrange(4, line.len() as int));
            OrderReading {
                section: 2,
                current: name,
                order: if name.len() > 0 {
                    OrderView { categories: st.order.categories, files: with_key(st.order.files, name) }
                } else {
                    st.order
                },
            }
        } else {
            st
        }
    } else if has_prefix(line, seq!['-', ' ']) && line.len() > 2 {
        let item = line.subrange(2, line.len() as int);
        if st.section == 1 {
            OrderReading {
                section: 1,
                current: st.current,
                order: OrderView { categories: st.order.categories.push(item), files: st.order.files },
            }
        } else if st.section == 2 && st.current.len() > 0 {
            OrderReading {
                section: 2,
                current: st.current,
                order: OrderView {
                    categories: st.order.categories,
                    files: with_item(st.order.files, st.current, item),
                },
            }
        } else {
            st
        }
    } else {
        st
    }
}

/// The reading after the lines `ls`.
pub open spec fn read_order_lines(ls: Seq<Seq<char>>) -> OrderReading
    decreases ls.len(),
{
    if ls.len() == 0 {
        OrderReading {
            section: 0,
            current: seq![],
            order: OrderView { categories: seq![], files: seq![] },
        }
    } else {
        read_order_line(read_order_lines(ls.drop_last()), ls.last())
    }
}

/// The order that an order file with this content holds.
pub open spec fn parsed_order(raw: Seq<char>) -> OrderView {
    read_order_lines(lines(normalized(raw))).order
}

/// The lines `- name` for each name.
pub open spec fn item_lines(names: Seq<Seq<char>>) -> Seq<Seq<char>>
    decreases names.len(),
{
    if names.len() == 0 {
        seq![]
    } else {
        item_lines(names.drop_last()).push(seq!['-', ' '] + names.last())
    }
}

/// The lines of the file section of one category.
pub open spec fn section_lines(category: Seq<char>, names: Seq<Seq<char>>) -> Seq<Seq<char>> {
    seq![seq![], seq!['#', '#', '#', ' '] + category, seq![]] + item_lines(names)
}

/// The lines of the file sections of `sections`, one after another.
pub open spec fn sections_lines(sections: Seq<(Seq<char>, Seq<Seq<char>>)>) -> Seq<Seq<char>>
    decreases sections.len(),
{
    if sections.len() == 0 {
        seq![]
    } else {
        sections_lines(sections.drop_last()) + section_lines(
            sections.last().0,
            sections.last().1,
        )
    }
}

/// The saved file orders of the categories of `categories`, in that order
/// (a category listed twice gets its section twice).
pub open spec fn listed_sections(
    categories: Seq<Seq<char>>,
    files: Seq<(Seq<char>, Seq<Seq<char>>)>,
) -> Seq<(Seq<char>, Seq<Seq<char>>)>
    decreases categories.len(),
{
    if categories.len() == 0 {
        seq![]
    } else {
        let rest = listed_sections(categories.drop_last(), files);
        let c = categories.last();
        match lookup(files, c) {
            Some(names) => rest.push((c, names)),
            None => rest,
        }
    }
}

/// Whether `keys` are the categories of `files` that `categories` does not
/// list, sorted.
pub open spec fn unlisted_keys(
    keys: Seq<Seq<char>>,
    categories: Seq<Seq<char>>,
    files: Seq<(Seq<char>, Seq<Seq<char>>)>,
) -> bool {
    &&& strictly_sorted(keys)
    &&& forall|k: Seq<char>| #[trigger] keys.contains(k) <==> (find_key(files, k) >= 0
        && !categories.contains(k))
}

/// The file orders of `keys`, in that order.
pub open spec fn keyed_sections(
    keys: Seq<Seq<char>>,
    files: Seq<(Seq<char>, Seq<Seq<char>>)>,
) -> Seq<(Seq<char>, Seq<Seq<char>>)>
    decreases keys.len(),
{
    if keys.len() == 0 {
        seq![]
    } else {
        keyed_sections(keys.drop_last(), files).push(
            (keys.last(), files[find_key(files, keys.last())].1),
        )
    }
}

/// The lines of an order file, before the empty last line, where `rest`
/// are the categories with a file order that the category list lacks.
pub open spec fn order_lines(o: OrderView, rest: Seq<Seq<char>>) -> Seq<Seq<char>> {
    seq!["# 排序"@, seq![], "本文件由摸鱼大王自动更新。"@, seq![], categories_heading(), seq![]]
        + item_lines(o.categories) + seq![seq![], files_heading()] + sections_lines(
        listed_sections(o.categories, o.files) + keyed_sections(rest, o.files),
    )
}

/// The text of `ls` with a `\n` after each line.
pub open spec fn joined(ls: Seq<Seq<char>>) -> Seq<char>
    decreases ls.len(),
{
    if ls.len() == 0 {
        seq![]
    } else {
        joined(ls.drop_last()) + ls.last() + seq!['\n']
    }
}

/// Whether the categories of `files` are all different.
pub open spec fn distinct_keys(files: Seq<(Seq<char>, Seq<Seq<char>>)>) -> bool {
    forall|i: int, j: int| 0 <= i < j < files.len() ==> #[trigger] files[i].0 != #[trigger] files[j].0
}

fn lines_equal(a: &Vec<char>, b: &str) -> (r: bool)
    ensures
        r == (a@ == b@),
{
    let bv = chars_of(b);
    same_chars(a, &bv)
}

/// The index of the entry for `key`, or `files.len()` when there is none.
pub fn find_file_order(files: &Vec<FileOrder>, key: &Vec<char>) -> (r: usize)
    ensures
        find_key(file_orders_view(files@), key@) < 0 ==> r == files.len(),
        find_key(file_orders_view(files@), key@) >= 0 ==> r == find_key(
            file_orders_view(files@),
            key@,
        ),
{
    let ghost fv = file_orders_view(files@);
    let mut j: usize = files.len();
    assert(fv.subrange(0, fv.len() as int) =~= fv);
    while j > 0
        invariant
            j <= files.len(),
            fv == file_orders_view(files@),
            find_key(fv, key@) == find_key(fv.subrange(0, j as int), key@),
        decreases j,
    {
        let name = chars_of(files[j - 1].category.as_str());
        assert(fv[j - 1].0 == name@);
        assert(fv.subrange(0, j as int).last() == fv[j - 1]);
        if same_chars(&name, key) {
            return j - 1;
        }
        assert(fv.subrange(0, j as int).drop_last() =~= fv.subrange(0, j - 1));
        j = j - 1;
    }
    files.len()
}

pub proof fn lemma_find_key_bound(files: Seq<(Seq<char>, Seq<Seq<char>>)>, key: Seq<char>)
    ensures
        -1 <= find_key(files, key) < files.len(),
        find_key(files, key) >= 0 ==> files[find_key(files, key)].0 == key,
        find_key(files, key) < 0 ==> forall|i: int| 0 <= i < files.len() ==> files[i].0 != key,
    decreases files.len(),
{
    if files.len() > 0 && files.last().0 != key {
        lemma_find_key_bound(files.drop_last(), key);
        if find_key(files, key) < 0 {
            assert forall|i: int| 0 <= i < files.len() implies files[i].0 != key by {
                if i < files.len() - 1 {
                    assert(files.drop_last()[i] == files[i]);
                }
            }
        }
    }
}

/// The order held by an order file with this content.
pub fn parse_order(raw: &str) -> (r: LibraryOrder)
    ensures
        r.view_order() == parsed_order(raw@),
        distinct_keys(r.view_order().files),
{
    proof {
        lemma_parsed_distinct(raw@);
    }
    let raw_v = chars_of(raw);
    let text = normalize_newlines(&raw_v);
    let ls = split_lines(&text);
    let mut order = LibraryOrder { categories: Vec::new(), files: Vec::new() };
    let mut section: u8 = 0;
    let mut current: Vec<char> = Vec::new();
    let mut i: usize = 0;
    let hash3 = vec!['#', '#', '#', ' '];
    let dash = vec!['-', ' '];
    assert(hash3@ =~= seq!['#', '#', '#', ' ']);
    assert(dash@ =~= seq!['-', ' ']);
    assert(order.view_order().categories =~= Seq::<Seq<char>>::empty());
    assert(order.view_order().files =~= Seq::<(Seq<char>, Seq<Seq<char>>)>::empty());
    while i < ls.len()
        invariant
            i <= ls.len(),
            char_views(ls@) == lines(normalized(raw@)),
            hash3@ == seq!['#', '#', '#', ' '],
            dash@ == seq!['-', ' '],
            read_order_lines(char_views(ls@).subrange(0, i as int)) == (OrderReading {
                section: section as int,
                current: current@,
                order: order.view_order(),
            }),
        decreases ls.len() - i,
    {
        let ghost pre = char_views(ls@).subrange(0, i as int);
        assert(char_views(ls@).subrange(0, i + 1).drop_last() =~= pre);
        assert(char_views(ls@)[i as int] == ls@[i as int]@);
        let ghost st = read_order_lines(pre);
        assert(char_views(ls@).subrange(0, i + 1).last() == ls@[i as int]@);
        assert(read_order_lines(char_views(ls@).subrange(0, i + 1)) == read_order_line(st, ls@[i as int]@));
        let line = crate::text::trim_end_chars(&ls[i]);
        if lines_equal(&line, "## 分类") {
            section = 1;
            current = Vec::new();
        } else if lines_equal(&line, "## 文件") {
            section = 2;
            current = Vec::new();
        } else if starts_with(&line, &hash3) {
            if section == 2 {
                let rest = slice_chars(&line, 4, line.len());
                let name = trim_chars(&rest);
                if name.len() > 0 {
                    let k = find_file_order(&order.files, &name);
                    proof {
                        lemma_find_key_bound(file_orders_view(order.files@), name@);
                    }
                    if k == order.files.len() {
                        let ghost before = file_orders_view(order.files@);
                        let empty: Vec<String> = Vec::new();
                        assert(str_views(empty@) =~= Seq::<Seq<char>>::empty());
                        order.files.push(FileOrder { category: string_of(&name), names: empty });
                        assert(file_orders_view(order.files@) =~= before.push((name@, seq![])));
                    }
                }
                current = name;
            }
        } else if starts_with(&line, &dash) && line.len() > 2 {
            let item = slice_chars(&line, 2, line.len());
            if section == 1 {
                let ghost before = str_views(order.categories@);
                order.categories.push(string_of(&item));
                assert(str_views(order.categories@) =~= before.push(item@));
            } else if section == 2 && current.len() > 0 {
                let ghost before = file_orders_view(order.files@);
                let k = find_file_order(&order.files, &current);
                proof {
                    lemma_find_key_bound(before, current@);
                }
                if k == order.files.len() {
                    let mut names: Vec<String> = Vec::new();
                    names.push(string_of(&item));
                    assert(str_views(names@) =~= seq![item@]);
                    order.files.push(FileOrder { category: string_of(&current), names });
                    assert(file_orders_view(order.files@) =~= before.push((current@, seq![item@])));
                } else {
                    let mut entry = order.files.remove(k);
                    let ghost old_names = str_views(entry.names@);
                    entry.names.push(string_of(&item));
                    assert(str_views(entry.names@) =~= old_names.push(item@));
                    order.files.insert(k, entry);
                    assert(file_orders_view(order.files@) =~= before.update(
                        k as int,
                        (current@, before[k as int].1.push(item@)),
                    ));
                }
            }
        }
        i = i + 1;
    }
    assert(char_views(ls@).subrange(0, ls.len() as int) =~= char_views(ls@));
    order
}

/// Appends the lines of the file section of `category` to `out`.
fn push_file_section(out: &mut Vec<char>, category: &String, files: &Vec<String>)
    ensures
        final(out)@ == old(out)@ + joined(section_lines(category@, str_views(files@))),
{
    let ghost start = out@;
    out.push('\n');
    out.push('#');
    out.push('#');
    out.push('#');
    out.push(' ');
    push_str(out, category.as_str());
    out.push('\n');
    out.push('\n');
    let ghost head = seq![seq![], seq!['#', '#', '#', ' '] + category@, seq![]];
    proof {
        reveal_with_fuel(joined, 4);
        assert(head.drop_last().drop_last().drop_last() =~= Seq::<Seq<char>>::empty());
        assert(joined(head) =~= seq!['\n'] + (seq!['#', '#', '#', ' '] + category@) + seq!['\n']
            + seq!['\n']);
    }
    assert(out@ =~= start + joined(head));
    let ghost fv = str_views(files@);
    let mut i: usize = 0;
    while i < files.len()
        invariant
            i <= files.len(),
            fv == str_views(files@),
            out@ == start + joined(head + item_lines(fv.subrange(0, i as int))),
        decreases files.len() - i,
    {
        assert(fv.subrange(0, i + 1).drop_last() =~= fv.subrange(0, i as int));
        assert(fv[i as int] == files@[i as int]@);
        let ghost before = out@;
        out.push('-');
        out.push(' ');
        push_str(out, files[i].as_str());
        out.push('\n');
        let ghost l = seq!['-', ' '] + fv[i as int];
        let ghost prev = head + item_lines(fv.subrange(0, i as int));
        assert(head + item_lines(fv.subrange(0, i + 1)) =~= prev.push(l));
        assert(prev.push(l).drop_last() =~= prev);
        assert(joined(prev.push(l)) == joined(prev) + l + seq!['\n']);
        assert(out@ =~= before + l + seq!['\n']);
        i = i + 1;
    }
    assert(fv.subrange(0, files.len() as int) =~= fv);
}

/// The categories with a saved file order that the category list of `o`
/// lacks, sorted.
pub open spec fn unlisted(o: OrderView) -> Seq<Seq<char>> {
    choose|keys: Seq<Seq<char>>| unlisted_keys(keys, o.categories, o.files)
}

/// The content of the order file that holds `o`.
pub open spec fn order_text(o: OrderView) -> Seq<char> {
    joined(order_lines(o, unlisted(o)))
}

/// Joining lines one after another.
pub proof fn lemma_joined_concat(a: Seq<Seq<char>>, b: Seq<Seq<char>>)
    ensures
        joined(a + b) == joined(a) + joined(b),
    decreases b.len(),
{
    if b.len() == 0 {
        assert(a + b =~= a);
        assert(joined(a) + joined(b) =~= joined(a));
    } else {
        lemma_joined_concat(a, b.drop_last());
        assert((a + b).drop_last() =~= a + b.drop_last());
        assert((a + b).last() == b.last());
        assert(joined(a) + joined(b) =~= joined(a) + joined(b.drop_last()) + b.last() + seq!['\n']);
    }
}

proof fn lemma_joined_push(a: Seq<Seq<char>>, l: Seq<char>)
    ensures
        joined(a.push(l)) == joined(a) + l + seq!['\n'],
{
    assert(a.push(l).drop_last() =~= a);
}

proof fn lemma_sections_push(s: Seq<(Seq<char>, Seq<Seq<char>>)>, x: (Seq<char>, Seq<Seq<char>>))
    ensures
        sections_lines(s.push(x)) == sections_lines(s) + section_lines(x.0, x.1),
{
    assert(s.push(x).drop_last() =~= s);
}

proof fn lemma_sections_concat(
    a: Seq<(Seq<char>, Seq<Seq<char>>)>,
    b: Seq<(Seq<char>, Seq<Seq<char>>)>,
)
    ensures
        sections_lines(a + b) == sections_lines(a) + sections_lines(b),
    decreases b.len(),
{
    if b.len() == 0 {
        assert(a + b =~= a);
        assert(sections_lines(a) + sections_lines(b) =~= sections_lines(a));
    } else {
        lemma_sections_concat(a, b.drop_last());
        assert((a + b).drop_last() =~= a + b.drop_last());
        assert(sections_lines(a) + sections_lines(b) =~= sections_lines(a) + sections_lines(
            b.drop_last(),
        ) + section_lines(b.last().0, b.last().1));
    }
}

fn push_line(out: &mut Vec<char>, line: &str)
    ensures
        final(out)@ == old(out)@ + line@ + seq!['\n'],
{
    push_str(out, line);
    out.push('\n');
}

/// The content of the order file that holds `order`: the categories in
/// their order, then the file order of each listed category that has one,
/// then those of the other categories, sorted by name.
pub fn render_order(order: &LibraryOrder) -> (r: String)
    ensures
        r@ == order_text(order.view_order()),
{
    let ghost o = order.view_order();
    let ghost cv = o.categories;
    let ghost fv = o.files;
    let mut out: Vec<char> = Vec::new();
    push_line(&mut out, "# 排序");
    push_line(&mut out, "");
    push_line(&mut out, "本文件由摸鱼大王自动更新。");
    push_line(&mut out, "");
    push_line(&mut out, "## 分类");
    push_line(&mut out, "");
    let ghost head = seq!["# 排序"@, seq![], "本文件由摸鱼大王自动更新。"@, seq![], categories_heading(), seq![]];
    proof {
        let e = Seq::<Seq<char>>::empty();
        lemma_joined_push(e, "# 排序"@);
        lemma_joined_push(e.push("# 排序"@), seq![]);
        lemma_joined_push(e.push("# 排序"@).push(seq![]), "本文件由摸鱼大王自动更新。"@);
        lemma_joined_push(e.push("# 排序"@).push(seq![]).push("本文件由摸鱼大王自动更新。"@), seq![]);
        lemma_joined_push(e.push("# 排序"@).push(seq![]).push("本文件由摸鱼大王自动更新。"@).push(seq![]), categories_heading());
        lemma_joined_push(e.push("# 排序"@).push(seq![]).push("本文件由摸鱼大王自动更新。"@).push(seq![]).push(categories_heading()), seq![]);
        assert(e.push("# 排序"@).push(seq![]).push("本文件由摸鱼大王自动更新。"@).push(seq![]).push(categories_heading()).push(seq![]) =~= head);
        reveal_strlit("");
        assert(""@ =~= Seq::<char>::empty());
    }
    assert(out@ =~= joined(head));
    let mut i: usize = 0;
    while i < order.categories.len()
        invariant
            i <= order.categories.len(),
            cv == str_views(order.categories@),
            out@ == joined(head + item_lines(cv.subrange(0, i as int))),
        decreases order.categories.len() - i,
    {
        assert(cv.subrange(0, i + 1).drop_last() =~= cv.subrange(0, i as int));
        assert(cv[i as int] == order.categories@[i as int]@);
        let ghost prev = head + item_lines(cv.subrange(0, i as int));
        out.push('-');
        out.push(' ');
        push_line(&mut out, order.categories[i].as_str());
        proof {
            lemma_joined_push(prev, seq!['-', ' '] + cv[i as int]);
            assert(head + item_lines(cv.subrange(0, i + 1)) =~= prev.push(seq!['-', ' '] + cv[i as int]));
        }
        i = i + 1;
    }
    assert(cv.subrange(0, order.categories.len() as int) =~= cv);
    push_line(&mut out, "");
    push_line(&mut out, "## 文件");
    let ghost top = head + item_lines(cv) + seq![seq![], files_heading()];
    proof {
        let p0 = head + item_lines(cv);
        lemma_joined_push(p0, seq![]);
        lemma_joined_push(p0.push(seq![]), files_heading());
        assert(p0.push(seq![]).push(files_heading()) =~= top);
        reveal_strlit("");
        assert(""@ =~= Seq::<char>::empty());
    }
    assert(out@ =~= joined(top));
    let mut i: usize = 0;
    while i < order.categories.len()
        invariant
            i <= order.categories.len(),
            cv == str_views(order.categories@),
            fv == file_orders_view(order.files@),
            out@ == joined(top) + joined(sections_lines(listed_sections(cv.subrange(0, i as int), fv))),
        decreases order.categories.len() - i,
    {
        assert(cv.subrange(0, i + 1).drop_last() =~= cv.subrange(0, i as int));
        assert(cv[i as int] == order.categories@[i as int]@);
        let name = chars_of(order.categories[i].as_str());
        let k = find_file_order(&order.files, &name);
        proof {
            lemma_find_key_bound(fv, name@);
        }
        if k < order.files.len() {
            let ghost prev = listed_sections(cv.subrange(0, i as int), fv);
            push_file_section(&mut out, &order.categories[i], &order.files[k].names);
            proof {
                assert(fv[k as int].1 == str_views(order.files@[k as int].names@));
                lemma_sections_push(prev, (cv[i as int], fv[k as int].1));
                lemma_joined_concat(sections_lines(prev), section_lines(cv[i as int], fv[k as int].1));
            }
        }
        i = i + 1;
    }
    assert(cv.subrange(0, order.categories.len() as int) =~= cv);
    let ghost listed = listed_sections(cv, fv);
    let mut rest: Vec<String> = Vec::new();
    let mut j: usize = 0;
    while j < order.files.len()
        invariant
            j <= order.files.len(),
            cv == str_views(order.categories@),
            fv == file_orders_view(order.files@),
            strictly_sorted(str_views(rest@)),
            forall|x: Seq<char>| #[trigger] str_views(rest@).contains(x) <==> (exists|q: int| 0 <= q < j && #[trigger] fv[q].0 == x) && !cv.contains(x),
        decreases order.files.len() - j,
    {
        let key = &order.files[j].category;
        assert(fv[j as int].0 == key@);
        if !contains_text(&order.categories, key) {
            insert_sorted(&mut rest, key.clone());
        }
        assert forall|x: Seq<char>| #[trigger] str_views(rest@).contains(x) <==> (exists|q: int| 0 <= q < j + 1 && #[trigger] fv[q].0 == x) && !cv.contains(x) by {
            if x == key@ {
                assert(fv[j as int].0 == x);
            }
            if exists|q: int| 0 <= q < j + 1 && #[trigger] fv[q].0 == x {
                let q = choose|q: int| 0 <= q < j + 1 && #[trigger] fv[q].0 == x;
                if q < j {
                    assert(exists|q: int| 0 <= q < j && #[trigger] fv[q].0 == x);
                }
            }
        }
        j = j + 1;
    }
    let ghost rv = str_views(rest@);
    proof {
        assert forall|x: Seq<char>| #[trigger] rv.contains(x) <==> (find_key(fv, x) >= 0 && !cv.contains(x)) by {
            lemma_find_key_bound(fv, x);
            if exists|q: int| 0 <= q < fv.len() && #[trigger] fv[q].0 == x {
                let q = choose|q: int| 0 <= q < fv.len() && #[trigger] fv[q].0 == x;
                assert(fv[q].0 == x);
            }
            if find_key(fv, x) >= 0 {
                assert(fv[find_key(fv, x)].0 == x);
            }
        }
        assert(unlisted_keys(rv, cv, fv));
        let u = unlisted(o);
        assert(unlisted_keys(u, cv, fv));
        assert forall|x: Seq<char>| u.contains(x) <==> rv.contains(x) by {}
        lemma_sorted_unique(u, rv);
    }
    let mut m: usize = 0;
    while m < rest.len()
        invariant
            m <= rest.len(),
            rv == str_views(rest@),
            fv == file_orders_view(order.files@),
            forall|x: Seq<char>| #[trigger] rv.contains(x) ==> find_key(fv, x) >= 0,
            out@ == joined(top) + joined(sections_lines(listed)) + joined(sections_lines(keyed_sections(rv.subrange(0, m as int), fv))),
        decreases rest.len() - m,
    {
        assert(rv.subrange(0, m + 1).drop_last() =~= rv.subrange(0, m as int));
        assert(rv[m as int] == rest@[m as int]@);
        assert(rv.contains(rv[m as int]));
        let name = chars_of(rest[m].as_str());
        let k = find_file_order(&order.files, &name);
        proof {
            lemma_find_key_bound(fv, name@);
        }
        let ghost prev = keyed_sections(rv.subrange(0, m as int), fv);
        push_file_section(&mut out, &rest[m], &order.files[k].names);
        proof {
            assert(fv[k as int].1 == str_views(order.files@[k as int].names@));
            lemma_sections_push(prev, (rv[m as int], fv[k as int].1));
            lemma_joined_concat(sections_lines(prev), section_lines(rv[m as int], fv[k as int].1));
        }
        m = m + 1;
    }
    assert(rv.subrange(0, rest.len() as int) =~= rv);
    proof {
        let keyed = keyed_sections(rv, fv);
        lemma_sections_concat(listed, keyed);
        lemma_joined_concat(sections_lines(listed), sections_lines(keyed));
        lemma_joined_concat(top, sections_lines(listed + keyed));
        assert(order_lines(o, unlisted(o)) =~= top + sections_lines(listed + keyed));
    }
    string_of(&out)
}

/// `files` with the order of `key` set to `names`.
pub open spec fn set_files(
    files: Seq<(Seq<char>, Seq<Seq<char>>)>,
    key: Seq<char>,
    names: Seq<Seq<char>>,
) -> Seq<(Seq<char>, Seq<Seq<char>>)> {
    let i = find_key(files, key);
    if i < 0 {
        files.push((key, names))
    } else {
        files.update(i, (key, names))
    }
}

/// `files` without the order of `key`.
pub open spec fn without_key(files: Seq<(Seq<char>, Seq<Seq<char>>)>, key: Seq<char>) -> Seq<(Seq<char>, Seq<Seq<char>>)> {
    let i = find_key(files, key);
    if i < 0 {
        files
    } else {
        files.remove(i)
    }
}

/// The orders of `files` whose category is one of `cats`.
pub open spec fn kept_files(
    files: Seq<(Seq<char>, Seq<Seq<char>>)>,
    cats: Seq<Seq<char>>,
) -> Seq<(Seq<char>, Seq<Seq<char>>)>
    decreases files.len(),
{
    if files.len() == 0 {
        seq![]
    } else {
        let rest = kept_files(files.drop_last(), cats);
        if cats.contains(files.last().0) {
            rest.push(files.last())
        } else {
            rest
        }
    }
}

/// `names` with every `from` turned into `to`.
pub open spec fn renamed(names: Seq<Seq<char>>, from: Seq<char>, to: Seq<char>) -> Seq<Seq<char>> {
    names.map_values(|n: Seq<char>| if n == from { to } else { n })
}

/// A copy of `v`.
pub fn copy_names(v: &Vec<String>) -> (r: Vec<String>)
    ensures
        str_views(r@) == str_views(v@),
{
    let mut r: Vec<String> = Vec::new();
    let mut i: usize = 0;
    while i < v.len()
        invariant
            i <= v.len(),
            str_views(r@) == str_views(v@).subrange(0, i as int),
        decreases v.len() - i,
    {
        let ghost before = str_views(r@);
        let x = v[i].clone();
        assert(x@ == str_views(v@)[i as int]);
        r.push(x);
        assert(str_views(r@) =~= before.push(x@));
        assert(str_views(r@) =~= str_views(v@).subrange(0, i + 1));
        i = i + 1;
    }
    assert(str_views(v@).subrange(0, v.len() as int) =~= str_views(v@));
    r
}

/// `names` with every `from` turned into `to`.
pub fn rename_names(names: &mut Vec<String>, from: &String, to: &String)
    ensures
        str_views(final(names)@) == renamed(str_views(old(names)@), from@, to@),
{
    let ghost start = str_views(names@);
    let mut i: usize = 0;
    while i < names.len()
        invariant
            i <= names.len(),
            start.len() == names.len(),
            forall|k: int| 0 <= k < i ==> str_views(names@)[k] == (if start[k] == from@ { to@ } else { start[k] }),
            forall|k: int| i <= k < names.len() ==> str_views(names@)[k] == start[k],
        decreases names.len() - i,
    {
        if names[i] == *from {
            let ghost before = names@;
            names.set(i, to.clone());
            assert(str_views(names@) =~= str_views(before).update(i as int, to@));
        }
        i = i + 1;
    }
    assert(str_views(names@) =~= renamed(start, from@, to@));
}

impl LibraryOrder {
    /// Sets the file order of `key` to `names`.
    pub fn set_files(&mut self, key: &String, names: Vec<String>)
        ensures
            final(self).view_order() == (OrderView {
                categories: old(self).view_order().categories,
                files: set_files(old(self).view_order().files, key@, str_views(names@)),
            }),
    {
        let ghost before = file_orders_view(self.files@);
        let kc = chars_of(key.as_str());
        let k = find_file_order(&self.files, &kc);
        proof {
            lemma_find_key_bound(before, key@);
        }
        let entry = FileOrder { category: key.clone(), names };
        if k < self.files.len() {
            self.files.remove(k);
            self.files.insert(k, entry);
            assert(file_orders_view(self.files@) =~= set_files(before, key@, str_views(entry.names@)));
        } else {
            self.files.push(entry);
            assert(file_orders_view(self.files@) =~= set_files(before, key@, str_views(entry.names@)));
        }
    }

    /// Takes out the file order of `key`, if there is one.
    pub fn remove_files(&mut self, key: &String) -> (r: Option<Vec<String>>)
        ensures
            final(self).view_order() == (OrderView {
                categories: old(self).view_order().categories,
                files: without_key(old(self).view_order().files, key@),
            }),
            match r {
                Some(v) => lookup(old(self).view_order().files, key@) == Some(str_views(v@)),
                None => lookup(old(self).view_order().files, key@) is None,
            },
    {
        let ghost before = file_orders_view(self.files@);
        let kc = chars_of(key.as_str());
        let k = find_file_order(&self.files, &kc);
        proof {
            lemma_find_key_bound(before, key@);
        }
        if k < self.files.len() {
            let e = self.files.remove(k);
            assert(file_orders_view(self.files@) =~= before.remove(k as int));
            Some(e.names)
        } else {
            None
        }
    }

    /// Keeps only the file orders of the categories `cats`.
    pub fn keep_files(&mut self, cats: &Vec<String>)
        ensures
            final(self).view_order() == (OrderView {
                categories: old(self).view_order().categories,
                files: kept_files(old(self).view_order().files, str_views(cats@)),
            }),
    {
        let ghost before = file_orders_view(self.files@);
        let mut kept: Vec<FileOrder> = Vec::new();
        let mut i: usize = 0;
        while i < self.files.len()
            invariant
                i <= self.files.len(),
                before == file_orders_view(self.files@),
                file_orders_view(kept@) == kept_files(before.subrange(0, i as int), str_views(cats@)),
            decreases self.files.len() - i,
        {
            assert(before.subrange(0, i + 1).drop_last() =~= before.subrange(0, i as int));
            assert(before[i as int] == (self.files@[i as int].category@, str_views(self.files@[i as int].names@)));
            if contains_text(cats, &self.files[i].category) {
                let ghost b = file_orders_view(kept@);
                let e = FileOrder { category: self.files[i].category.clone(), names: copy_names(&self.files[i].names) };
                kept.push(e);
                assert(file_orders_view(kept@) =~= b.push(before[i as int]));
            }
            i = i + 1;
        }
        assert(before.subrange(0, self.files.len() as int) =~= before);
        self.files = kept;
    }

    /// In the file order of `key`, turns every `from` into `to`.
    pub fn rename_in_files(&mut self, key: &String, from: &String, to: &String)
        ensures
            final(self).view_order() == (OrderView {
                categories: old(self).view_order().categories,
                files: if find_key(old(self).view_order().files, key@) < 0 {
                    old(self).view_order().files
                } else {
                    old(self).view_order().files.update(
                        find_key(old(self).view_order().files, key@),
                        (key@, renamed(old(self).view_order().files[find_key(old(self).view_order().files, key@)].1, from@, to@)),
                    )
                },
            }),
    {
        let ghost before = file_orders_view(self.files@);
        let kc = chars_of(key.as_str());
        let k = find_file_order(&self.files, &kc);
        proof {
            lemma_find_key_bound(before, key@);
        }
        if k < self.files.len() {
            let mut e = self.files.remove(k);
            rename_names(&mut e.names, from, to);
            self.files.insert(k, e);
            assert(file_orders_view(self.files@) =~= before.update(k as int, (key@, renamed(before[k as int].1, from@, to@))));
        }
    }
}

/// Adding a file order, or a name to one, keeps the categories different.
proof fn lemma_read_line_distinct(st: OrderReading, raw: Seq<char>)
    requires
        distinct_keys(st.order.files),
    ensures
        distinct_keys(read_order_line(st, raw).order.files),
{
    let f = st.order.files;
    let f2 = read_order_line(st, raw).order.files;
    if f2 != f {
        let line = trim_end(raw);
        let key = if has_prefix(line, seq!['#', '#', '#', ' ']) {
            trim(line.subrange(4, line.len() as int))
        } else {
            st.current
        };
        lemma_find_key_bound(f, key);
        assert forall|i: int, j: int| 0 <= i < j < f2.len() implies #[trigger] f2[i].0 != #[trigger] f2[j].0 by {
            if j < f.len() {
                assert(f2[i].0 == f[i].0 && f2[j].0 == f[j].0);
            } else {
                assert(f2[i].0 == f[i].0);
            }
        }
    }
}

proof fn lemma_read_lines_distinct(ls: Seq<Seq<char>>)
    ensures
        distinct_keys(read_order_lines(ls).order.files),
    decreases ls.len(),
{
    if ls.len() > 0 {
        lemma_read_lines_distinct(ls.drop_last());
        lemma_read_line_distinct(read_order_lines(ls.drop_last()), ls.last());
    }
}

/// An order read from a file lists each category's file order once.
pub proof fn lemma_parsed_distinct(raw: Seq<char>)
    ensures
        distinct_keys(parsed_order(raw).files),
{
    lemma_read_lines_distinct(lines(normalized(raw)));
}

} // verus!
