//! Reading an order file back: what `order_text` writes, `parsed_order`
//! reads as the same order.
use vstd::prelude::*;
use crate::arrange::{lemma_less_irreflexive, lemma_sorted_insert, lower_bound, strictly_sorted};
use crate::notes::{lemma_normalized_plain, normalized};
use crate::order::{
    categories_heading, distinct_keys, files_heading, find_key, item_lines, joined, keyed_sections,
    lemma_find_key_bound, lemma_joined_concat, listed_sections, lookup, order_lines, order_text,
    parsed_order, read_order_line, read_order_lines, section_lines, sections_lines, unlisted, unlisted_keys,
    with_item, with_key, OrderReading, OrderView,
};
use crate::text::{has_prefix, is_space, lacks, trim, trim_end};
use crate::todos::{line_state, lines, lemma_line_state_line, lemma_trim_fixed};

verus! {

/// Whether `n` can stand on an item line of the order file and be read back
/// as it is: not empty, on one line, not ending in white space.
pub open spec fn storable_name(n: Seq<char>) -> bool {
    &&& n.len() > 0
    &&& lacks(n, '\n')
    &&& lacks(n, '\r')
    &&& !is_space(n.last())
}

/// Whether `k` can head a file section and be read back as it is: a
/// storable name that does not begin with white space either.
pub open spec fn storable_key(k: Seq<char>) -> bool {
    storable_name(k) && !is_space(k[0])
}

/// Whether every name of `names` is storable.
pub open spec fn all_storable(names: Seq<Seq<char>>) -> bool {
    forall|i: int| 0 <= i < names.len() ==> storable_name(#[trigger] names[i])
}

/// Whether every file order of `files` can be written and read back.
pub open spec fn storable_files(files: Seq<(Seq<char>, Seq<Seq<char>>)>) -> bool {
    forall|i: int| 0 <= i < files.len() ==> storable_key(#[trigger] files[i].0) && all_storable(files[i].1)
}

/// Whether the order `o` can be written and read back: its categories are
/// storable and each listed once, and so are its file orders.
pub open spec fn storable_order(o: OrderView) -> bool {
    &&& o.categories.no_duplicates()
    &&& all_storable(o.categories)
    &&& storable_files(o.files)
}

/// Whether two lists of file orders give every category the same file order.
pub open spec fn same_file_orders(a: Seq<(Seq<char>, Seq<Seq<char>>)>, b: Seq<(Seq<char>, Seq<Seq<char>>)>) -> bool {
    forall|k: Seq<char>| #[trigger] lookup(a, k) == lookup(b, k)
}

/// The reading before any line.
pub open spec fn start_reading() -> OrderReading {
    OrderReading { section: 0, current: seq![], order: OrderView { categories: seq![], files: seq![] } }
}

/// The reading after the lines `ls`, from the reading `st`.
pub open spec fn read_on(st: OrderReading, ls: Seq<Seq<char>>) -> OrderReading
    decreases ls.len(),
{
    if ls.len() == 0 {
        st
    } else {
        read_order_line(read_on(st, ls.drop_last()), ls.last())
    }
}

proof fn lemma_read_on_start(ls: Seq<Seq<char>>)
    ensures
        read_order_lines(ls) == read_on(start_reading(), ls),
    decreases ls.len(),
{
    if ls.len() > 0 {
        lemma_read_on_start(ls.drop_last());
    }
}

proof fn lemma_read_on_concat(st: OrderReading, a: Seq<Seq<char>>, b: Seq<Seq<char>>)
    ensures
        read_on(st, a + b) == read_on(read_on(st, a), b),
    decreases b.len(),
{
    if b.len() == 0 {
        assert(a + b =~= a);
    } else {
        lemma_read_on_concat(st, a, b.drop_last());
        assert((a + b).drop_last() =~= a + b.drop_last());
        assert((a + b).last() == b.last());
    }
}

/// A line that says nothing to the reader leaves the reading as it is.
proof fn lemma_plain_line(st: OrderReading, l: Seq<char>)
    requires
        l.len() == 0 || (l[0] != '#' && l[0] != '-') || l == "# 排序"@,
    ensures
        read_order_line(st, l) == st,
{
    reveal_strlit("## 分类");
    reveal_strlit("## 文件");
    reveal_strlit("# 排序");
    let t = trim_end(l);
    lemma_trim_end_prefix_of(l);
    if t.len() > 0 {
        assert(t[0] == l[0]);
    }
    if l == "# 排序"@ {
        assert(!is_space(l.last()));
        assert(t == l);
        assert(t != categories_heading());
        assert(t != files_heading());
        assert(!has_prefix(t, seq!['#', '#', '#', ' '])) by {
            assert(t.subrange(0, 4)[1] == ' ');
        }
        assert(!has_prefix(t, seq!['-', ' '])) by {
            assert(t.subrange(0, 2)[0] == '#');
        }
    } else if t.len() > 0 {
        assert(t != categories_heading()) by {
            assert(categories_heading()[0] == '#');
        }
        assert(t != files_heading()) by {
            assert(files_heading()[0] == '#');
        }
        assert(!has_prefix(t, seq!['#', '#', '#', ' '])) by {
            if t.len() >= 4 {
                assert(t.subrange(0, 4)[0] == t[0]);
            }
        }
        assert(!has_prefix(t, seq!['-', ' '])) by {
            if t.len() >= 2 {
                assert(t.subrange(0, 2)[0] == t[0]);
            }
        }
    } else {
        assert(t != categories_heading());
        assert(t != files_heading());
    }
}

proof fn lemma_trim_end_prefix_of(s: Seq<char>)
    ensures
        trim_end(s).len() <= s.len(),
        trim_end(s) == s.subrange(0, trim_end(s).len() as int),
    decreases s.len(),
{
    if s.len() > 0 && is_space(s.last()) {
        lemma_trim_end_prefix_of(s.drop_last());
        let t = trim_end(s.drop_last());
        assert(s.drop_last().subrange(0, t.len() as int) =~= s.subrange(0, t.len() as int));
    } else {
        assert(s.subrange(0, s.len() as int) =~= s);
    }
}

/// What the reader sees of the line `- n`.
proof fn lemma_item_line(n: Seq<char>)
    requires
        storable_name(n),
    ensures
        trim_end(seq!['-', ' '] + n) == seq!['-', ' '] + n,
        seq!['-', ' '] + n != categories_heading(),
        seq!['-', ' '] + n != files_heading(),
        !has_prefix(seq!['-', ' '] + n, seq!['#', '#', '#', ' ']),
        has_prefix(seq!['-', ' '] + n, seq!['-', ' ']),
        (seq!['-', ' '] + n).len() > 2,
        (seq!['-', ' '] + n).subrange(2, (seq!['-', ' '] + n).len() as int) == n,
{
    reveal_strlit("## 分类");
    reveal_strlit("## 文件");
    let l = seq!['-', ' '] + n;
    assert(l.last() == n.last());
    assert(l[0] == '-');
    assert(categories_heading()[0] == '#');
    assert(files_heading()[0] == '#');
    if l.len() >= 4 {
        assert(l.subrange(0, 4)[0] == '-');
    }
    assert(l.subrange(0, 2) =~= seq!['-', ' ']);
    assert(l.subrange(2, l.len() as int) =~= n);
}

/// Reading the item lines of `ns` in the category section adds them to the
/// categories.
proof fn lemma_read_category_items(st: OrderReading, ns: Seq<Seq<char>>)
    requires
        st.section == 1,
        all_storable(ns),
    ensures
        read_on(st, item_lines(ns)) == (OrderReading {
            section: 1,
            current: st.current,
            order: OrderView { categories: st.order.categories + ns, files: st.order.files },
        }),
    decreases ns.len(),
{
    if ns.len() == 0 {
        assert(st.order.categories + ns =~= st.order.categories);
    } else {
        let init = ns.drop_last();
        assert(all_storable(init)) by {
            assert forall|i: int| 0 <= i < init.len() implies storable_name(#[trigger] init[i]) by {
                assert(init[i] == ns[i]);
            }
        }
        lemma_read_category_items(st, init);
        let l = seq!['-', ' '] + ns.last();
        assert(item_lines(ns) == item_lines(init).push(l));
        assert(item_lines(init).push(l).drop_last() =~= item_lines(init));
        assert(storable_name(ns[ns.len() - 1]));
        lemma_item_line(ns.last());
        assert(st.order.categories + init + seq![ns.last()] =~= st.order.categories + ns);
        assert(st.order.categories + init.push(ns.last()) =~= st.order.categories + ns);
    }
}

/// Reading the item lines of `ns` in the section of `k` adds them to the
/// file order of `k`, the last one read.
proof fn lemma_read_file_items(
    st: OrderReading,
    g: Seq<(Seq<char>, Seq<Seq<char>>)>,
    k: Seq<char>,
    ms: Seq<Seq<char>>,
    ns: Seq<Seq<char>>,
)
    requires
        st.section == 2,
        st.current == k,
        k.len() > 0,
        st.order.files == g.push((k, ms)),
        find_key(g, k) < 0,
        all_storable(ns),
    ensures
        read_on(st, item_lines(ns)) == (OrderReading {
            section: 2,
            current: k,
            order: OrderView { categories: st.order.categories, files: g.push((k, ms + ns)) },
        }),
    decreases ns.len(),
{
    if ns.len() == 0 {
        assert(ms + ns =~= ms);
    } else {
        let init = ns.drop_last();
        assert(all_storable(init)) by {
            assert forall|i: int| 0 <= i < init.len() implies storable_name(#[trigger] init[i]) by {
                assert(init[i] == ns[i]);
            }
        }
        lemma_read_file_items(st, g, k, ms, init);
        let l = seq!['-', ' '] + ns.last();
        assert(item_lines(ns) == item_lines(init).push(l));
        assert(item_lines(init).push(l).drop_last() =~= item_lines(init));
        assert(storable_name(ns[ns.len() - 1]));
        lemma_item_line(ns.last());
        let f = g.push((k, ms + init));
        assert(f.drop_last() =~= g);
        assert(find_key(f, k) == g.len());
        assert(with_item(f, k, ns.last()) =~= g.push((k, ms + ns))) by {
            assert((ms + init).push(ns.last()) =~= ms + ns);
        }
    }
}

/// The index of `k` in file orders that do not hold it is -1.
proof fn lemma_find_key_absent(files: Seq<(Seq<char>, Seq<Seq<char>>)>, k: Seq<char>)
    requires
        forall|i: int| 0 <= i < files.len() ==> #[trigger] files[i].0 != k,
    ensures
        find_key(files, k) < 0,
{
    lemma_find_key_bound(files, k);
}

/// Reading the file section of `k` adds the file order of `k`.
proof fn lemma_read_section(st: OrderReading, k: Seq<char>, ns: Seq<Seq<char>>)
    requires
        st.section == 2,
        storable_key(k),
        all_storable(ns),
        find_key(st.order.files, k) < 0,
    ensures
        read_on(st, section_lines(k, ns)) == (OrderReading {
            section: 2,
            current: k,
            order: OrderView { categories: st.order.categories, files: st.order.files.push((k, ns)) },
        }),
{
    reveal_strlit("## 分类");
    reveal_strlit("## 文件");
    let e: Seq<char> = seq![];
    let h = seq!['#', '#', '#', ' '] + k;
    let head = seq![e, h, e];
    assert(section_lines(k, ns) == head + item_lines(ns));
    lemma_read_on_concat(st, head, item_lines(ns));
    lemma_plain_line(st, e);
    assert(h.last() == k.last());
    assert(trim_end(h) == h);
    assert(h[2] == '#');
    assert(categories_heading()[2] == ' ');
    assert(files_heading()[2] == ' ');
    assert(h != categories_heading());
    assert(h != files_heading());
    assert(h.subrange(0, 4) =~= seq!['#', '#', '#', ' ']);
    assert(h.subrange(4, h.len() as int) =~= k);
    lemma_trim_fixed(k);
    assert(trim(k) == k);
    let st2 = OrderReading {
        section: 2,
        current: k,
        order: OrderView { categories: st.order.categories, files: with_key(st.order.files, k) },
    };
    assert(read_order_line(st, h) == st2);
    lemma_plain_line(st2, e);
    assert(read_on(st, head) == st2) by {
        reveal_with_fuel(read_on, 4);
        assert(head.drop_last() =~= seq![e, h]);
        assert(seq![e, h].drop_last() =~= seq![e]);
        assert(seq![e].drop_last() =~= Seq::<Seq<char>>::empty());
    }
    assert(with_key(st.order.files, k) == st.order.files.push((k, Seq::<Seq<char>>::empty())));
    lemma_read_file_items(st2, st.order.files, k, seq![], ns);
    assert(Seq::<Seq<char>>::empty() + ns =~= ns);
}

/// Reading the file sections of `s`, with categories that differ from
/// each other and from those read before, adds their file orders.
proof fn lemma_read_sections(st: OrderReading, s: Seq<(Seq<char>, Seq<Seq<char>>)>)
    requires
        st.section == 2,
        storable_files(s),
        distinct_keys(s),
        forall|i: int| 0 <= i < s.len() ==> find_key(st.order.files, #[trigger] s[i].0) < 0,
    ensures
        read_on(st, sections_lines(s)).section == 2,
        read_on(st, sections_lines(s)).order == (OrderView { categories: st.order.categories, files: st.order.files + s }),
    decreases s.len(),
{
    if s.len() == 0 {
        assert(st.order.files + s =~= st.order.files);
    } else {
        let init = s.drop_last();
        let x = s.last();
        assert(storable_files(init)) by {
            assert forall|i: int| 0 <= i < init.len() implies storable_key(#[trigger] init[i].0) && all_storable(init[i].1) by {
                assert(init[i] == s[i]);
            }
        }
        assert forall|i: int| 0 <= i < init.len() implies find_key(st.order.files, #[trigger] init[i].0) < 0 by {
            assert(init[i] == s[i]);
        }
        lemma_read_sections(st, init);
        lemma_read_on_concat(st, sections_lines(init), section_lines(x.0, x.1));
        let mid = read_on(st, sections_lines(init));
        let n = s.len() - 1;
        assert(storable_key(s[n].0) && all_storable(s[n].1));
        assert(find_key(st.order.files, s[n].0) < 0);
        lemma_find_key_bound(st.order.files, x.0);
        assert forall|i: int| 0 <= i < mid.order.files.len() implies #[trigger] mid.order.files[i].0 != x.0 by {
            if i < st.order.files.len() {
                assert(mid.order.files[i] == st.order.files[i]);
            } else {
                assert(mid.order.files[i] == s[i - st.order.files.len()]);
                assert(s[i - st.order.files.len()].0 != s[n].0);
            }
        }
        lemma_find_key_absent(mid.order.files, x.0);
        lemma_read_section(mid, x.0, x.1);
        assert(st.order.files + init + seq![x] =~= st.order.files + s);
        assert((st.order.files + init).push(x) =~= st.order.files + s);
    }
}

/// Each line of `ls` is followed by a line break: the lines of the text are
/// the lines again.
proof fn lemma_lines_joined(ls: Seq<Seq<char>>)
    requires
        forall|i: int| 0 <= i < ls.len() ==> lacks(#[trigger] ls[i], '\n'),
    ensures
        line_state(joined(ls)) == (ls, Seq::<char>::empty()),
        lines(joined(ls)) == ls,
    decreases ls.len(),
{
    if ls.len() == 0 {
        assert(line_state(Seq::<char>::empty()) == (Seq::<Seq<char>>::empty(), Seq::<char>::empty()));
    } else {
        let init = ls.drop_last();
        assert forall|i: int| 0 <= i < init.len() implies lacks(#[trigger] init[i], '\n') by {
            assert(init[i] == ls[i]);
        }
        lemma_lines_joined(init);
        assert(lacks(ls[ls.len() - 1], '\n'));
        lemma_line_state_line(joined(init), ls.last());
        assert(init.push(ls.last()) =~= ls);
    }
}

/// A text made of lines without `c` has no `c` but its line breaks.
proof fn lemma_joined_lacks(ls: Seq<Seq<char>>, c: char)
    requires
        c != '\n',
        forall|i: int| 0 <= i < ls.len() ==> lacks(#[trigger] ls[i], c),
    ensures
        lacks(joined(ls), c),
    decreases ls.len(),
{
    if ls.len() > 0 {
        let init = ls.drop_last();
        assert forall|i: int| 0 <= i < init.len() implies lacks(#[trigger] init[i], c) by {
            assert(init[i] == ls[i]);
        }
        lemma_joined_lacks(init, c);
        let a = joined(init);
        let l = ls.last();
        assert(lacks(ls[ls.len() - 1], c));
        let t = a + l + seq!['\n'];
        assert forall|i: int| 0 <= i < t.len() implies t[i] != c by {
            if i < a.len() {
                assert(t[i] == a[i]);
            } else if i < a.len() + l.len() {
                assert(t[i] == l[i - a.len()]);
            }
        }
    }
}

/// The file orders that `listed_sections` picks: each entry is a category
/// of `cats` with its file order, and every such category with a file
/// order has an entry.
proof fn lemma_listed(cats: Seq<Seq<char>>, files: Seq<(Seq<char>, Seq<Seq<char>>)>)
    ensures
        forall|i: int| 0 <= i < listed_sections(cats, files).len() ==> cats.contains(#[trigger] listed_sections(cats, files)[i].0)
            && lookup(files, listed_sections(cats, files)[i].0) == Some(listed_sections(cats, files)[i].1),
        forall|c: Seq<char>| #![trigger cats.contains(c), lookup(files, c)] cats.contains(c) && lookup(files, c) is Some ==>
            exists|i: int| 0 <= i < listed_sections(cats, files).len() && #[trigger] listed_sections(cats, files)[i].0 == c,
        cats.no_duplicates() ==> distinct_keys(listed_sections(cats, files)),
    decreases cats.len(),
{
    let l = listed_sections(cats, files);
    if cats.len() > 0 {
        let init = cats.drop_last();
        let c = cats.last();
        let r = listed_sections(init, files);
        lemma_listed(init, files);
        assert forall|x: Seq<char>| init.contains(x) implies cats.contains(x) by {
            let q = choose|q: int| 0 <= q < init.len() && init[q] == x;
            assert(cats[q] == x);
        }
        assert forall|i: int| 0 <= i < l.len() implies cats.contains(#[trigger] l[i].0) && lookup(files, l[i].0) == Some(l[i].1) by {
            if i < r.len() {
                assert(l[i] == r[i]);
                assert(init.contains(r[i].0));
            } else {
                assert(cats[cats.len() - 1] == c);
            }
        }
        assert forall|x: Seq<char>| #![trigger cats.contains(x), lookup(files, x)] cats.contains(x) && lookup(files, x) is Some implies
            exists|i: int| 0 <= i < l.len() && #[trigger] l[i].0 == x by {
            let q = choose|q: int| 0 <= q < cats.len() && cats[q] == x;
            if q < cats.len() - 1 {
                assert(init[q] == x);
                assert(init.contains(x));
                let i = choose|i: int| 0 <= i < r.len() && #[trigger] r[i].0 == x;
                assert(l[i] == r[i]);
            } else {
                assert(l[r.len() as int].0 == x);
            }
        }
        if cats.no_duplicates() {
            assert(init.no_duplicates()) by {
                assert forall|i: int, j: int| 0 <= i < init.len() && 0 <= j < init.len() && i != j implies init[i] != init[j] by {
                    assert(init[i] == cats[i] && init[j] == cats[j]);
                }
            }
            assert(!init.contains(c)) by {
                if init.contains(c) {
                    let q = choose|q: int| 0 <= q < init.len() && init[q] == c;
                    assert(cats[q] == cats[cats.len() - 1]);
                }
            }
            assert forall|i: int, j: int| 0 <= i < j < l.len() implies #[trigger] l[i].0 != #[trigger] l[j].0 by {
                if j < r.len() {
                    assert(l[i] == r[i] && l[j] == r[j]);
                } else {
                    assert(l[i] == r[i]);
                    assert(init.contains(r[i].0));
                }
            }
        }
    }
}

/// The file orders that `keyed_sections` picks.
proof fn lemma_keyed(keys: Seq<Seq<char>>, files: Seq<(Seq<char>, Seq<Seq<char>>)>)
    ensures
        keyed_sections(keys, files).len() == keys.len(),
        forall|i: int| 0 <= i < keys.len() ==> #[trigger] keyed_sections(keys, files)[i] == (keys[i], files[find_key(files, keys[i])].1),
    decreases keys.len(),
{
    if keys.len() > 0 {
        lemma_keyed(keys.drop_last(), files);
        let k = keyed_sections(keys, files);
        assert forall|i: int| 0 <= i < keys.len() implies #[trigger] k[i] == (keys[i], files[find_key(files, keys[i])].1) by {
            if i < keys.len() - 1 {
                assert(keys.drop_last()[i] == keys[i]);
            }
        }
    }
}

/// Some list of the categories with a file order that the category list
/// lacks is sorted.
pub proof fn lemma_unlisted_exists(cats: Seq<Seq<char>>, files: Seq<(Seq<char>, Seq<Seq<char>>)>)
    ensures
        exists|keys: Seq<Seq<char>>| unlisted_keys(keys, cats, files),
    decreases files.len(),
{
    if files.len() == 0 {
        let e: Seq<Seq<char>> = seq![];
        assert(unlisted_keys(e, cats, files));
    } else {
        let init = files.drop_last();
        let x = files.last().0;
        lemma_unlisted_exists(cats, init);
        let k0 = choose|keys: Seq<Seq<char>>| unlisted_keys(keys, cats, init);
        assert forall|k: Seq<char>| (find_key(files, k) >= 0) <==> (k == x || find_key(init, k) >= 0) by {
            lemma_find_key_bound(init, k);
        }
        if cats.contains(x) || k0.contains(x) {
            assert(unlisted_keys(k0, cats, files));
        } else {
            lemma_sorted_insert(k0, x);
            let k1 = k0.insert(lower_bound(k0, x), x);
            assert(unlisted_keys(k1, cats, files));
        }
    }
}

/// The file sections of an order file, in the order they are written.
pub open spec fn order_sections(o: OrderView) -> Seq<(Seq<char>, Seq<Seq<char>>)> {
    listed_sections(o.categories, o.files) + keyed_sections(unlisted(o), o.files)
}

/// The file sections hold each category once, with its own file order.
proof fn lemma_order_sections(o: OrderView)
    requires
        storable_order(o),
    ensures
        unlisted_keys(unlisted(o), o.categories, o.files),
        storable_files(order_sections(o)),
        distinct_keys(order_sections(o)),
        same_file_orders(order_sections(o), o.files),
{
    let cats = o.categories;
    let files = o.files;
    lemma_unlisted_exists(cats, files);
    let u = unlisted(o);
    assert(unlisted_keys(u, cats, files));
    let listed = listed_sections(cats, files);
    let keyed = keyed_sections(u, files);
    let s = order_sections(o);
    lemma_listed(cats, files);
    lemma_keyed(u, files);
    assert forall|i: int| 0 <= i < s.len() implies find_key(files, #[trigger] s[i].0) >= 0
        && s[i] == (s[i].0, files[find_key(files, s[i].0)].1) by {
        lemma_find_key_bound(files, s[i].0);
        if i < listed.len() {
            assert(s[i] == listed[i]);
        } else {
            assert(s[i] == keyed[i - listed.len()]);
            assert(u.contains(u[i - listed.len()]));
        }
    }
    assert(storable_files(s)) by {
        assert forall|i: int| 0 <= i < s.len() implies storable_key(#[trigger] s[i].0) && all_storable(s[i].1) by {
            let q = find_key(files, s[i].0);
            lemma_find_key_bound(files, s[i].0);
            assert(storable_key(files[q].0) && all_storable(files[q].1));
        }
    }
    assert(distinct_keys(s)) by {
        assert forall|i: int, j: int| 0 <= i < j < s.len() implies #[trigger] s[i].0 != #[trigger] s[j].0 by {
            if j < listed.len() {
                assert(s[i] == listed[i] && s[j] == listed[j]);
            } else if i < listed.len() {
                assert(s[i] == listed[i]);
                assert(cats.contains(listed[i].0));
                assert(s[j].0 == u[j - listed.len()]);
                assert(u.contains(u[j - listed.len()]));
            } else {
                assert(s[i].0 == u[i - listed.len()] && s[j].0 == u[j - listed.len()]);
                assert(crate::arrange::text_less(u[i - listed.len()], u[j - listed.len()]));
                lemma_less_irreflexive(u[i - listed.len()]);
            }
        }
    }
    assert forall|k: Seq<char>| #[trigger] lookup(s, k) == lookup(files, k) by {
        lemma_find_key_bound(files, k);
        lemma_find_key_bound(s, k);
        if find_key(s, k) >= 0 {
            let i = find_key(s, k);
            assert(s[i].0 == k);
        } else if find_key(files, k) >= 0 {
            if cats.contains(k) {
                let i = choose|i: int| 0 <= i < listed.len() && #[trigger] listed[i].0 == k;
                assert(s[i].0 == k);
            } else {
                assert(u.contains(k));
                let m = choose|m: int| 0 <= m < u.len() && u[m] == k;
                assert(s[listed.len() + m].0 == k);
            }
        }
    }
}

/// Reading the order file of `o` gives its categories and its file
/// sections.
proof fn lemma_order_reading(o: OrderView)
    requires
        storable_order(o),
    ensures
        parsed_order(order_text(o)) == (OrderView { categories: o.categories, files: order_sections(o) }),
        normalized(order_text(o)) == order_text(o),
{
    reveal_strlit("# 排序");
    reveal_strlit("本文件由摸鱼大王自动更新。");
    reveal_strlit("## 分类");
    reveal_strlit("## 文件");
    lemma_order_sections(o);
    let cats = o.categories;
    let u = unlisted(o);
    let s = order_sections(o);
    let e: Seq<char> = seq![];
    let head = seq!["# 排序"@, e, "本文件由摸鱼大王自动更新。"@, e, categories_heading(), e];
    let mid = seq![e, files_heading()];
    let ls = order_lines(o, u);
    assert(ls == head + item_lines(cats) + mid + sections_lines(s));
    lemma_lines_plain(o, u, s);
    assert forall|i: int| 0 <= i < ls.len() implies lacks(#[trigger] ls[i], '\n') by {}
    assert forall|i: int| 0 <= i < ls.len() implies lacks(#[trigger] ls[i], '\r') by {}
    lemma_lines_joined(ls);
    lemma_joined_lacks(ls, '\r');
    let text = joined(ls);
    assert(text[0] == '#') by {
        let first = seq!["# 排序"@];
        assert(ls =~= first + ls.drop_first());
        lemma_joined_concat(first, ls.drop_first());
        reveal_with_fuel(joined, 2);
        assert(first.drop_last() =~= Seq::<Seq<char>>::empty());
        assert(joined(first) =~= "# 排序"@ + seq!['\n']);
    }
    lemma_normalized_plain(text);
    lemma_read_on_start(ls);
    let st0 = start_reading();
    lemma_read_on_concat(st0, head + item_lines(cats) + mid, sections_lines(s));
    lemma_read_on_concat(st0, head + item_lines(cats), mid);
    lemma_read_on_concat(st0, head, item_lines(cats));
    let st1 = OrderReading { section: 1, current: e, order: st0.order };
    assert(read_on(st0, head) == st1) by {
        lemma_plain_line(st0, "# 排序"@);
        lemma_plain_line(st0, e);
        lemma_plain_line(st0, "本文件由摸鱼大王自动更新。"@);
        assert(trim_end(categories_heading()) == categories_heading()) by {
            assert(!is_space(categories_heading().last()));
        }
        lemma_plain_line(st1, e);
        reveal_with_fuel(read_on, 7);
    }
    lemma_read_category_items(st1, cats);
    let st2 = read_on(st1, item_lines(cats));
    assert(st0.order.categories + cats =~= cats);
    let st3 = OrderReading { section: 2, current: e, order: OrderView { categories: cats, files: seq![] } };
    assert(read_on(st2, mid) == st3) by {
        lemma_plain_line(st2, e);
        assert(trim_end(files_heading()) == files_heading()) by {
            assert(!is_space(files_heading().last()));
        }
        assert(files_heading() != categories_heading());
        reveal_with_fuel(read_on, 3);
    }
    assert forall|i: int| 0 <= i < s.len() implies find_key(st3.order.files, #[trigger] s[i].0) < 0 by {}
    lemma_read_sections(st3, s);
    assert(Seq::<(Seq<char>, Seq<Seq<char>>)>::empty() + s =~= s);
}

/// An order written to the order file reads back as the same order: the
/// same categories in the same order, and the same file order for every
/// category.
pub proof fn lemma_order_roundtrip(o: OrderView)
    requires
        storable_order(o),
    ensures
        parsed_order(order_text(o)).categories == o.categories,
        same_file_orders(parsed_order(order_text(o)).files, o.files),
        storable_files(parsed_order(order_text(o)).files),
        normalized(order_text(o)) == order_text(o),
{
    lemma_order_sections(o);
    lemma_order_reading(o);
}

/// Whether no line of `ls` holds a line break.
pub open spec fn plain_lines(ls: Seq<Seq<char>>) -> bool {
    forall|i: int| 0 <= i < ls.len() ==> lacks(#[trigger] ls[i], '\n') && lacks(ls[i], '\r')
}

proof fn lemma_plain_concat(a: Seq<Seq<char>>, b: Seq<Seq<char>>)
    requires
        plain_lines(a),
        plain_lines(b),
    ensures
        plain_lines(a + b),
{
    assert forall|i: int| 0 <= i < (a + b).len() implies lacks(#[trigger] (a + b)[i], '\n') && lacks((a + b)[i], '\r') by {
        if i < a.len() {
            assert((a + b)[i] == a[i]);
        } else {
            assert((a + b)[i] == b[i - a.len()]);
        }
    }
}

proof fn lemma_prefixed_plain(p: Seq<char>, n: Seq<char>)
    requires
        lacks(p, '\n') && lacks(p, '\r'),
        lacks(n, '\n') && lacks(n, '\r'),
    ensures
        lacks(p + n, '\n') && lacks(p + n, '\r'),
{
    assert forall|i: int| 0 <= i < (p + n).len() implies (p + n)[i] != '\n' && (p + n)[i] != '\r' by {
        if i < p.len() {
            assert((p + n)[i] == p[i]);
        } else {
            assert((p + n)[i] == n[i - p.len()]);
        }
    }
}

proof fn lemma_item_lines_plain(ns: Seq<Seq<char>>)
    requires
        all_storable(ns),
    ensures
        plain_lines(item_lines(ns)),
    decreases ns.len(),
{
    if ns.len() > 0 {
        let init = ns.drop_last();
        assert(all_storable(init)) by {
            assert forall|i: int| 0 <= i < init.len() implies storable_name(#[trigger] init[i]) by {
                assert(init[i] == ns[i]);
            }
        }
        lemma_item_lines_plain(init);
        assert(storable_name(ns[ns.len() - 1]));
        lemma_prefixed_plain(seq!['-', ' '], ns.last());
        lemma_plain_concat(item_lines(init), seq![seq!['-', ' '] + ns.last()]);
        assert(item_lines(ns) =~= item_lines(init) + seq![seq!['-', ' '] + ns.last()]);
    }
}

proof fn lemma_sections_plain(s: Seq<(Seq<char>, Seq<Seq<char>>)>)
    requires
        storable_files(s),
    ensures
        plain_lines(sections_lines(s)),
    decreases s.len(),
{
    if s.len() > 0 {
        let init = s.drop_last();
        let x = s.last();
        assert(storable_files(init)) by {
            assert forall|i: int| 0 <= i < init.len() implies storable_key(#[trigger] init[i].0) && all_storable(init[i].1) by {
                assert(init[i] == s[i]);
            }
        }
        lemma_sections_plain(init);
        assert(storable_key(s[s.len() - 1].0) && all_storable(s[s.len() - 1].1));
        lemma_prefixed_plain(seq!['#', '#', '#', ' '], x.0);
        let e: Seq<char> = seq![];
        let head = seq![e, seq!['#', '#', '#', ' '] + x.0, e];
        assert(plain_lines(head)) by {
            assert forall|i: int| 0 <= i < head.len() implies lacks(#[trigger] head[i], '\n') && lacks(head[i], '\r') by {}
        }
        lemma_item_lines_plain(x.1);
        lemma_plain_concat(head, item_lines(x.1));
        lemma_plain_concat(sections_lines(init), section_lines(x.0, x.1));
    }
}

/// Every line of an order file lacks line breaks.
proof fn lemma_lines_plain(o: OrderView, u: Seq<Seq<char>>, s: Seq<(Seq<char>, Seq<Seq<char>>)>)
    requires
        storable_order(o),
        storable_files(s),
        s == listed_sections(o.categories, o.files) + keyed_sections(u, o.files),
    ensures
        plain_lines(order_lines(o, u)),
{
    reveal_strlit("# 排序");
    reveal_strlit("本文件由摸鱼大王自动更新。");
    reveal_strlit("## 分类");
    reveal_strlit("## 文件");
    let e: Seq<char> = seq![];
    let head = seq!["# 排序"@, e, "本文件由摸鱼大王自动更新。"@, e, categories_heading(), e];
    let mid = seq![e, files_heading()];
    assert(plain_lines(head)) by {
        assert forall|i: int| 0 <= i < head.len() implies lacks(#[trigger] head[i], '\n') && lacks(head[i], '\r') by {}
    }
    assert(plain_lines(mid)) by {
        assert forall|i: int| 0 <= i < mid.len() implies lacks(#[trigger] mid[i], '\n') && lacks(mid[i], '\r') by {}
    }
    lemma_item_lines_plain(o.categories);
    lemma_sections_plain(s);
    lemma_plain_concat(head, item_lines(o.categories));
    lemma_plain_concat(head + item_lines(o.categories), mid);
    lemma_plain_concat(head + item_lines(o.categories) + mid, sections_lines(s));
}

proof fn lemma_trim_end_last(s: Seq<char>)
    ensures
        trim_end(s).len() > 0 ==> !is_space(trim_end(s).last()),
    decreases s.len(),
{
    if s.len() > 0 && is_space(s.last()) {
        lemma_trim_end_last(s.drop_last());
    }
}

proof fn lemma_sub_lacks(s: Seq<char>, a: int, b: int, c: char)
    requires
        0 <= a <= b <= s.len(),
        lacks(s, c),
    ensures
        lacks(s.subrange(a, b), c),
{
    assert forall|i: int| 0 <= i < b - a implies s.subrange(a, b)[i] != c by {
        assert(s.subrange(a, b)[i] == s[a + i]);
    }
}

/// The pieces that `line_state` cuts a text without `\r` into hold no line
/// break.
proof fn lemma_line_state_plain(s: Seq<char>)
    requires
        lacks(s, '\r'),
    ensures
        plain_lines(line_state(s).0),
        lacks(line_state(s).1, '\n'),
        lacks(line_state(s).1, '\r'),
    decreases s.len(),
{
    if s.len() > 0 {
        let init = s.drop_last();
        lemma_sub_lacks(s, 0, s.len() - 1, '\r');
        assert(init =~= s.subrange(0, s.len() - 1));
        lemma_line_state_plain(init);
        let done = line_state(init).0;
        let cur = line_state(init).1;
        let x = s.last();
        assert(x == s[s.len() - 1]);
        if x == '\n' {
            assert forall|i: int| 0 <= i < done.push(cur).len() implies lacks(#[trigger] done.push(cur)[i], '\n') && lacks(done.push(cur)[i], '\r') by {
                if i < done.len() {
                    assert(done.push(cur)[i] == done[i]);
                }
            }
        } else {
            assert forall|i: int| 0 <= i < cur.push(x).len() implies cur.push(x)[i] != '\n' && cur.push(x)[i] != '\r' by {
                if i < cur.len() {
                    assert(cur.push(x)[i] == cur[i]);
                }
            }
        }
    }
}

/// Whether what has been read so far can be written and read back.
pub open spec fn reading_storable(st: OrderReading) -> bool {
    &&& all_storable(st.order.categories)
    &&& storable_files(st.order.files)
    &&& (st.current.len() > 0 ==> storable_key(st.current))
}

proof fn lemma_read_line_storable(st: OrderReading, raw: Seq<char>)
    requires
        reading_storable(st),
        lacks(raw, '\n'),
        lacks(raw, '\r'),
    ensures
        reading_storable(read_order_line(st, raw)),
{
    let line = trim_end(raw);
    lemma_trim_end_prefix_of(raw);
    lemma_sub_lacks(raw, 0, line.len() as int, '\n');
    lemma_sub_lacks(raw, 0, line.len() as int, '\r');
    lemma_trim_end_last(raw);
    let r = read_order_line(st, raw);
    if line == categories_heading() || line == files_heading() {
    } else if has_prefix(line, seq!['#', '#', '#', ' ']) {
        if st.section == 2 {
            let x = line.subrange(4, line.len() as int);
            let name = trim(x);
            lemma_sub_lacks(line, 4, line.len() as int, '\n');
            lemma_sub_lacks(line, 4, line.len() as int, '\r');
            crate::todos::lemma_trim_props(x);
            let (a, b) = choose|a: int, b: int| 0 <= a <= b <= x.len() && trim(x) == x.subrange(a, b);
            lemma_sub_lacks(x, a, b, '\n');
            lemma_sub_lacks(x, a, b, '\r');
            if name.len() > 0 {
                crate::todos::lemma_trimmed_ends(name);
                let f = st.order.files;
                if find_key(f, name) < 0 {
                    let f2 = f.push((name, seq![]));
                    assert forall|i: int| 0 <= i < f2.len() implies storable_key(#[trigger] f2[i].0) && all_storable(f2[i].1) by {
                        if i < f.len() {
                            assert(f2[i] == f[i]);
                        }
                    }
                }
            }
        }
    } else if has_prefix(line, seq!['-', ' ']) && line.len() > 2 {
        let item = line.subrange(2, line.len() as int);
        lemma_sub_lacks(line, 2, line.len() as int, '\n');
        lemma_sub_lacks(line, 2, line.len() as int, '\r');
        assert(item.last() == line.last());
        assert(storable_name(item));
        if st.section == 1 {
            let c2 = st.order.categories.push(item);
            assert forall|i: int| 0 <= i < c2.len() implies storable_name(#[trigger] c2[i]) by {
                if i < st.order.categories.len() {
                    assert(c2[i] == st.order.categories[i]);
                }
            }
        } else if st.section == 2 && st.current.len() > 0 {
            let f = st.order.files;
            let k = st.current;
            let i = find_key(f, k);
            lemma_find_key_bound(f, k);
            let f2 = with_item(f, k, item);
            if i < 0 {
                assert forall|j: int| 0 <= j < f2.len() implies storable_key(#[trigger] f2[j].0) && all_storable(f2[j].1) by {
                    if j < f.len() {
                        assert(f2[j] == f[j]);
                    } else {
                        assert(f2[j] == (k, seq![item]));
                    }
                }
            } else {
                assert(storable_key(f[i].0) && all_storable(f[i].1));
                assert forall|j: int| 0 <= j < f2.len() implies storable_key(#[trigger] f2[j].0) && all_storable(f2[j].1) by {
                    if j != i {
                        assert(f2[j] == f[j]);
                    } else {
                        let ns = f[i].1.push(item);
                        assert(f2[j] == (k, ns));
                        assert forall|q: int| 0 <= q < ns.len() implies storable_name(#[trigger] ns[q]) by {
                            if q < f[i].1.len() {
                                assert(ns[q] == f[i].1[q]);
                            }
                        }
                    }
                }
            }
        }
    }
}

proof fn lemma_read_lines_storable(ls: Seq<Seq<char>>)
    requires
        plain_lines(ls),
    ensures
        reading_storable(read_order_lines(ls)),
    decreases ls.len(),
{
    if ls.len() > 0 {
        let init = ls.drop_last();
        assert(plain_lines(init)) by {
            assert forall|i: int| 0 <= i < init.len() implies lacks(#[trigger] init[i], '\n') && lacks(init[i], '\r') by {
                assert(init[i] == ls[i]);
            }
        }
        lemma_read_lines_storable(init);
        assert(lacks(ls[ls.len() - 1], '\n') && lacks(ls[ls.len() - 1], '\r'));
        lemma_read_line_storable(read_order_lines(init), ls.last());
    }
}

/// Whatever an order file holds, the order read from it can be written and
/// read back, but for categories it lists twice.
pub proof fn lemma_parsed_storable(raw: Seq<char>)
    ensures
        all_storable(parsed_order(raw).categories),
        storable_files(parsed_order(raw).files),
{
    let t = normalized(raw);
    crate::notes::lemma_unify_lacks_cr(crate::text::strip_all_start(raw, crate::notes::bom()));
    lemma_line_state_plain(t);
    let (done, cur) = line_state(t);
    assert(plain_lines(lines(t))) by {
        if cur.len() > 0 {
            assert forall|i: int| 0 <= i < done.push(cur).len() implies lacks(#[trigger] done.push(cur)[i], '\n') && lacks(done.push(cur)[i], '\r') by {
                if i < done.len() {
                    assert(done.push(cur)[i] == done[i]);
                }
            }
        }
    }
    lemma_read_lines_storable(lines(t));
}

} // verus!
