//! What carrying the open items of earlier days forward leaves behind.
use vstd::prelude::*;
use crate::arrange::{lemma_less_irreflexive, lemma_sorted_exists, strictly_sorted, text_less};
use crate::dates::valid_date;
use crate::model::{apply, apply_all, find_day, lemma_apply_all_concat, ChangeView, DataView};
use crate::records::Failure;
use crate::store::{
    carry_changes, carry_dates, carry_finish, carry_fold, carry_step, day_changes, day_file_name, day_result,
    day_text, distinct_days, earlier_day, index_changes, lemma_day_reads_back, lemma_find_day_bound,
    save_day_changes,
};
use crate::text::has_suffix;
use crate::todos::{cleaned_text, cleaned_todos, done_todos, open_todos, sunk};

verus! {

/// Whether every item of `items` is done.
pub open spec fn all_done(items: Seq<(Seq<char>, bool)>) -> bool {
    forall|i: int| 0 <= i < items.len() ==> #[trigger] items[i].1
}

proof fn lemma_done_todos_done(items: Seq<(Seq<char>, bool)>)
    ensures
        all_done(done_todos(items)),
    decreases items.len(),
{
    if items.len() > 0 {
        lemma_done_todos_done(items.drop_last());
        let r = done_todos(items.drop_last());
        if items.last().1 {
            assert forall|i: int| 0 <= i < r.push(items.last()).len() implies #[trigger] r.push(items.last())[i].1 by {
                if i < r.len() {
                    assert(r.push(items.last())[i] == r[i]);
                }
            }
        }
    }
}

proof fn lemma_cleaned_done(items: Seq<(Seq<char>, bool)>)
    requires
        all_done(items),
    ensures
        all_done(cleaned_todos(items)),
    decreases items.len(),
{
    if items.len() > 0 {
        let init = items.drop_last();
        assert(all_done(init)) by {
            assert forall|i: int| 0 <= i < init.len() implies #[trigger] init[i].1 by {
                assert(init[i] == items[i]);
            }
        }
        lemma_cleaned_done(init);
        let rest = cleaned_todos(init);
        let t = cleaned_text(items.last().0);
        assert(items[items.len() - 1].1);
        if t.len() > 0 {
            assert forall|i: int| 0 <= i < rest.push((t, items.last().1)).len() implies #[trigger] rest.push((t, items.last().1))[i].1 by {
                if i < rest.len() {
                    assert(rest.push((t, items.last().1))[i] == rest[i]);
                }
            }
        }
    }
}

proof fn lemma_open_of_done(items: Seq<(Seq<char>, bool)>)
    requires
        all_done(items),
    ensures
        open_todos(items).len() == 0,
    decreases items.len(),
{
    if items.len() > 0 {
        let init = items.drop_last();
        assert(all_done(init)) by {
            assert forall|i: int| 0 <= i < init.len() implies #[trigger] init[i].1 by {
                assert(init[i] == items[i]);
            }
        }
        lemma_open_of_done(init);
        assert(items[items.len() - 1].1);
    }
}

/// A day saved with only the done items of a list holds no open item.
proof fn lemma_saved_done_items(items: Seq<(Seq<char>, bool)>)
    ensures
        open_todos(sunk(cleaned_todos(done_todos(items)))).len() == 0,
{
    lemma_done_todos_done(items);
    lemma_cleaned_done(done_todos(items));
    let c = cleaned_todos(done_todos(items));
    lemma_open_of_done(c);
    lemma_done_todos_done(c);
    assert(sunk(c) =~= done_todos(c));
    lemma_open_of_done(sunk(c));
}

/// Whether the change `c` touches no to-do file but `name`.
pub open spec fn day_only_change(c: ChangeView, name: Seq<char>) -> bool {
    match c {
        ChangeView::WriteDay { name: n, text: _ } => n == name,
        ChangeView::RemoveDay { name: n } => n == name,
        ChangeView::WriteOrder { text: _ } => true,
        ChangeView::WriteIndex { text: _ } => true,
        _ => false,
    }
}

/// Whether the changes `cs` touch no to-do file but `name`.
pub open spec fn day_only(cs: Seq<ChangeView>, name: Seq<char>) -> bool {
    forall|i: int| 0 <= i < cs.len() ==> day_only_change(#[trigger] cs[i], name)
}

/// Whether the to-do file `n` is there in `a` exactly when it is in `b`,
/// and reads the same.
pub open spec fn same_day(a: DataView, b: DataView, n: Seq<char>) -> bool {
    &&& (find_day(a.days, n) >= 0) == (find_day(b.days, n) >= 0)
    &&& day_text(a, n) == day_text(b, n)
}

/// Whether every to-do file but `name` is the same in `a` and `b`.
pub open spec fn same_other_days(a: DataView, b: DataView, name: Seq<char>) -> bool {
    forall|y: Seq<char>| y != name ==> #[trigger] same_day(a, b, y)
}

/// In to-do files with different names, each is found at its place.
proof fn lemma_find_day_at(days: Seq<(Seq<char>, crate::model::ContentView)>, k: int)
    requires
        forall|i: int, j: int| 0 <= i < j < days.len() ==> #[trigger] days[i].0 != #[trigger] days[j].0,
        0 <= k < days.len(),
    ensures
        find_day(days, days[k].0) == k,
{
    lemma_find_day_bound(days, days[k].0);
    let j = find_day(days, days[k].0);
    if j != k {
        if j < k {
            assert(days[j].0 != days[k].0);
        } else {
            assert(days[k].0 != days[j].0);
        }
    }
}

/// One change that touches no to-do file but `name` keeps the others.
proof fn lemma_day_step(d: DataView, c: ChangeView, name: Seq<char>)
    requires
        distinct_days(d),
        day_only_change(c, name),
    ensures
        distinct_days(apply(d, c)),
        same_other_days(d, apply(d, c), name),
{
    let d2 = apply(d, c);
    let days = d.days;
    let days2 = d2.days;
    lemma_find_day_bound(days, name);
    let i = find_day(days, name);
    match c {
        ChangeView::WriteDay { name: n, text } => {
            assert forall|a: int, b: int| 0 <= a < b < days2.len() implies #[trigger] days2[a].0 != #[trigger] days2[b].0 by {
                if i < 0 {
                    if b < days.len() {
                        assert(days2[a] == days[a] && days2[b] == days[b]);
                    } else {
                        assert(days2[a] == days[a]);
                    }
                } else {
                    assert(days2[a].0 == days[a].0 && days2[b].0 == days[b].0);
                }
            }
        },
        ChangeView::RemoveDay { name: n } => {
            if i >= 0 {
                assert forall|a: int, b: int| 0 <= a < b < days2.len() implies #[trigger] days2[a].0 != #[trigger] days2[b].0 by {
                    let a2 = if a < i { a } else { a + 1 };
                    let b2 = if b < i { b } else { b + 1 };
                    assert(days2[a] == days[a2] && days2[b] == days[b2]);
                }
            }
        },
        _ => {},
    }
    assert forall|y: Seq<char>| y != name implies #[trigger] same_day(d, d2, y) by {
        lemma_find_day_bound(days, y);
        lemma_find_day_bound(days2, y);
        let k = find_day(days, y);
        let k2 = find_day(days2, y);
        if days2 != days {
            if k >= 0 {
                // The file `y` is still there, at its place or one before.
                assert(days[k].0 == y);
                assert(k != i);
                let m = if c is RemoveDay && i >= 0 && k > i { k - 1 } else { k };
                assert(days2[m] == days[k]);
                lemma_find_day_at(days2, m);
            } else if k2 >= 0 {
                let m = if c is RemoveDay && i >= 0 && k2 >= i { k2 + 1 } else { k2 };
                if c is WriteDay && i < 0 && k2 == days.len() {
                    assert(days2[k2].0 == name);
                } else {
                    assert(days2[k2] == days[m]);
                }
            }
        }
    }
}

/// Changes that touch no to-do file but `name` keep the others.
proof fn lemma_day_changes_keep(d: DataView, cs: Seq<ChangeView>, name: Seq<char>)
    requires
        distinct_days(d),
        day_only(cs, name),
    ensures
        distinct_days(apply_all(d, cs)),
        same_other_days(d, apply_all(d, cs), name),
    decreases cs.len(),
{
    if cs.len() == 0 {
        assert forall|y: Seq<char>| y != name implies #[trigger] same_day(d, apply_all(d, cs), y) by {}
    } else {
        let init = cs.drop_last();
        assert(day_only(init, name)) by {
            assert forall|i: int| 0 <= i < init.len() implies day_only_change(#[trigger] init[i], name) by {
                assert(init[i] == cs[i]);
            }
        }
        lemma_day_changes_keep(d, init, name);
        let d1 = apply_all(d, init);
        assert(day_only_change(cs[cs.len() - 1], name));
        lemma_day_step(d1, cs.last(), name);
        let d2 = apply_all(d, cs);
        assert forall|y: Seq<char>| y != name implies #[trigger] same_day(d, d2, y) by {
            assert(same_day(d, d1, y));
            assert(same_day(d1, d2, y));
        }
    }
}

/// Saving the list of a day touches no to-do file but that day's.
proof fn lemma_save_day_only(d: DataView, date: Seq<char>, items: Seq<(Seq<char>, bool)>)
    ensures
        day_only(save_day_changes(d, date, items).1, day_file_name(date)),
{
    let cs = save_day_changes(d, date, items).1;
    assert forall|i: int| 0 <= i < cs.len() implies day_only_change(#[trigger] cs[i], day_file_name(date)) by {
        if valid_date(date) && !crate::todos::has_overlong(items) {
            let c1 = day_changes(d, date, sunk(cleaned_todos(items)));
            let c2 = index_changes(apply_all(d, c1)).1;
            assert(cs == c1 + c2);
            if i < c1.len() {
                assert(cs[i] == c1[i]);
            } else {
                assert(cs[i] == c2[i - c1.len()]);
            }
        }
    }
}

/// Different dates have different to-do files.
proof fn lemma_day_names_differ(x: Seq<char>, y: Seq<char>)
    requires
        x != y,
    ensures
        day_file_name(x) != day_file_name(y),
{
    reveal_strlit(".md");
    if day_file_name(x) == day_file_name(y) {
        assert(".md"@.len() == 3);
        assert(day_file_name(x).len() == x.len() + 3);
        assert(day_file_name(y).len() == y.len() + 3);
        assert(x.len() == y.len());
        assert(day_file_name(x).subrange(0, x.len() as int) =~= x);
        assert(day_file_name(y).subrange(0, y.len() as int) =~= y);
    }
}

/// Carrying the open items of the days `ds` leaves each of them with no
/// open item, and the files of other dates as they were.
proof fn lemma_carry_fold_clears(d: DataView, ds: Seq<Seq<char>>)
    requires
        distinct_days(d),
        ds.no_duplicates(),
        carry_fold(d, ds).0 is Ok,
    ensures
        distinct_days(apply_all(d, carry_fold(d, ds).1)),
        forall|x: Seq<char>| #[trigger] ds.contains(x) ==> (day_result(apply_all(d, carry_fold(d, ds).1), x) matches Ok(items)
            && open_todos(items).len() == 0),
        forall|y: Seq<char>| !ds.contains(y) ==> #[trigger] same_day(d, apply_all(d, carry_fold(d, ds).1), day_file_name(y)),
    decreases ds.len(),
{
    if ds.len() == 0 {
        assert forall|y: Seq<char>| !ds.contains(y) implies #[trigger] same_day(d, apply_all(d, carry_fold(d, ds).1), day_file_name(y)) by {}
    } else {
        let init = ds.drop_last();
        let z = ds.last();
        assert(init.no_duplicates()) by {
            assert forall|i: int, j: int| 0 <= i < init.len() && 0 <= j < init.len() && i != j implies init[i] != init[j] by {
                assert(init[i] == ds[i] && init[j] == ds[j]);
            }
        }
        assert(!init.contains(z)) by {
            if init.contains(z) {
                let q = choose|q: int| 0 <= q < init.len() && init[q] == z;
                assert(ds[q] == ds[ds.len() - 1]);
            }
        }
        assert forall|x: Seq<char>| ds.contains(x) <==> (init.contains(x) || x == z) by {
            if ds.contains(x) {
                let q = choose|q: int| 0 <= q < ds.len() && ds[q] == x;
                if q < ds.len() - 1 {
                    assert(init[q] == x);
                }
            }
            if init.contains(x) {
                let q = choose|q: int| 0 <= q < init.len() && init[q] == x;
                assert(ds[q] == x);
            }
            if x == z {
                assert(ds[ds.len() - 1] == z);
            }
        }
        let (r, cs) = carry_fold(d, init);
        lemma_carry_fold_clears(d, init);
        let moved = r->Ok_0;
        let dm = apply_all(d, cs);
        reveal(carry_step);
        let step = carry_step(dm, moved, z);
        lemma_apply_all_concat(d, cs, step.1);
        let dn = apply_all(d, carry_fold(d, ds).1);
        assert(dn == apply_all(dm, step.1));
        let items = day_result(dm, z)->Ok_0;
        if open_todos(items).len() == 0 {
            assert(step.1 =~= Seq::<ChangeView>::empty());
            assert(dn == dm);
            assert forall|y: Seq<char>| !ds.contains(y) implies #[trigger] same_day(d, dn, day_file_name(y)) by {
                assert(same_day(d, dm, day_file_name(y)));
            }
        } else {
            let zn = day_file_name(z);
            lemma_save_day_only(dm, z, done_todos(items));
            lemma_day_changes_keep(dm, step.1, zn);
            lemma_day_reads_back(dm, z, done_todos(items));
            lemma_saved_done_items(items);
            assert forall|x: Seq<char>| #[trigger] ds.contains(x) implies (day_result(dn, x) matches Ok(its)
                && open_todos(its).len() == 0) by {
                if x != z {
                    assert(init.contains(x));
                    lemma_day_names_differ(x, z);
                    assert(same_day(dm, dn, day_file_name(x)));
                }
            }
            assert forall|y: Seq<char>| !ds.contains(y) implies #[trigger] same_day(d, dn, day_file_name(y)) by {
                lemma_day_names_differ(y, z);
                assert(same_day(d, dm, day_file_name(y)));
                assert(same_day(dm, dn, day_file_name(y)));
            }
        }
    }
}

/// Carrying from days that hold no open item moves nothing and changes
/// nothing.
proof fn lemma_carry_fold_idle(d: DataView, ds: Seq<Seq<char>>)
    requires
        forall|x: Seq<char>| #[trigger] ds.contains(x) ==> (day_result(d, x) matches Ok(items) && open_todos(items).len() == 0),
    ensures
        carry_fold(d, ds) == (Ok::<Seq<(Seq<char>, bool)>, Failure>(seq![]), Seq::<ChangeView>::empty()),
    decreases ds.len(),
{
    if ds.len() > 0 {
        let init = ds.drop_last();
        assert forall|x: Seq<char>| #[trigger] init.contains(x) implies (day_result(d, x) matches Ok(items)
            && open_todos(items).len() == 0) by {
            let q = choose|q: int| 0 <= q < init.len() && init[q] == x;
            assert(ds[q] == x);
            assert(ds.contains(x));
        }
        lemma_carry_fold_idle(d, init);
        assert(ds.contains(ds[ds.len() - 1]));
        reveal(carry_step);
        assert(apply_all(d, Seq::<ChangeView>::empty()) == d);
        assert(Seq::<ChangeView>::empty() + Seq::<ChangeView>::empty() =~= Seq::<ChangeView>::empty());
    }
}

/// The dates of the to-do files of `days` that come before `today`.
pub open spec fn earlier_stems(days: Seq<(Seq<char>, crate::model::ContentView)>, today: Seq<char>) -> Seq<Seq<char>>
    decreases days.len(),
{
    if days.len() == 0 {
        seq![]
    } else {
        let rest = earlier_stems(days.drop_last(), today);
        let n = days.last().0;
        let x = n.subrange(0, n.len() - 3);
        if has_suffix(n, ".md"@) && valid_date(x) && text_less(x, today) {
            rest.push(x)
        } else {
            rest
        }
    }
}

proof fn lemma_stem_of(n: Seq<char>, x: Seq<char>)
    ensures
        (n == day_file_name(x)) <==> (has_suffix(n, ".md"@) && n.subrange(0, n.len() - 3) == x),
{
    reveal_strlit(".md");
    if n == day_file_name(x) {
        assert(n.subrange(n.len() - 3, n.len() as int) =~= ".md"@);
        assert(n.subrange(0, n.len() - 3) =~= x);
    }
    if has_suffix(n, ".md"@) && n.subrange(0, n.len() - 3) == x {
        assert(n =~= x + ".md"@);
    }
}

proof fn lemma_earlier_stems(days: Seq<(Seq<char>, crate::model::ContentView)>, today: Seq<char>, x: Seq<char>)
    ensures
        earlier_stems(days, today).contains(x) <==> ((exists|k: int| 0 <= k < days.len() && #[trigger] days[k].0 == day_file_name(x))
            && valid_date(x) && text_less(x, today)),
    decreases days.len(),
{
    if days.len() > 0 {
        let init = days.drop_last();
        lemma_earlier_stems(init, today, x);
        let n = days.last().0;
        let rest = earlier_stems(init, today);
        lemma_stem_of(n, x);
        let y = n.subrange(0, n.len() - 3);
        if exists|k: int| 0 <= k < days.len() && #[trigger] days[k].0 == day_file_name(x) {
            let k = choose|k: int| 0 <= k < days.len() && #[trigger] days[k].0 == day_file_name(x);
            if k < days.len() - 1 {
                assert(init[k] == days[k]);
            }
        }
        if exists|k: int| 0 <= k < init.len() && #[trigger] init[k].0 == day_file_name(x) {
            let k = choose|k: int| 0 <= k < init.len() && #[trigger] init[k].0 == day_file_name(x);
            assert(days[k] == init[k]);
        }
        if has_suffix(n, ".md"@) && valid_date(y) && text_less(y, today) {
            if rest.push(y).contains(x) && x != y {
                let q = choose|q: int| 0 <= q < rest.push(y).len() && rest.push(y)[q] == x;
                assert(rest[q] == x);
            }
            if rest.contains(x) {
                let q = choose|q: int| 0 <= q < rest.len() && rest[q] == x;
                assert(rest.push(y)[q] == x);
            }
            if x == y {
                assert(rest.push(y)[rest.len() as int] == x);
                assert(days[days.len() - 1].0 == day_file_name(x));
            }
        } else {
            if n == day_file_name(x) && valid_date(x) && text_less(x, today) {
                assert(false);
            }
        }
    }
}

/// The earlier dates of `d` can be listed in order.
proof fn lemma_carry_dates(d: DataView, today: Seq<char>)
    ensures
        strictly_sorted(carry_dates(d, today)),
        forall|x: Seq<char>| #[trigger] carry_dates(d, today).contains(x) <==> earlier_day(d, x, today),
        carry_dates(d, today).no_duplicates(),
{
    let p = earlier_stems(d.days, today);
    let e: Seq<Seq<char>> = seq![];
    lemma_sorted_exists(p, e);
    let r = choose|r: Seq<Seq<char>>| strictly_sorted(r) && forall|x: Seq<char>| #[trigger] r.contains(x) <==> (p.contains(x) && !e.contains(x));
    assert forall|x: Seq<char>| #[trigger] r.contains(x) <==> earlier_day(d, x, today) by {
        lemma_earlier_stems(d.days, today, x);
        lemma_find_day_bound(d.days, day_file_name(x));
        if exists|k: int| 0 <= k < d.days.len() && #[trigger] d.days[k].0 == day_file_name(x) {
            let k = choose|k: int| 0 <= k < d.days.len() && #[trigger] d.days[k].0 == day_file_name(x);
            assert(d.days[k].0 == day_file_name(x));
        }
        if find_day(d.days, day_file_name(x)) >= 0 {
            let k = find_day(d.days, day_file_name(x));
            assert(d.days[k].0 == day_file_name(x));
        }
    }
    let s = carry_dates(d, today);
    assert(strictly_sorted(s) && forall|x: Seq<char>| #[trigger] s.contains(x) <==> earlier_day(d, x, today));
    assert forall|i: int, j: int| 0 <= i < s.len() && 0 <= j < s.len() && i != j implies s[i] != s[j] by {
        if i < j {
            assert(text_less(s[i], s[j]));
            if s[i] == s[j] {
                lemma_less_irreflexive(s[i]);
            }
        } else {
            assert(text_less(s[j], s[i]));
            if s[i] == s[j] {
                lemma_less_irreflexive(s[i]);
            }
        }
    }
}

/// After the open items of earlier days are carried to `today`, every
/// earlier day holds only done items, so carrying again at once moves
/// nothing and changes nothing.
pub proof fn lemma_carry_settles(d: DataView, today: Seq<char>)
    requires
        distinct_days(d),
        carry_changes(d, today).0 is Ok,
    ensures
        ({
            let d2 = apply_all(d, carry_changes(d, today).1);
            &&& forall|x: Seq<char>| #[trigger] earlier_day(d2, x, today) ==> (day_result(d2, x) matches Ok(items)
                && open_todos(items).len() == 0)
            &&& carry_changes(d2, today) == (Ok::<nat, Failure>(0), Seq::<ChangeView>::empty())
        }),
{
    let ds = carry_dates(d, today);
    lemma_carry_dates(d, today);
    let (r, cs) = carry_fold(d, ds);
    lemma_carry_fold_clears(d, ds);
    let moved = r->Ok_0;
    let dm = apply_all(d, cs);
    let fin = carry_finish(dm, today, moved);
    lemma_apply_all_concat(d, cs, fin.1);
    let d2 = apply_all(d, carry_changes(d, today).1);
    assert(d2 == apply_all(dm, fin.1));
    let tn = day_file_name(today);
    if moved.len() == 0 {
        assert(fin.1 =~= Seq::<ChangeView>::empty());
        assert(d2 == dm);
        assert forall|y: Seq<char>| y != tn implies #[trigger] same_day(dm, d2, y) by {}
    } else {
        let t = day_result(dm, today)->Ok_0;
        lemma_save_day_only(dm, today, moved + t);
        lemma_day_changes_keep(dm, fin.1, tn);
    }
    assert forall|x: Seq<char>| #[trigger] earlier_day(d2, x, today) implies (day_result(d2, x) matches Ok(items)
        && open_todos(items).len() == 0) by {
        if x == today {
            lemma_less_irreflexive(x);
        }
        lemma_day_names_differ(x, today);
        assert(same_day(dm, d2, day_file_name(x)));
        if !ds.contains(x) {
            assert(same_day(d, dm, day_file_name(x)));
            assert(earlier_day(d, x, today));
        }
    }
    let ds2 = carry_dates(d2, today);
    lemma_carry_dates(d2, today);
    lemma_carry_fold_idle(d2, ds2);
    assert(apply_all(d2, Seq::<ChangeView>::empty()) == d2);
    assert(Seq::<ChangeView>::empty() + Seq::<ChangeView>::empty() =~= Seq::<ChangeView>::empty());
}

} // verus!
