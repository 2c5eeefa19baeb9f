//! The order in which categories and files are shown: the order the user
//! dragged them into, with names that appeared since then after it, sorted.
use vstd::prelude::*;
use crate::text::{chars_of, same_chars};

verus! {

/// The texts of a sequence of strings.
pub open spec fn str_views(v: Seq<String>) -> Seq<Seq<char>> {
    v.map_values(|s: String| s@)
}

/// Whether `a` comes before `b` in the order of `str::cmp`: character by
/// character, and a proper prefix first. (Comparing UTF-8 bytes, as `str`
/// does, orders strings as comparing their characters does.)
pub open spec fn text_less(a: Seq<char>, b: Seq<char>) -> bool
    decreases a.len(),
{
    if a.len() == 0 {
        b.len() > 0
    } else if b.len() == 0 {
        false
    } else if a[0] != b[0] {
        a[0] < b[0]
    } else {
        text_less(a.drop_first(), b.drop_first())
    }
}

/// Whether every name of `s` comes before every later one.
pub open spec fn strictly_sorted(s: Seq<Seq<char>>) -> bool {
    forall|i: int, j: int| 0 <= i < j < s.len() ==> text_less(#[trigger] s[i], #[trigger] s[j])
}

/// The names of `saved` that are in `present`, each once, in the order of
/// their first place in `saved`.
pub open spec fn kept_names(saved: Seq<Seq<char>>, present: Seq<Seq<char>>) -> Seq<Seq<char>>
    decreases saved.len(),
{
    if saved.len() == 0 {
        seq![]
    } else {
        let k = kept_names(saved.drop_last(), present);
        let x = saved.last();
        if present.contains(x) && !k.contains(x) {
            k.push(x)
        } else {
            k
        }
    }
}

/// Whether `r` is `saved` arranged over `present`: first the names that
/// `kept_names` keeps, then every other name of `present` once, sorted.
pub open spec fn is_arranged(r: Seq<Seq<char>>, saved: Seq<Seq<char>>, present: Seq<Seq<char>>) -> bool {
    let k = kept_names(saved, present);
    let rest = r.subrange(k.len() as int, r.len() as int);
    &&& k.len() <= r.len()
    &&& r.subrange(0, k.len() as int) == k
    &&& strictly_sorted(rest)
    &&& forall|x: Seq<char>| #[trigger] rest.contains(x) <==> (present.contains(x) && !k.contains(x))
}

/// `saved` arranged over `present`.
pub open spec fn arranged(saved: Seq<Seq<char>>, present: Seq<Seq<char>>) -> Seq<Seq<char>> {
    choose|r: Seq<Seq<char>>| is_arranged(r, saved, present)
}

/// `text_less` is irreflexive.
pub proof fn lemma_less_irreflexive(a: Seq<char>)
    ensures
        !text_less(a, a),
    decreases a.len(),
{
    if a.len() > 0 {
        lemma_less_irreflexive(a.drop_first());
    }
}

/// `text_less` is transitive.
pub proof fn lemma_less_transitive(a: Seq<char>, b: Seq<char>, c: Seq<char>)
    requires
        text_less(a, b),
        text_less(b, c),
    ensures
        text_less(a, c),
    decreases a.len(),
{
    if a.len() > 0 && b.len() > 0 && c.len() > 0 && a[0] == b[0] && b[0] == c[0] {
        lemma_less_transitive(a.drop_first(), b.drop_first(), c.drop_first());
    }
}

/// Of two different texts, one comes before the other.
pub proof fn lemma_less_total(a: Seq<char>, b: Seq<char>)
    requires
        a != b,
    ensures
        text_less(a, b) || text_less(b, a),
    decreases a.len(),
{
    if a.len() > 0 && b.len() > 0 && a[0] == b[0] {
        if a.drop_first() == b.drop_first() {
            assert(a =~= seq![a[0]] + a.drop_first());
            assert(b =~= seq![b[0]] + b.drop_first());
        }
        lemma_less_total(a.drop_first(), b.drop_first());
    } else if a.len() == 0 && b.len() == 0 {
        assert(a =~= b);
    }
}

/// Whether `a` comes before `b` in the order of `str::cmp`.
pub fn less_chars(a: &Vec<char>, b: &Vec<char>) -> (r: bool)
    ensures
        r == text_less(a@, b@),
{
    let mut i: usize = 0;
    assert(a@.subrange(0, a@.len() as int) =~= a@);
    assert(b@.subrange(0, b@.len() as int) =~= b@);
    while i < a.len() && i < b.len() && a[i] == b[i]
        invariant
            i <= a.len(),
            i <= b.len(),
            text_less(a@, b@) == text_less(
                a@.subrange(i as int, a@.len() as int),
                b@.subrange(i as int, b@.len() as int),
            ),
        decreases a.len() - i,
    {
        let ghost sa = a@.subrange(i as int, a@.len() as int);
        let ghost sb = b@.subrange(i as int, b@.len() as int);
        assert(sa.drop_first() =~= a@.subrange(i + 1, a@.len() as int));
        assert(sb.drop_first() =~= b@.subrange(i + 1, b@.len() as int));
        i = i + 1;
    }
    if i == a.len() {
        i < b.len()
    } else if i == b.len() {
        false
    } else {
        a[i] < b[i]
    }
}

/// Whether the text `x` is one of `v`.
pub fn contains_text(v: &Vec<String>, x: &String) -> (r: bool)
    ensures
        r == str_views(v@).contains(x@),
{
    let mut i: usize = 0;
    while i < v.len()
        invariant
            i <= v.len(),
            forall|k: int| 0 <= k < i ==> v@[k]@ != x@,
        decreases v.len() - i,
    {
        if v[i] == *x {
            assert(str_views(v@)[i as int] == x@);
            return true;
        }
        i = i + 1;
    }
    assert forall|k: int| 0 <= k < str_views(v@).len() implies str_views(v@)[k] != x@ by {
        assert(str_views(v@)[k] == v@[k]@);
    }
    false
}

/// Puts `x` into the strictly sorted `sorted` unless it is already there.
pub fn insert_sorted(sorted: &mut Vec<String>, x: String)
    requires
        strictly_sorted(str_views(old(sorted)@)),
    ensures
        strictly_sorted(str_views(final(sorted)@)),
        forall|y: Seq<char>| #[trigger] str_views(final(sorted)@).contains(y) <==> (str_views(
            old(sorted)@,
        ).contains(y) || y == x@),
{
    let ghost old_v = str_views(sorted@);
    let xc = chars_of(x.as_str());
    let mut j: usize = 0;
    let mut stop = false;
    while j < sorted.len() && !stop
        invariant
            j <= sorted.len(),
            str_views(sorted@) == old_v,
            strictly_sorted(old_v),
            xc@ == x@,
            forall|k: int| 0 <= k < j ==> text_less(#[trigger] old_v[k], x@),
            stop ==> j < old_v.len() && text_less(x@, old_v[j as int]),
        decreases sorted.len() - j, if stop { 0int } else { 1int },
    {
        let cur = chars_of(sorted[j].as_str());
        assert(old_v[j as int] == cur@);
        if !less_chars(&cur, &xc) {
            if same_chars(&cur, &xc) {
                assert(old_v[j as int] == x@);
                assert forall|y: Seq<char>| #[trigger] old_v.contains(y) <==> (old_v.contains(y)
                    || y == x@) by {
                    if y == x@ {
                        assert(old_v[j as int] == y);
                    }
                }
                return;
            }
            proof {
                lemma_less_total(cur@, x@);
            }
            stop = true;
        } else {
            j = j + 1;
        }
    }
    proof {
        assert forall|k: int| j <= k < old_v.len() implies text_less(x@, #[trigger] old_v[k]) by {
            if k > j {
                lemma_less_transitive(x@, old_v[j as int], old_v[k]);
            }
        }
    }
    sorted.insert(j, x);
    let ghost nv = str_views(sorted@);
    assert(nv =~= old_v.insert(j as int, x@));
    assert forall|a: int, b: int| 0 <= a < b < nv.len() implies text_less(
        #[trigger] nv[a],
        #[trigger] nv[b],
    ) by {
        if b < j {
        } else if a < j && b == j {
        } else if a < j {
            assert(nv[b] == old_v[b - 1]);
        } else if a == j {
            assert(nv[b] == old_v[b - 1]);
        } else {
            assert(nv[a] == old_v[a - 1]);
            assert(nv[b] == old_v[b - 1]);
        }
    }
    assert forall|y: Seq<char>| #[trigger] nv.contains(y) <==> (old_v.contains(y) || y == x@) by {
        if nv.contains(y) {
            let k = choose|k: int| 0 <= k < nv.len() && #[trigger] nv[k] == y;
            if k < j {
                assert(old_v[k] == y);
            } else if k > j {
                assert(old_v[k - 1] == y);
            }
        }
        if old_v.contains(y) {
            let k = choose|k: int| 0 <= k < old_v.len() && #[trigger] old_v[k] == y;
            if k < j {
                assert(nv[k] == y);
            } else {
                assert(nv[k + 1] == y);
            }
        }
        if y == x@ {
            assert(nv[j as int] == y);
        }
    }
}

/// The names of `present` in the saved order: first those of `saved` that
/// are present, each once and in the order of their first place in `saved`;
/// then every other present name once, sorted.
pub fn arrange(saved: &[String], present: Vec<String>) -> (r: Vec<String>)
    ensures
        is_arranged(str_views(r@), str_views(saved@), str_views(present@)),
        str_views(r@) == arranged(str_views(saved@), str_views(present@)),
{
    let ghost sv = str_views(saved@);
    let ghost pv = str_views(present@);
    let mut ordered: Vec<String> = Vec::new();
    let mut i: usize = 0;
    while i < saved.len()
        invariant
            i <= saved.len(),
            sv == str_views(saved@),
            pv == str_views(present@),
            str_views(ordered@) == kept_names(sv.subrange(0, i as int), pv),
        decreases saved.len() - i,
    {
        assert(sv.subrange(0, i + 1).drop_last() =~= sv.subrange(0, i as int));
        assert(sv[i as int] == saved@[i as int]@);
        let name = &saved[i];
        if contains_text(&present, name) && !contains_text(&ordered, name) {
            let ghost before = str_views(ordered@);
            ordered.push(name.clone());
            assert(str_views(ordered@) =~= before.push(name@));
        }
        i = i + 1;
    }
    assert(sv.subrange(0, saved.len() as int) =~= sv);
    let ghost k = str_views(ordered@);
    let mut rest: Vec<String> = Vec::new();
    let mut j: usize = 0;
    while j < present.len()
        invariant
            j <= present.len(),
            pv == str_views(present@),
            k == str_views(ordered@),
            strictly_sorted(str_views(rest@)),
            forall|x: Seq<char>| #[trigger] str_views(rest@).contains(x) <==> (pv.subrange(
                0,
                j as int,
            ).contains(x) && !k.contains(x)),
        decreases present.len() - j,
    {
        let name = &present[j];
        assert(pv[j as int] == name@);
        let ghost before = str_views(rest@);
        if !contains_text(&ordered, name) {
            insert_sorted(&mut rest, name.clone());
        }
        assert forall|x: Seq<char>| #[trigger] str_views(rest@).contains(x) <==> (pv.subrange(
            0,
            j + 1,
        ).contains(x) && !k.contains(x)) by {
            if pv.subrange(0, j + 1).contains(x) {
                let q = choose|q: int| 0 <= q < j + 1 && #[trigger] pv.subrange(0, j + 1)[q] == x;
                if q < j {
                    assert(pv.subrange(0, j as int)[q] == x);
                }
            }
            if pv.subrange(0, j as int).contains(x) {
                let q = choose|q: int| 0 <= q < j && #[trigger] pv.subrange(0, j as int)[q] == x;
                assert(pv.subrange(0, j + 1)[q] == x);
            }
            if x == name@ {
                assert(pv.subrange(0, j + 1)[j as int] == x);
            }
        }
        j = j + 1;
    }
    assert(pv.subrange(0, present.len() as int) =~= pv);
    let ghost rv = str_views(rest@);
    ordered.append(&mut rest);
    assert(str_views(ordered@) =~= k + rv);
    assert(str_views(ordered@).subrange(0, k.len() as int) =~= k);
    assert(str_views(ordered@).subrange(k.len() as int, str_views(ordered@).len() as int) =~= rv);
    proof {
        assert(is_arranged(str_views(ordered@), sv, pv));
        let a = arranged(sv, pv);
        assert(is_arranged(a, sv, pv));
        lemma_arranged_unique(a, str_views(ordered@), sv, pv);
    }
    ordered
}

proof fn lemma_kept_props(saved: Seq<Seq<char>>, present: Seq<Seq<char>>)
    ensures
        kept_names(saved, present).no_duplicates(),
        forall|x: Seq<char>| #[trigger] kept_names(saved, present).contains(x) ==> present.contains(x)
            && saved.contains(x),
    decreases saved.len(),
{
    if saved.len() > 0 {
        lemma_kept_props(saved.drop_last(), present);
        let k = kept_names(saved.drop_last(), present);
        let x = saved.last();
        assert forall|y: Seq<char>| #[trigger] kept_names(saved, present).contains(y) implies present.contains(y)
            && saved.contains(y) by {
            if k.contains(y) {
                let q = choose|q: int| 0 <= q < saved.drop_last().len() && #[trigger] saved.drop_last()[q] == y;
                assert(saved[q] == y);
            } else {
                assert(saved[saved.len() - 1] == y);
            }
        }
        if present.contains(x) && !k.contains(x) {
            assert forall|i: int, j: int| 0 <= i < j < k.push(x).len() implies k.push(x)[i] != k.push(x)[j] by {
                if j == k.len() {
                    assert(k.contains(k[i]));
                }
            }
        }
    }
}

proof fn lemma_kept_identity(s: Seq<Seq<char>>, present: Seq<Seq<char>>)
    requires
        s.no_duplicates(),
        forall|x: Seq<char>| #[trigger] s.contains(x) ==> present.contains(x),
    ensures
        kept_names(s, present) == s,
    decreases s.len(),
{
    if s.len() > 0 {
        let d = s.drop_last();
        assert forall|x: Seq<char>| #[trigger] d.contains(x) implies present.contains(x) by {
            let q = choose|q: int| 0 <= q < d.len() && #[trigger] d[q] == x;
            assert(s[q] == x);
            assert(s.contains(x));
        }
        lemma_kept_identity(d, present);
        assert(s.contains(s.last()));
        if d.contains(s.last()) {
            let q = choose|q: int| 0 <= q < d.len() && #[trigger] d[q] == s.last();
            assert(s[q] == s[s.len() - 1]);
        }
        assert(d.push(s.last()) =~= s);
    }
}

pub proof fn lemma_sorted_unique(a: Seq<Seq<char>>, b: Seq<Seq<char>>)
    requires
        strictly_sorted(a),
        strictly_sorted(b),
        forall|x: Seq<char>| a.contains(x) <==> b.contains(x),
    ensures
        a == b,
    decreases a.len() + b.len(),
{
    if a.len() == 0 {
        if b.len() > 0 {
            assert(b.contains(b[0]));
        }
        assert(a =~= b);
    } else if b.len() == 0 {
        assert(a.contains(a[0]));
    } else {
        if a[0] != b[0] {
            assert(a.contains(a[0]));
            let k = choose|k: int| 0 <= k < b.len() && b[k] == a[0];
            assert(b.contains(b[0]));
            let m = choose|m: int| 0 <= m < a.len() && a[m] == b[0];
            assert(k > 0);
            assert(m > 0);
            assert(text_less(b[0], b[k]));
            assert(text_less(a[0], a[m]));
            lemma_less_transitive(a[0], b[0], a[0]);
            lemma_less_irreflexive(a[0]);
        }
        let a1 = a.drop_first();
        let b1 = b.drop_first();
        assert forall|x: Seq<char>| a1.contains(x) <==> b1.contains(x) by {
            if a1.contains(x) {
                let q = choose|q: int| 0 <= q < a1.len() && a1[q] == x;
                assert(a[q + 1] == x);
                assert(text_less(a[0], a[q + 1]));
                assert(b.contains(x));
                let r = choose|r: int| 0 <= r < b.len() && b[r] == x;
                if r == 0 {
                    lemma_less_irreflexive(x);
                }
                assert(b1[r - 1] == x);
            }
            if b1.contains(x) {
                let q = choose|q: int| 0 <= q < b1.len() && b1[q] == x;
                assert(b[q + 1] == x);
                assert(text_less(b[0], b[q + 1]));
                assert(a.contains(x));
                let r = choose|r: int| 0 <= r < a.len() && a[r] == x;
                if r == 0 {
                    lemma_less_irreflexive(x);
                }
                assert(a1[r - 1] == x);
            }
        }
        assert forall|i: int, j: int| 0 <= i < j < a1.len() implies text_less(#[trigger] a1[i], #[trigger] a1[j]) by {
            assert(a1[i] == a[i + 1] && a1[j] == a[j + 1]);
        }
        assert forall|i: int, j: int| 0 <= i < j < b1.len() implies text_less(#[trigger] b1[i], #[trigger] b1[j]) by {
            assert(b1[i] == b[i + 1] && b1[j] == b[j + 1]);
        }
        lemma_sorted_unique(a1, b1);
        assert(a =~= seq![a[0]] + a1);
        assert(b =~= seq![b[0]] + b1);
    }
}

/// An arranged order holds each present name exactly once, and nothing else.
pub proof fn lemma_arranged_names(r: Seq<Seq<char>>, saved: Seq<Seq<char>>, present: Seq<Seq<char>>)
    requires
        is_arranged(r, saved, present),
    ensures
        r.no_duplicates(),
        forall|x: Seq<char>| #[trigger] r.contains(x) <==> present.contains(x),
{
    let k = kept_names(saved, present);
    let rest = r.subrange(k.len() as int, r.len() as int);
    lemma_kept_props(saved, present);
    assert(r =~= k + rest);
    assert forall|i: int, j: int| 0 <= i < j < r.len() implies r[i] != r[j] by {
        if j < k.len() {
            assert(r[i] == k[i] && r[j] == k[j]);
        } else if i < k.len() {
            assert(r[i] == k[i]);
            assert(r[j] == rest[j - k.len()]);
            assert(rest.contains(r[j]));
            assert(k.contains(k[i]));
        } else {
            assert(r[i] == rest[i - k.len()] && r[j] == rest[j - k.len()]);
            assert(text_less(rest[i - k.len()], rest[j - k.len()]));
            if r[i] == r[j] {
                lemma_less_irreflexive(r[i]);
            }
        }
    }
    assert forall|x: Seq<char>| #[trigger] r.contains(x) <==> present.contains(x) by {
        if r.contains(x) {
            let q = choose|q: int| 0 <= q < r.len() && r[q] == x;
            if q < k.len() {
                assert(k[q] == x);
                assert(k.contains(x));
            } else {
                assert(rest[q - k.len()] == x);
                assert(rest.contains(x));
            }
        }
        if present.contains(x) {
            if k.contains(x) {
                let q = choose|q: int| 0 <= q < k.len() && k[q] == x;
                assert(r[q] == x);
            } else {
                assert(rest.contains(x));
                let q = choose|q: int| 0 <= q < rest.len() && rest[q] == x;
                assert(r[q + k.len()] == x);
            }
        }
    }
}

/// Arranging is deterministic: two orders arranged from the same saved
/// order over the same present names are equal.
pub proof fn lemma_arranged_unique(
    r1: Seq<Seq<char>>,
    r2: Seq<Seq<char>>,
    saved: Seq<Seq<char>>,
    present: Seq<Seq<char>>,
)
    requires
        is_arranged(r1, saved, present),
        is_arranged(r2, saved, present),
    ensures
        r1 == r2,
{
    let k = kept_names(saved, present);
    let rest1 = r1.subrange(k.len() as int, r1.len() as int);
    let rest2 = r2.subrange(k.len() as int, r2.len() as int);
    assert forall|x: Seq<char>| rest1.contains(x) <==> rest2.contains(x) by {
        assert(rest1.contains(x) <==> (present.contains(x) && !k.contains(x)));
        assert(rest2.contains(x) <==> (present.contains(x) && !k.contains(x)));
    }
    lemma_sorted_unique(rest1, rest2);
    assert(r1 =~= k + rest1);
    assert(r2 =~= k + rest2);
}

/// Arranging an arranged order again over the same names keeps it as it is,
/// so a saved order that lists each present name once is shown unchanged.
pub proof fn lemma_arrange_idempotent(
    r: Seq<Seq<char>>,
    saved: Seq<Seq<char>>,
    present: Seq<Seq<char>>,
    r2: Seq<Seq<char>>,
)
    requires
        is_arranged(r, saved, present),
        is_arranged(r2, r, present),
    ensures
        r2 == r,
{
    lemma_arranged_names(r, saved, present);
    lemma_kept_identity(r, present);
    assert(r.subrange(0, r.len() as int) =~= r);
    let rest = r.subrange(r.len() as int, r.len() as int);
    assert(rest =~= Seq::<Seq<char>>::empty());
    assert(is_arranged(r, r, present));
    lemma_arranged_unique(r, r2, r, present);
}

/// The number of names of the sorted `s` that come before `x`.
pub open spec fn lower_bound(s: Seq<Seq<char>>, x: Seq<char>) -> int
    decreases s.len(),
{
    if s.len() == 0 {
        0
    } else if text_less(s.last(), x) {
        s.len() as int
    } else {
        lower_bound(s.drop_last(), x)
    }
}

proof fn lemma_lower_bound(s: Seq<Seq<char>>, x: Seq<char>)
    requires
        strictly_sorted(s),
        !s.contains(x),
    ensures
        0 <= lower_bound(s, x) <= s.len(),
        forall|i: int| 0 <= i < lower_bound(s, x) ==> text_less(#[trigger] s[i], x),
        forall|i: int| lower_bound(s, x) <= i < s.len() ==> text_less(x, #[trigger] s[i]),
    decreases s.len(),
{
    if s.len() > 0 {
        let n = s.len() - 1;
        if text_less(s.last(), x) {
            assert forall|i: int| 0 <= i < s.len() implies text_less(#[trigger] s[i], x) by {
                if i < n {
                    lemma_less_transitive(s[i], s[n], x);
                }
            }
        } else {
            assert(s[n] != x);
            lemma_less_total(s[n], x);
            let t = s.drop_last();
            assert(!t.contains(x)) by {
                if t.contains(x) {
                    let q = choose|q: int| 0 <= q < t.len() && t[q] == x;
                    assert(s[q] == x);
                }
            }
            lemma_lower_bound(t, x);
            assert forall|i: int| 0 <= i < lower_bound(s, x) implies text_less(#[trigger] s[i], x) by {
                assert(t[i] == s[i]);
            }
            assert forall|i: int| lower_bound(s, x) <= i < s.len() implies text_less(x, #[trigger] s[i]) by {
                if i < n {
                    assert(t[i] == s[i]);
                }
            }
        }
    }
}

/// A name that a sorted list lacks can be put into its sorted place.
pub proof fn lemma_sorted_insert(s: Seq<Seq<char>>, x: Seq<char>)
    requires
        strictly_sorted(s),
        !s.contains(x),
    ensures
        strictly_sorted(s.insert(lower_bound(s, x), x)),
        forall|y: Seq<char>| #[trigger] s.insert(lower_bound(s, x), x).contains(y) <==> (s.contains(y) || y == x),
{
    lemma_lower_bound(s, x);
    let p = lower_bound(s, x);
    let t = s.insert(p, x);
    assert forall|i: int, j: int| 0 <= i < j < t.len() implies text_less(#[trigger] t[i], #[trigger] t[j]) by {
        if j < p {
            assert(t[i] == s[i] && t[j] == s[j]);
        } else if j == p {
            assert(t[i] == s[i]);
        } else if i < p {
            assert(t[i] == s[i] && t[j] == s[j - 1]);
        } else if i == p {
            assert(t[j] == s[j - 1]);
        } else {
            assert(t[i] == s[i - 1] && t[j] == s[j - 1]);
        }
    }
    assert forall|y: Seq<char>| #[trigger] t.contains(y) <==> (s.contains(y) || y == x) by {
        if t.contains(y) {
            let q = choose|q: int| 0 <= q < t.len() && t[q] == y;
            if q < p {
                assert(s[q] == y);
            } else if q > p {
                assert(s[q - 1] == y);
            }
        }
        if s.contains(y) {
            let q = choose|q: int| 0 <= q < s.len() && s[q] == y;
            if q < p {
                assert(t[q] == y);
            } else {
                assert(t[q + 1] == y);
            }
        }
        if y == x {
            assert(t[p] == x);
        }
    }
}

/// Some sorted list holds exactly the names of `p` that `k` lacks.
pub proof fn lemma_sorted_exists(p: Seq<Seq<char>>, k: Seq<Seq<char>>)
    ensures
        exists|r: Seq<Seq<char>>| strictly_sorted(r) && forall|x: Seq<char>| #[trigger] r.contains(x) <==> (p.contains(x) && !k.contains(x)),
    decreases p.len(),
{
    if p.len() == 0 {
        let r: Seq<Seq<char>> = seq![];
        assert(strictly_sorted(r) && forall|x: Seq<char>| #[trigger] r.contains(x) <==> (p.contains(x) && !k.contains(x)));
    } else {
        let init = p.drop_last();
        let y = p.last();
        lemma_sorted_exists(init, k);
        let r0 = choose|r: Seq<Seq<char>>| strictly_sorted(r) && forall|x: Seq<char>| #[trigger] r.contains(x) <==> (init.contains(x) && !k.contains(x));
        assert forall|x: Seq<char>| p.contains(x) <==> (init.contains(x) || x == y) by {
            if p.contains(x) {
                let q = choose|q: int| 0 <= q < p.len() && p[q] == x;
                if q < p.len() - 1 {
                    assert(init[q] == x);
                }
            }
            if init.contains(x) {
                let q = choose|q: int| 0 <= q < init.len() && init[q] == x;
                assert(p[q] == x);
            }
            if x == y {
                assert(p[p.len() - 1] == y);
            }
        }
        if k.contains(y) || r0.contains(y) {
            assert(strictly_sorted(r0) && forall|x: Seq<char>| #[trigger] r0.contains(x) <==> (p.contains(x) && !k.contains(x)));
        } else {
            lemma_sorted_insert(r0, y);
            let r1 = r0.insert(lower_bound(r0, y), y);
            assert(strictly_sorted(r1) && forall|x: Seq<char>| #[trigger] r1.contains(x) <==> (p.contains(x) && !k.contains(x)));
        }
    }
}

/// Every saved order can be arranged over every list of present names.
pub proof fn lemma_arranged_exists(saved: Seq<Seq<char>>, present: Seq<Seq<char>>)
    ensures
        is_arranged(arranged(saved, present), saved, present),
{
    let k = kept_names(saved, present);
    lemma_sorted_exists(present, k);
    let rest = choose|r: Seq<Seq<char>>| strictly_sorted(r) && forall|x: Seq<char>| #[trigger] r.contains(x) <==> (present.contains(x) && !k.contains(x));
    let r = k + rest;
    assert(r.subrange(0, k.len() as int) =~= k);
    assert(r.subrange(k.len() as int, r.len() as int) =~= rest);
    assert(is_arranged(r, saved, present));
}

/// Every saved name that is present is kept.
proof fn lemma_kept_complete(saved: Seq<Seq<char>>, present: Seq<Seq<char>>, x: Seq<char>)
    requires
        saved.contains(x),
        present.contains(x),
    ensures
        kept_names(saved, present).contains(x),
    decreases saved.len(),
{
    let init = saved.drop_last();
    let k = kept_names(init, present);
    if saved.last() == x {
        if !k.contains(x) {
            assert(k.push(x)[k.len() as int] == x);
        }
    } else {
        let q = choose|q: int| 0 <= q < saved.len() && saved[q] == x;
        assert(q < saved.len() - 1);
        assert(init[q] == x);
        lemma_kept_complete(init, present, x);
        if present.contains(saved.last()) && !k.contains(saved.last()) {
            let j = choose|j: int| 0 <= j < k.len() && k[j] == x;
            assert(k.push(saved.last())[j] == x);
        }
    }
}

/// Keeping names of a saved order in which one name was renamed to a new
/// one keeps the same names, renamed.
proof fn lemma_kept_renamed(
    saved: Seq<Seq<char>>,
    present: Seq<Seq<char>>,
    present2: Seq<Seq<char>>,
    f: Seq<char>,
    t: Seq<char>,
)
    requires
        present.contains(f),
        !saved.contains(t),
        !present.contains(t),
        forall|x: Seq<char>| #[trigger] present2.contains(x) <==> ((present.contains(x) && x != f) || x == t),
    ensures
        kept_names(crate::order::renamed(saved, f, t), present2) == crate::order::renamed(kept_names(saved, present), f, t),
    decreases saved.len(),
{
    let rn = |n: Seq<char>| if n == f { t } else { n };
    if saved.len() > 0 {
        let init = saved.drop_last();
        let x = saved.last();
        assert(!init.contains(t)) by {
            if init.contains(t) {
                let q = choose|q: int| 0 <= q < init.len() && init[q] == t;
                assert(saved[q] == t);
            }
        }
        lemma_kept_renamed(init, present, present2, f, t);
        let k = kept_names(init, present);
        lemma_kept_props(init, present);
        let k2 = crate::order::renamed(k, f, t);
        assert(crate::order::renamed(saved, f, t) =~= crate::order::renamed(init, f, t).push(rn(x)));
        assert(crate::order::renamed(saved, f, t).drop_last() =~= crate::order::renamed(init, f, t));
        assert(x != t) by {
            assert(saved[saved.len() - 1] == x);
        }
        assert(present2.contains(rn(x)) == present.contains(x));
        assert(k2.contains(rn(x)) == k.contains(x)) by {
            if k2.contains(rn(x)) {
                let q = choose|q: int| 0 <= q < k2.len() && k2[q] == rn(x);
                assert(k2[q] == rn(k[q]));
                assert(k.contains(k[q]));
                assert(init.contains(k[q]));
                if k[q] != x {
                    if k[q] == f {
                        assert(rn(x) == t);
                    } else if x == f {
                        assert(k[q] == t);
                    }
                }
            }
            if k.contains(x) {
                let q = choose|q: int| 0 <= q < k.len() && k[q] == x;
                assert(k2[q] == rn(x));
            }
        }
        if present.contains(x) && !k.contains(x) {
            assert(crate::order::renamed(k.push(x), f, t) =~= k2.push(rn(x)));
        }
    }
}

/// Renaming a name that the saved order lists, to a name that is neither
/// saved nor present, renames it in the arranged order, in its place.
pub proof fn lemma_arranged_renamed(
    saved: Seq<Seq<char>>,
    present: Seq<Seq<char>>,
    present2: Seq<Seq<char>>,
    f: Seq<char>,
    t: Seq<char>,
)
    requires
        saved.contains(f),
        present.contains(f),
        !saved.contains(t),
        !present.contains(t),
        forall|x: Seq<char>| #[trigger] present2.contains(x) <==> ((present.contains(x) && x != f) || x == t),
    ensures
        arranged(crate::order::renamed(saved, f, t), present2) == crate::order::renamed(arranged(saved, present), f, t),
{
    let s2 = crate::order::renamed(saved, f, t);
    let k = kept_names(saved, present);
    let k2 = kept_names(s2, present2);
    lemma_kept_renamed(saved, present, present2, f, t);
    lemma_kept_complete(saved, present, f);
    lemma_kept_props(saved, present);
    let r = arranged(saved, present);
    let r2 = arranged(s2, present2);
    lemma_arranged_exists(saved, present);
    lemma_arranged_exists(s2, present2);
    let rest = r.subrange(k.len() as int, r.len() as int);
    let rest2 = r2.subrange(k2.len() as int, r2.len() as int);
    assert(k2.len() == k.len());
    let fi = choose|q: int| 0 <= q < k.len() && k[q] == f;
    assert(k2[fi] == t);
    assert forall|x: Seq<char>| rest.contains(x) <==> rest2.contains(x) by {
        assert(rest.contains(x) <==> (present.contains(x) && !k.contains(x)));
        assert(rest2.contains(x) <==> (present2.contains(x) && !k2.contains(x)));
        if x != t && x != f {
            if k2.contains(x) {
                let q = choose|q: int| 0 <= q < k2.len() && k2[q] == x;
                assert(k2[q] == if k[q] == f { t } else { k[q] });
                assert(k[q] == x);
            }
            if k.contains(x) {
                let q = choose|q: int| 0 <= q < k.len() && k[q] == x;
                assert(k2[q] == x);
            }
        }
        if x == t {
            assert(k2.contains(t));
        }
        if x == f {
            assert(k.contains(f));
        }
    }
    lemma_sorted_unique(rest, rest2);
    assert(!rest.contains(f)) by {
        assert(k.contains(f));
    }
    assert(r =~= k + rest);
    assert(r2 =~= k2 + rest2);
    assert(crate::order::renamed(r, f, t) =~= k2 + rest) by {
        assert forall|i: int| 0 <= i < r.len() implies #[trigger] crate::order::renamed(r, f, t)[i] == (k2 + rest)[i] by {
            if i >= k.len() {
                assert(rest[i - k.len()] == r[i]);
                assert(rest.contains(r[i]));
            }
        }
    }
}

} // verus!
