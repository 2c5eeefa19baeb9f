//! Newline handling and the Markdown form in which a note is stored.
use vstd::prelude::*;
use crate::text::{
    chars_of, has_prefix, lacks, push_chars, push_str, slice_chars, starts_with, string_of,
    strip_all_end, strip_all_start, strip_end_all, strip_start_all,
};

verus! {

/// The byte order mark that some editors put before the text of a file.
pub open spec fn bom() -> char {
    '\u{feff}'
}

/// `s` with each `\r\n`, and then each remaining `\r`, turned into `\n`.
pub open spec fn unify_newlines(s: Seq<char>) -> Seq<char>
    decreases s.len(),
{
    if s.len() == 0 {
        seq![]
    } else if s[0] == '\r' && s.len() >= 2 && s[1] == '\n' {
        seq!['\n'] + unify_newlines(s.subrange(2, s.len() as int))
    } else if s[0] == '\r' {
        seq!['\n'] + unify_newlines(s.drop_first())
    } else {
        seq![s[0]] + unify_newlines(s.drop_first())
    }
}

/// The text of a file as the store reads it: without leading byte order
/// marks, and with `\n` for every line ending.
pub open spec fn normalized(s: Seq<char>) -> Seq<char> {
    unify_newlines(strip_all_start(s, bom()))
}

/// The first line of a stored note, `# title`, with its line ending.
pub open spec fn heading(title: Seq<char>) -> Seq<char> {
    seq!['#', ' '] + title + seq!['\n']
}

/// The body of a note as it is kept: normalized, without trailing newlines.
pub open spec fn kept_body(body: Seq<char>) -> Seq<char> {
    strip_all_end(normalized(body), '\n')
}

/// The file content of a note with this title and body.
pub open spec fn encoded_note(title: Seq<char>, body: Seq<char>) -> Seq<char> {
    let b = kept_body(body);
    if b.len() == 0 {
        heading(title)
    } else {
        heading(title) + seq!['\n'] + b + seq!['\n']
    }
}

/// The body that a note file with this content shows under this title.
pub open spec fn decoded_note(title: Seq<char>, raw: Seq<char>) -> Seq<char> {
    let text = normalized(raw);
    let h = heading(title);
    let body = if has_prefix(text, h + seq!['\n']) {
        text.subrange(h.len() + 1int, text.len() as int)
    } else if has_prefix(text, h) {
        strip_all_start(text.subrange(h.len() as int, text.len() as int), '\n')
    } else {
        text
    };
    strip_all_end(body, '\n')
}

proof fn lemma_unify_step(s: Seq<char>, i: int)
    requires
        0 <= i < s.len(),
    ensures
        s[i] == '\r' && i + 1 < s.len() && s[i + 1] == '\n' ==> unify_newlines(
            s.subrange(i, s.len() as int),
        ) == seq!['\n'] + unify_newlines(s.subrange(i + 2, s.len() as int)),
        !(s[i] == '\r' && i + 1 < s.len() && s[i + 1] == '\n') ==> unify_newlines(
            s.subrange(i, s.len() as int),
        ) == seq![if s[i] == '\r' { '\n' } else { s[i] }] + unify_newlines(
            s.subrange(i + 1, s.len() as int),
        ),
{
    let t = s.subrange(i, s.len() as int);
    assert(t.drop_first() =~= s.subrange(i + 1, s.len() as int));
    if t.len() >= 2 {
        assert(t.subrange(2, t.len() as int) =~= s.subrange(i + 2, s.len() as int));
    }
}

/// `value` without leading byte order marks and with `\n` for every line ending.
pub fn normalize_newlines(value: &Vec<char>) -> (r: Vec<char>)
    ensures
        r@ == normalized(value@),
{
    let s = strip_start_all(value, '\u{feff}');
    let n = s.len();
    let mut out: Vec<char> = Vec::new();
    let mut i: usize = 0;
    assert(s@.subrange(0, n as int) =~= s@);
    while i < n
        invariant
            i <= n == s.len(),
            s@ == strip_all_start(value@, bom()),
            out@ + unify_newlines(s@.subrange(i as int, n as int)) == normalized(value@),
        decreases n - i,
    {
        proof {
            lemma_unify_step(s@, i as int);
        }
        if s[i] == '\r' && i + 1 < n && s[i + 1] == '\n' {
            out.push('\n');
            assert(out@ + unify_newlines(s@.subrange(i + 2, n as int)) =~= old_out_plus(
                out@,
                s@,
                i as int,
                n as int,
            ));
            i = i + 2;
        } else {
            let c = if s[i] == '\r' {
                '\n'
            } else {
                s[i]
            };
            out.push(c);
            i = i + 1;
        }
        assert(s@.subrange(n as int, n as int) =~= Seq::<char>::empty());
    }
    assert(s@.subrange(n as int, n as int) =~= Seq::<char>::empty());
    assert(out@ + Seq::<char>::empty() =~= out@);
    out
}

spec fn old_out_plus(out: Seq<char>, s: Seq<char>, i: int, n: int) -> Seq<char> {
    out + unify_newlines(s.subrange(i + 2, n))
}

/// The file content of a note: a `# title` line, then a blank line and the
/// body when the body is not empty.
pub fn encode_note(title: &str, body: &str) -> (r: String)
    ensures
        r@ == encoded_note(title@, body@),
{
    let raw = chars_of(body);
    let norm = normalize_newlines(&raw);
    let b = strip_end_all(&norm, '\n');
    let mut out: Vec<char> = Vec::new();
    out.push('#');
    out.push(' ');
    push_str(&mut out, title);
    out.push('\n');
    assert(out@ =~= heading(title@));
    if b.len() > 0 {
        out.push('\n');
        push_chars(&mut out, &b);
        out.push('\n');
    }
    string_of(&out)
}

/// The body shown for a note file: the content after the `# title` line and
/// the blank line that follows it, or the whole content when it does not
/// begin with that heading; trailing newlines are dropped.
pub fn decode_note(title: &str, raw: &str) -> (r: String)
    ensures
        r@ == decoded_note(title@, raw@),
{
    let raw_v = chars_of(raw);
    let text = normalize_newlines(&raw_v);
    let mut h: Vec<char> = Vec::new();
    h.push('#');
    h.push(' ');
    push_str(&mut h, title);
    h.push('\n');
    assert(h@ =~= heading(title@));
    let mut hb = h.clone();
    hb.push('\n');
    assert(hb@ =~= heading(title@) + seq!['\n']);
    let body = if starts_with(&text, &hb) {
        slice_chars(&text, hb.len(), text.len())
    } else if starts_with(&text, &h) {
        let rest = slice_chars(&text, h.len(), text.len());
        strip_start_all(&rest, '\n')
    } else {
        text
    };
    let trimmed = strip_end_all(&body, '\n');
    string_of(&trimmed)
}

/// Normalizing text without `\r` that does not begin with a byte order mark
/// leaves it as it is.
pub proof fn lemma_normalized_plain(s: Seq<char>)
    requires
        lacks(s, '\r'),
        s.len() > 0 ==> s[0] != bom(),
    ensures
        normalized(s) == s,
{
    lemma_unify_plain(s);
}

proof fn lemma_unify_plain(s: Seq<char>)
    requires
        lacks(s, '\r'),
    ensures
        unify_newlines(s) == s,
    decreases s.len(),
{
    if s.len() > 0 {
        assert(lacks(s.drop_first(), '\r')) by {
            assert forall|i: int| 0 <= i < s.drop_first().len() implies s.drop_first()[i]
                != '\r' by {
                assert(s.drop_first()[i] == s[i + 1]);
            }
        }
        lemma_unify_plain(s.drop_first());
        assert(seq![s[0]] + s.drop_first() =~= s);
    }
}

/// `unify_newlines` never leaves a `\r` behind.
pub proof fn lemma_unify_lacks_cr(s: Seq<char>)
    ensures
        lacks(unify_newlines(s), '\r'),
    decreases s.len(),
{
    if s.len() == 0 {
    } else if s[0] == '\r' && s.len() >= 2 && s[1] == '\n' {
        lemma_unify_lacks_cr(s.subrange(2, s.len() as int));
        let t = unify_newlines(s.subrange(2, s.len() as int));
        assert forall|i: int| 0 <= i < (seq!['\n'] + t).len() implies (seq!['\n'] + t)[i]
            != '\r' by {
            if i > 0 {
                assert((seq!['\n'] + t)[i] == t[i - 1]);
            }
        }
    } else {
        lemma_unify_lacks_cr(s.drop_first());
        let t = unify_newlines(s.drop_first());
        let c = if s[0] == '\r' {
            '\n'
        } else {
            s[0]
        };
        assert forall|i: int| 0 <= i < (seq![c] + t).len() implies (seq![c] + t)[i] != '\r' by {
            if i > 0 {
                assert((seq![c] + t)[i] == t[i - 1]);
            }
        }
    }
}

proof fn lemma_strip_end_lacks(s: Seq<char>, c: char, d: char)
    requires
        lacks(s, d),
    ensures
        lacks(strip_all_end(s, c), d),
        strip_all_end(s, c).len() > 0 ==> strip_all_end(s, c).last() != c,
        strip_all_end(s, c).len() <= s.len(),
        forall|i: int| 0 <= i < strip_all_end(s, c).len() ==> strip_all_end(s, c)[i] == s[i],
    decreases s.len(),
{
    if s.len() > 0 && s.last() == c {
        assert(lacks(s.drop_last(), d)) by {
            assert forall|i: int| 0 <= i < s.drop_last().len() implies s.drop_last()[i] != d by {
                assert(s.drop_last()[i] == s[i]);
            }
        }
        lemma_strip_end_lacks(s.drop_last(), c, d);
        assert forall|i: int| 0 <= i < strip_all_end(s, c).len() implies strip_all_end(s, c)[i]
            == s[i] by {
            assert(s.drop_last()[i] == s[i]);
        }
    }
}

proof fn lemma_strip_end_append(s: Seq<char>, c: char)
    requires
        s.len() > 0 ==> s.last() != c,
    ensures
        strip_all_end(s + seq![c], c) == s,
        strip_all_end(s, c) == s,
{
    assert(strip_all_end(s, c) == s);
    assert((s + seq![c]).drop_last() =~= s);
    assert((s + seq![c]).last() == c);
    assert(strip_all_end(s + seq![c], c) == strip_all_end(s, c));
}

/// A note read back under the title it was written with shows the body that
/// was written, normalized and without trailing newlines.
pub proof fn lemma_note_roundtrip(title: Seq<char>, body: Seq<char>)
    requires
        lacks(title, '\r'),
    ensures
        decoded_note(title, encoded_note(title, body)) == kept_body(body),
        normalized(encoded_note(title, body)) == encoded_note(title, body),
{
    let b = kept_body(body);
    let h = heading(title);
    lemma_unify_lacks_cr(strip_all_start(body, bom()));
    lemma_strip_end_lacks(normalized(body), '\n', '\r');
    let e = encoded_note(title, body);
    assert(lacks(h, '\r')) by {
        assert forall|i: int| 0 <= i < h.len() implies h[i] != '\r' by {
            if 2 <= i < 2 + title.len() {
                assert(h[i] == title[i - 2]);
            }
        }
    }
    assert(lacks(e, '\r')) by {
        assert forall|i: int| 0 <= i < e.len() implies e[i] != '\r' by {
            if b.len() > 0 {
                let e2 = h + seq!['\n'] + b + seq!['\n'];
                assert(e == e2);
                if i < h.len() {
                    assert(e2[i] == h[i]);
                } else if i == h.len() {
                } else if i < h.len() + 1int + b.len() {
                    assert(e2[i] == b[i - h.len() - 1]);
                } else {
                }
            } else {
                assert(e[i] == h[i]);
            }
        }
    }
    assert(e[0] == '#');
    lemma_normalized_plain(e);
    lemma_strip_end_append(b, '\n');
    if b.len() > 0 {
        let e2 = h + seq!['\n'] + b + seq!['\n'];
        assert(e2.subrange(0, h.len() + 1int) =~= h + seq!['\n']);
        assert(e2.subrange(h.len() + 1int, e2.len() as int) =~= b + seq!['\n']);
    } else {
        assert(h.subrange(0, h.len() as int) =~= h);
        assert(h.subrange(h.len() as int, h.len() as int) =~= Seq::<char>::empty());
        assert(strip_all_start(Seq::<char>::empty(), '\n') =~= Seq::<char>::empty());
        assert(strip_all_end(Seq::<char>::empty(), '\n') =~= Seq::<char>::empty());
    }
}

proof fn lemma_strip_start_head(s: Seq<char>, c: char)
    ensures
        strip_all_start(s, c).len() > 0 ==> strip_all_start(s, c)[0] != c,
    decreases s.len(),
{
    if s.len() > 0 && s[0] == c {
        lemma_strip_start_head(s.drop_first(), c);
    }
}

/// Normalized text holds no `\r` and does not begin with a byte order mark,
/// so normalizing it again leaves it as it is.
pub proof fn lemma_normalized_twice(s: Seq<char>)
    ensures
        lacks(normalized(s), '\r'),
        normalized(s).len() > 0 ==> normalized(s)[0] != bom(),
        normalized(normalized(s)) == normalized(s),
{
    let t = strip_all_start(s, bom());
    lemma_unify_lacks_cr(t);
    lemma_strip_start_head(s, bom());
    if t.len() > 0 {
        assert(unify_newlines(t)[0] == '\n' || unify_newlines(t)[0] == t[0]);
    }
    lemma_normalized_plain(normalized(s));
}

} // verus!
