//! The Markdown checklist in which one day's to-do items are stored:
//! a `# YYYY-MM-DD` heading, a blank line, then one `- [ ] text` or
//! `- [x] text` line per item.
use vstd::prelude::*;
use crate::notes::{lemma_normalized_plain, normalize_newlines, normalized};
use crate::records::{invalid, is_invalid, StoreError, TodoItem};
use crate::text::{
    chars_of, has_prefix, lacks, push_chars, push_str, slice_chars, starts_with, string_of,
    trim, trim_chars, is_space, trim_start, trim_end,
};

verus! {

/// The longest text of a to-do item, counted in characters.
pub const MAX_TODO_CHARS: usize = 200;

impl View for TodoItem {
    type V = (Seq<char>, bool);

    open spec fn view(&self) -> (Seq<char>, bool) {
        (self.text@, self.done)
    }
}

/// The views of a sequence of items.
pub open spec fn todo_views(items: Seq<TodoItem>) -> Seq<(Seq<char>, bool)> {
    items.map_values(|t: TodoItem| t@)
}

/// The texts held by a sequence of character vectors.
pub open spec fn char_views(v: Seq<Vec<char>>) -> Seq<Seq<char>> {
    v.map_values(|x: Vec<char>| x@)
}

/// The state of splitting `s` into lines: the finished lines and the
/// characters of the line not yet ended by `\n`.
pub open spec fn line_state(s: Seq<char>) -> (Seq<Seq<char>>, Seq<char>)
    decreases s.len(),
{
    if s.len() == 0 {
        (seq![], seq![])
    } else {
        let (done, cur) = line_state(s.drop_last());
        if s.last() == '\n' {
            (done.push(cur), seq![])
        } else {
            (done, cur.push(s.last()))
        }
    }
}

/// The lines of `s`, split at `\n`; a final `\n` does not start another line.
pub open spec fn lines(s: Seq<char>) -> Seq<Seq<char>> {
    let (done, cur) = line_state(s);
    if cur.len() > 0 {
        done.push(cur)
    } else {
        done
    }
}

/// The check mark of a line after its `- [`: `x` or `X` for done, a space
/// for open.
pub open spec fn mark_of(l: Seq<char>) -> Option<bool> {
    if has_prefix(l, seq!['-', ' ', '[', 'x', ']']) || has_prefix(l, seq!['-', ' ', '[', 'X', ']']) {
        Some(true)
    } else if has_prefix(l, seq!['-', ' ', '[', ' ', ']']) {
        Some(false)
    } else {
        None
    }
}

/// The item that one line of a to-do file holds, if any: a trimmed line
/// that begins with `- [x]`, `- [X]` or `- [ ]` and has text after it.
pub open spec fn todo_of_line(line: Seq<char>) -> Option<(Seq<char>, bool)> {
    let l = trim(line);
    match mark_of(l) {
        Some(done) => {
            let text = trim(l.subrange(5, l.len() as int));
            if text.len() == 0 {
                None
            } else {
                Some((text, done))
            }
        },
        None => None,
    }
}

/// The items held by a sequence of lines, in order.
pub open spec fn todos_of_lines(ls: Seq<Seq<char>>) -> Seq<(Seq<char>, bool)>
    decreases ls.len(),
{
    if ls.len() == 0 {
        seq![]
    } else {
        let rest = todos_of_lines(ls.drop_last());
        match todo_of_line(ls.last()) {
            Some(t) => rest.push(t),
            None => rest,
        }
    }
}

/// The items that a to-do file with this content holds.
pub open spec fn parsed_todos(raw: Seq<char>) -> Seq<(Seq<char>, bool)> {
    todos_of_lines(lines(normalized(raw)))
}

/// `s` with every `\r` and `\n` turned into a space.
pub open spec fn breaks_to_spaces(s: Seq<char>) -> Seq<char> {
    s.map_values(|c: char| if c == '\r' || c == '\n' { ' ' } else { c })
}

/// The text that an item keeps when it is saved.
pub open spec fn cleaned_text(s: Seq<char>) -> Seq<char> {
    trim(breaks_to_spaces(s))
}

/// The items that are saved of `items`: those whose cleaned text is not
/// empty, with that text.
pub open spec fn cleaned_todos(items: Seq<(Seq<char>, bool)>) -> Seq<(Seq<char>, bool)>
    decreases items.len(),
{
    if items.len() == 0 {
        seq![]
    } else {
        let rest = cleaned_todos(items.drop_last());
        let t = cleaned_text(items.last().0);
        if t.len() == 0 {
            rest
        } else {
            rest.push((t, items.last().1))
        }
    }
}

/// Whether some item of `items` is too long to be saved.
pub open spec fn has_overlong(items: Seq<(Seq<char>, bool)>) -> bool {
    exists|i: int| 0 <= i < items.len() && cleaned_text(#[trigger] items[i].0).len() > MAX_TODO_CHARS
}

/// The items of `items` that are not done, in order.
pub open spec fn open_todos(items: Seq<(Seq<char>, bool)>) -> Seq<(Seq<char>, bool)>
    decreases items.len(),
{
    if items.len() == 0 {
        seq![]
    } else if items.last().1 {
        open_todos(items.drop_last())
    } else {
        open_todos(items.drop_last()).push(items.last())
    }
}

/// The items of `items` that are done, in order.
pub open spec fn done_todos(items: Seq<(Seq<char>, bool)>) -> Seq<(Seq<char>, bool)>
    decreases items.len(),
{
    if items.len() == 0 {
        seq![]
    } else if items.last().1 {
        done_todos(items.drop_last()).push(items.last())
    } else {
        done_todos(items.drop_last())
    }
}

/// `items` with the open ones first and the done ones after them.
pub open spec fn sunk(items: Seq<(Seq<char>, bool)>) -> Seq<(Seq<char>, bool)> {
    open_todos(items) + done_todos(items)
}

/// The line that stores one item.
pub open spec fn todo_line(t: (Seq<char>, bool)) -> Seq<char> {
    seq!['-', ' ', '[', if t.1 { 'x' } else { ' ' }, ']', ' '] + t.0 + seq!['\n']
}

/// The lines that store `items`, one after another.
pub open spec fn todo_lines(items: Seq<(Seq<char>, bool)>) -> Seq<char>
    decreases items.len(),
{
    if items.len() == 0 {
        seq![]
    } else {
        todo_lines(items.drop_last()) + todo_line(items.last())
    }
}

/// The content of the to-do file of `day` holding `items`.
pub open spec fn todo_file(day: Seq<char>, items: Seq<(Seq<char>, bool)>) -> Seq<char> {
    seq!['#', ' '] + day + seq!['\n', '\n'] + todo_lines(items)
}

/// Whether `t` can be stored on one line and read back unchanged.
pub open spec fn storable_todo(t: (Seq<char>, bool)) -> bool {
    t.0.len() > 0 && trim(t.0) == t.0 && lacks(t.0, '\n') && lacks(t.0, '\r')
}

/// The lines of `s`, split at `\n`.
pub fn split_lines(s: &Vec<char>) -> (r: Vec<Vec<char>>)
    ensures
        char_views(r@) == lines(s@),
{
    let mut done: Vec<Vec<char>> = Vec::new();
    let mut cur: Vec<char> = Vec::new();
    let mut i: usize = 0;
    while i < s.len()
        invariant
            i <= s.len(),
            (char_views(done@), cur@) == line_state(s@.subrange(0, i as int)),
        decreases s.len() - i,
    {
        assert(s@.subrange(0, i + 1).drop_last() =~= s@.subrange(0, i as int));
        assert(s@.subrange(0, i + 1).last() == s@[i as int]);
        if s[i] == '\n' {
            let finished = cur;
            cur = Vec::new();
            done.push(finished);
            assert(char_views(done@) =~= line_state(s@.subrange(0, i as int)).0.push(
                line_state(s@.subrange(0, i as int)).1,
            ));
        } else {
            cur.push(s[i]);
        }
        i = i + 1;
    }
    assert(s@.subrange(0, s@.len() as int) =~= s@);
    if cur.len() > 0 {
        let ghost before = char_views(done@);
        done.push(cur);
        assert(char_views(done@) =~= before.push(line_state(s@).1));
    }
    done
}

fn mark_exec(l: &Vec<char>) -> (r: Option<bool>)
    ensures
        r == mark_of(l@),
{
    let x = vec!['-', ' ', '[', 'x', ']'];
    let big_x = vec!['-', ' ', '[', 'X', ']'];
    let open = vec!['-', ' ', '[', ' ', ']'];
    assert(x@ =~= seq!['-', ' ', '[', 'x', ']']);
    assert(big_x@ =~= seq!['-', ' ', '[', 'X', ']']);
    assert(open@ =~= seq!['-', ' ', '[', ' ', ']']);
    if starts_with(l, &x) || starts_with(l, &big_x) {
        Some(true)
    } else if starts_with(l, &open) {
        Some(false)
    } else {
        None
    }
}

/// The item that one line of a to-do file holds, if any.
fn parse_todo_line(line: &Vec<char>) -> (r: Option<TodoItem>)
    ensures
        match r {
            Some(t) => todo_of_line(line@) == Some(t@),
            None => todo_of_line(line@) is None,
        },
{
    let l = trim_chars(line);
    match mark_exec(&l) {
        Some(done) => {
            let rest = slice_chars(&l, 5, l.len());
            let text = trim_chars(&rest);
            if text.len() == 0 {
                None
            } else {
                Some(TodoItem { text: string_of(&text), done })
            }
        },
        None => None,
    }
}

/// The items that a to-do file with this content holds, in order.
pub fn parse_todos(raw: &str) -> (r: Vec<TodoItem>)
    ensures
        todo_views(r@) == parsed_todos(raw@),
{
    let raw_v = chars_of(raw);
    let text = normalize_newlines(&raw_v);
    let ls = split_lines(&text);
    let mut items: Vec<TodoItem> = Vec::new();
    let mut i: usize = 0;
    while i < ls.len()
        invariant
            i <= ls.len(),
            char_views(ls@) == lines(normalized(raw@)),
            todo_views(items@) == todos_of_lines(char_views(ls@).subrange(0, i as int)),
        decreases ls.len() - i,
    {
        let ghost pre = char_views(ls@).subrange(0, i as int);
        assert(char_views(ls@).subrange(0, i + 1).drop_last() =~= pre);
        assert(char_views(ls@)[i as int] == ls@[i as int]@);
        match parse_todo_line(&ls[i]) {
            Some(t) => {
                let ghost before = items@;
                items.push(t);
                assert(todo_views(items@) =~= todo_views(before).push(t@));
            },
            None => {},
        }
        i = i + 1;
    }
    assert(char_views(ls@).subrange(0, ls.len() as int) =~= char_views(ls@));
    items
}

fn replace_breaks(s: &Vec<char>) -> (r: Vec<char>)
    ensures
        r@ == breaks_to_spaces(s@),
{
    let mut r: Vec<char> = Vec::new();
    let mut i: usize = 0;
    while i < s.len()
        invariant
            i <= s.len(),
            r@ =~= breaks_to_spaces(s@.subrange(0, i as int)),
        decreases s.len() - i,
    {
        let c = s[i];
        r.push(if c == '\r' || c == '\n' { ' ' } else { c });
        i = i + 1;
        assert(breaks_to_spaces(s@.subrange(0, i as int)) =~= breaks_to_spaces(
            s@.subrange(0, i - 1),
        ).push(if c == '\r' || c == '\n' { ' ' } else { c }));
    }
    assert(s@.subrange(0, s@.len() as int) =~= s@);
    r
}

/// The items as they are saved: line breaks inside a text become spaces,
/// texts are trimmed, empty ones are dropped, and a text longer than
/// `MAX_TODO_CHARS` characters is refused.
pub fn clean_todos(items: &[TodoItem]) -> (r: Result<Vec<TodoItem>, StoreError>)
    ensures
        r is Err <==> has_overlong(todo_views(items@)),
        r matches Ok(v) ==> todo_views(v@) == cleaned_todos(todo_views(items@)),
        r matches Err(e) ==> is_invalid(e, "待办太长了"@),
{
    let ghost all = todo_views(items@);
    let mut cleaned: Vec<TodoItem> = Vec::new();
    let mut i: usize = 0;
    while i < items.len()
        invariant
            i <= items.len(),
            all == todo_views(items@),
            todo_views(cleaned@) == cleaned_todos(all.subrange(0, i as int)),
            forall|k: int| 0 <= k < i ==> cleaned_text(#[trigger] all[k].0).len() <= MAX_TODO_CHARS,
        decreases items.len() - i,
    {
        let item = &items[i];
        assert(all[i as int] == item@);
        assert(all.subrange(0, i + 1).drop_last() =~= all.subrange(0, i as int));
        let raw = chars_of(item.text.as_str());
        let flat = replace_breaks(&raw);
        let text = trim_chars(&flat);
        if text.len() > 0 {
            if text.len() > MAX_TODO_CHARS {
                assert(0 <= i < all.len() && cleaned_text(all[i as int].0).len() > MAX_TODO_CHARS);
                return Err(invalid("待办太长了"));
            }
            let ghost before = cleaned@;
            cleaned.push(TodoItem { text: string_of(&text), done: item.done });
            assert(todo_views(cleaned@) =~= todo_views(before).push((text@, item.done)));
        }
        i = i + 1;
    }
    assert(all.subrange(0, items.len() as int) =~= all);
    Ok(cleaned)
}

proof fn lemma_open_done_step(s: Seq<(Seq<char>, bool)>, i: int)
    requires
        0 <= i < s.len(),
    ensures
        s.subrange(0, i + 1).drop_last() == s.subrange(0, i),
        s.subrange(0, i + 1).last() == s[i],
{
    assert(s.subrange(0, i + 1).drop_last() =~= s.subrange(0, i));
}

/// The open items and the done items of `items`, each in their order.
pub fn partition_todos(items: &Vec<TodoItem>) -> (r: (Vec<TodoItem>, Vec<TodoItem>))
    ensures
        todo_views(r.0@) == open_todos(todo_views(items@)),
        todo_views(r.1@) == done_todos(todo_views(items@)),
{
    let ghost all = todo_views(items@);
    let mut open: Vec<TodoItem> = Vec::new();
    let mut done: Vec<TodoItem> = Vec::new();
    let mut i: usize = 0;
    while i < items.len()
        invariant
            i <= items.len(),
            all == todo_views(items@),
            todo_views(open@) == open_todos(all.subrange(0, i as int)),
            todo_views(done@) == done_todos(all.subrange(0, i as int)),
        decreases items.len() - i,
    {
        proof {
            lemma_open_done_step(all, i as int);
        }
        let item = TodoItem { text: items[i].text.clone(), done: items[i].done };
        assert(item@ == all[i as int]);
        if item.done {
            let ghost before = done@;
            done.push(item);
            assert(todo_views(done@) =~= todo_views(before).push(all[i as int]));
        } else {
            let ghost before = open@;
            open.push(item);
            assert(todo_views(open@) =~= todo_views(before).push(all[i as int]));
        }
        i = i + 1;
    }
    assert(all.subrange(0, items.len() as int) =~= all);
    (open, done)
}

/// The items with the open ones first and the done ones after them, each
/// group in its old order.
pub fn sink_done(items: Vec<TodoItem>) -> (r: Vec<TodoItem>)
    ensures
        todo_views(r@) == sunk(todo_views(items@)),
{
    let (mut open, mut done) = partition_todos(&items);
    let ghost o = open@;
    let ghost d = done@;
    open.append(&mut done);
    assert(todo_views(open@) =~= todo_views(o) + todo_views(d));
    open
}

/// The content of the to-do file of `day` holding `items`.
pub fn todo_file_text(day: &str, items: &Vec<TodoItem>) -> (r: String)
    ensures
        r@ == todo_file(day@, todo_views(items@)),
{
    let ghost all = todo_views(items@);
    let mut out: Vec<char> = Vec::new();
    out.push('#');
    out.push(' ');
    push_str(&mut out, day);
    out.push('\n');
    out.push('\n');
    let mut i: usize = 0;
    while i < items.len()
        invariant
            i <= items.len(),
            all == todo_views(items@),
            out@ == seq!['#', ' '] + day@ + seq!['\n', '\n'] + todo_lines(all.subrange(0, i as int)),
        decreases items.len() - i,
    {
        let item = &items[i];
        assert(all[i as int] == item@);
        assert(all.subrange(0, i + 1).drop_last() =~= all.subrange(0, i as int));
        let ghost before = out@;
        out.push('-');
        out.push(' ');
        out.push('[');
        out.push(if item.done { 'x' } else { ' ' });
        out.push(']');
        out.push(' ');
        push_str(&mut out, item.text.as_str());
        out.push('\n');
        assert(out@ =~= before + todo_line(all[i as int]));
        i = i + 1;
    }
    assert(all.subrange(0, items.len() as int) =~= all);
    string_of(&out)
}

proof fn lemma_line_state_extend(p: Seq<char>, l: Seq<char>)
    requires
        lacks(l, '\n'),
    ensures
        line_state(p + l) == (line_state(p).0, line_state(p).1 + l),
    decreases l.len(),
{
    if l.len() == 0 {
        assert(p + l =~= p);
        assert(line_state(p).1 + l =~= line_state(p).1);
    } else {
        let l0 = l.drop_last();
        assert(lacks(l0, '\n')) by {
            assert forall|i: int| 0 <= i < l0.len() implies l0[i] != '\n' by {
                assert(l0[i] == l[i]);
            }
        }
        lemma_line_state_extend(p, l0);
        assert((p + l).drop_last() =~= p + l0);
        assert((p + l).last() == l.last());
        assert(line_state(p).1 + l0 + seq![l.last()] =~= line_state(p).1 + l);
    }
}

pub proof fn lemma_line_state_line(p: Seq<char>, l: Seq<char>)
    requires
        lacks(l, '\n'),
        line_state(p).1.len() == 0,
    ensures
        line_state(p + l + seq!['\n']) == (line_state(p).0.push(l), Seq::<char>::empty()),
{
    lemma_line_state_extend(p, l);
    assert((p + l + seq!['\n']).drop_last() =~= p + l);
    assert(line_state(p).1 + l =~= l);
}

pub proof fn lemma_trim_fixed(s: Seq<char>)
    requires
        s.len() > 0,
        !is_space(s[0]),
        !is_space(s.last()),
    ensures
        trim(s) == s,
{
}

proof fn lemma_trim_start_suffix(s: Seq<char>)
    ensures
        trim_start(s).len() <= s.len(),
        trim_start(s) == s.subrange(s.len() - trim_start(s).len(), s.len() as int),
    decreases s.len(),
{
    if s.len() > 0 && is_space(s[0]) {
        lemma_trim_start_suffix(s.drop_first());
        let t = trim_start(s.drop_first());
        assert(s.drop_first().subrange(s.drop_first().len() - t.len(), s.drop_first().len() as int)
            =~= s.subrange(s.len() - t.len(), s.len() as int));
    } else {
        assert(s.subrange(0, s.len() as int) =~= s);
    }
}

proof fn lemma_trim_end_prefix(s: Seq<char>)
    ensures
        trim_end(s).len() <= s.len(),
        trim_end(s) == s.subrange(0, trim_end(s).len() as int),
    decreases s.len(),
{
    if s.len() > 0 && is_space(s.last()) {
        lemma_trim_end_prefix(s.drop_last());
        let t = trim_end(s.drop_last());
        assert(s.drop_last().subrange(0, t.len() as int) =~= s.subrange(0, t.len() as int));
    } else {
        assert(s.subrange(0, s.len() as int) =~= s);
    }
}

/// A trimmed non-empty text begins and ends with characters that are not
/// white space.
pub proof fn lemma_trimmed_ends(s: Seq<char>)
    requires
        s.len() > 0,
        trim(s) == s,
    ensures
        !is_space(s[0]),
        !is_space(s.last()),
{
    lemma_trim_start_suffix(s);
    lemma_trim_end_prefix(trim_start(s));
    let a = trim_start(s);
    if is_space(s[0]) {
        lemma_trim_start_suffix(s.drop_first());
        assert(a == trim_start(s.drop_first()));
        assert(a.len() < s.len());
    }
    if is_space(s.last()) {
        if a.len() > 0 {
            assert(a.last() == s.last());
            lemma_trim_end_prefix(a.drop_last());
            assert(trim_end(a) == trim_end(a.drop_last()));
        }
    }
}

proof fn lemma_todo_of_item_line(t: (Seq<char>, bool))
    requires
        storable_todo(t),
    ensures
        todo_of_line(todo_line(t).drop_last()) == Some(t),
        todo_line(t) == todo_line(t).drop_last() + seq!['\n'],
        lacks(todo_line(t).drop_last(), '\n'),
{
    let text = t.0;
    let m = if t.1 { 'x' } else { ' ' };
    let l = seq!['-', ' ', '[', m, ']', ' '] + text;
    assert(todo_line(t).drop_last() =~= l);
    lemma_trimmed_ends(text);
    assert(l.last() == text.last());
    lemma_trim_fixed(l);
    assert(l.subrange(0, 5) =~= seq!['-', ' ', '[', m, ']']);
    if !t.1 {
        assert(!(l.subrange(0, 5) =~= seq!['-', ' ', '[', 'x', ']']));
        assert(!(l.subrange(0, 5) =~= seq!['-', ' ', '[', 'X', ']']));
    }
    let rest = l.subrange(5, l.len() as int);
    assert(rest =~= seq![' '] + text);
    assert(rest.drop_first() =~= text);
    assert(trim_start(rest) == trim_start(text));
    lemma_trim_fixed(text);
    assert(trim_start(text) == text);
    assert(lacks(l, '\n')) by {
        assert forall|i: int| 0 <= i < l.len() implies l[i] != '\n' by {
            if i >= 6 {
                assert(l[i] == text[i - 6]);
            }
        }
    }
    assert(todo_line(t) =~= l + seq!['\n']);
}

proof fn lemma_todos_of_lines_push(ls: Seq<Seq<char>>, l: Seq<char>)
    ensures
        todos_of_lines(ls.push(l)) == match todo_of_line(l) {
            Some(t) => todos_of_lines(ls).push(t),
            None => todos_of_lines(ls),
        },
{
    assert(ls.push(l).drop_last() =~= ls);
}

/// A to-do file written for items that each fit on one line reads back as
/// exactly those items, in the same order.
pub proof fn lemma_todo_file_roundtrip(day: Seq<char>, items: Seq<(Seq<char>, bool)>)
    requires
        lacks(day, '\n'),
        lacks(day, '\r'),
        forall|i: int| 0 <= i < items.len() ==> storable_todo(#[trigger] items[i]),
    ensures
        parsed_todos(todo_file(day, items)) == items,
{
    let head = seq!['#', ' '] + day;
    assert(lacks(head, '\n')) by {
        assert forall|i: int| 0 <= i < head.len() implies head[i] != '\n' by {
            if i >= 2 {
                assert(head[i] == day[i - 2]);
            }
        }
    }
    let e: Seq<char> = Seq::empty();
    assert(line_state(e) == (Seq::<Seq<char>>::empty(), Seq::<char>::empty()));
    lemma_line_state_line(e, head);
    assert(e + head + seq!['\n'] =~= head + seq!['\n']);
    lemma_line_state_line(head + seq!['\n'], e);
    assert(head + seq!['\n'] + e + seq!['\n'] =~= seq!['#', ' '] + day + seq!['\n', '\n']);
    let hl = seq![head, e];
    assert(line_state(seq!['#', ' '] + day + seq!['\n', '\n']) == (hl, e)) by {
        assert(Seq::<Seq<char>>::empty().push(head).push(e) =~= hl);
    }
    assert(todo_of_line(head) is None) by {
        lemma_trim_fixed_or_head(day);
    }
    assert(todo_of_line(e) is None) by {
        assert(trim(e) =~= e);
    }
    lemma_todos_of_lines_push(Seq::empty(), head);
    assert(Seq::<Seq<char>>::empty().push(head) =~= seq![head]);
    lemma_todos_of_lines_push(seq![head], e);
    assert(seq![head].push(e) =~= hl);
    assert(todos_of_lines(hl) =~= Seq::<(Seq<char>, bool)>::empty());
    lemma_todo_lines_state(day, items, items.len() as int, hl);
    let f = todo_file(day, items);
    assert(items.subrange(0, items.len() as int) =~= items);
    assert(lacks(f, '\r')) by {
        lemma_todo_file_lacks_cr(day, items);
    }
    lemma_normalized_plain(f);
}

proof fn lemma_trim_fixed_or_head(day: Seq<char>)
    ensures
        todo_of_line(seq!['#', ' '] + day) is None,
{
    let head = seq!['#', ' '] + day;
    let l = trim(head);
    lemma_trim_start_suffix(head);
    assert(head[0] == '#');
    assert(trim_start(head) == head);
    lemma_trim_end_prefix(head);
    if l.len() >= 5 {
        assert(l[0] == head[0]);
        assert(l.subrange(0, 5)[0] == '#');
    }
}

pub proof fn lemma_todo_file_lacks_cr(day: Seq<char>, items: Seq<(Seq<char>, bool)>)
    requires
        lacks(day, '\r'),
        forall|i: int| 0 <= i < items.len() ==> storable_todo(#[trigger] items[i]),
    ensures
        lacks(todo_file(day, items), '\r'),
    decreases items.len(),
{
    if items.len() == 0 {
        let f = todo_file(day, items);
        assert forall|i: int| 0 <= i < f.len() implies f[i] != '\r' by {
            if 2 <= i < 2 + day.len() {
                assert(f[i] == day[i - 2]);
            }
        }
    } else {
        let pre = items.drop_last();
        assert forall|i: int| 0 <= i < pre.len() implies storable_todo(#[trigger] pre[i]) by {
            assert(pre[i] == items[i]);
        }
        lemma_todo_file_lacks_cr(day, pre);
        let t = items.last();
        assert(storable_todo(items[items.len() - 1]));
        let f0 = todo_file(day, pre);
        let f = todo_file(day, items);
        assert(f =~= f0 + todo_line(t));
        let tl = todo_line(t);
        assert forall|i: int| 0 <= i < f.len() implies f[i] != '\r' by {
            if i < f0.len() {
                assert(f[i] == f0[i]);
            } else {
                let j = i - f0.len();
                assert(f[i] == tl[j]);
                if 6 <= j < 6 + t.0.len() {
                    assert(tl[j] == t.0[j - 6]);
                }
            }
        }
    }
}

proof fn lemma_todo_lines_state(
    day: Seq<char>,
    items: Seq<(Seq<char>, bool)>,
    k: int,
    hl: Seq<Seq<char>>,
)
    requires
        0 <= k <= items.len(),
        forall|i: int| 0 <= i < items.len() ==> storable_todo(#[trigger] items[i]),
        line_state(seq!['#', ' '] + day + seq!['\n', '\n']) == (hl, Seq::<char>::empty()),
        todos_of_lines(hl) == Seq::<(Seq<char>, bool)>::empty(),
    ensures
        line_state(todo_file(day, items.subrange(0, k))).1.len() == 0,
        lines(todo_file(day, items.subrange(0, k))) == line_state(
            todo_file(day, items.subrange(0, k)),
        ).0,
        todos_of_lines(line_state(todo_file(day, items.subrange(0, k))).0) == items.subrange(0, k),
    decreases k,
{
    let f = todo_file(day, items.subrange(0, k));
    if k == 0 {
        assert(items.subrange(0, 0) =~= Seq::<(Seq<char>, bool)>::empty());
        assert(f =~= seq!['#', ' '] + day + seq!['\n', '\n']);
    } else {
        lemma_todo_lines_state(day, items, k - 1, hl);
        let pre = items.subrange(0, k - 1);
        let t = items[k - 1];
        assert(items.subrange(0, k).drop_last() =~= pre);
        let f0 = todo_file(day, pre);
        assert(f =~= f0 + todo_line(t));
        lemma_todo_of_item_line(t);
        let l = todo_line(t).drop_last();
        assert(f =~= f0 + l + seq!['\n']);
        lemma_line_state_line(f0, l);
        lemma_todos_of_lines_push(line_state(f0).0, l);
        assert(pre.push(t) =~= items.subrange(0, k));
    }
}

proof fn lemma_trim_start_head(s: Seq<char>)
    ensures
        trim_start(s).len() > 0 ==> !is_space(trim_start(s)[0]),
    decreases s.len(),
{
    if s.len() > 0 && is_space(s[0]) {
        lemma_trim_start_head(s.drop_first());
    }
}

proof fn lemma_trim_end_tail(s: Seq<char>)
    ensures
        trim_end(s).len() > 0 ==> !is_space(trim_end(s).last()),
    decreases s.len(),
{
    if s.len() > 0 && is_space(s.last()) {
        lemma_trim_end_tail(s.drop_last());
    }
}

/// Trimming is idempotent, and the trimmed text is a part of the text.
pub proof fn lemma_trim_props(s: Seq<char>)
    ensures
        trim(trim(s)) == trim(s),
        exists|a: int, b: int| 0 <= a <= b <= s.len() && trim(s) == s.subrange(a, b),
{
    let t = trim_start(s);
    let y = trim_end(t);
    lemma_trim_start_suffix(s);
    lemma_trim_end_prefix(t);
    lemma_trim_start_head(s);
    lemma_trim_end_tail(t);
    if y.len() > 0 {
        assert(y[0] == t[0]);
        lemma_trim_fixed(y);
    } else {
        assert(trim(y) =~= y);
    }
    let a = s.len() - t.len();
    assert(y =~= s.subrange(a, a + y.len()));
}

/// Every item that cleaning keeps can be stored on one line.
pub proof fn lemma_cleaned_storable(items: Seq<(Seq<char>, bool)>)
    ensures
        forall|i: int| 0 <= i < cleaned_todos(items).len() ==> storable_todo(#[trigger] cleaned_todos(items)[i]),
    decreases items.len(),
{
    if items.len() > 0 {
        lemma_cleaned_storable(items.drop_last());
        let b = breaks_to_spaces(items.last().0);
        let t = cleaned_text(items.last().0);
        lemma_trim_props(b);
        let (a, c) = choose|a: int, c: int| 0 <= a <= c <= b.len() && trim(b) == b.subrange(a, c);
        assert(lacks(t, '\n') && lacks(t, '\r')) by {
            assert forall|i: int| 0 <= i < t.len() implies t[i] != '\n' && t[i] != '\r' by {
                assert(t[i] == b[a + i]);
            }
        }
        let r = cleaned_todos(items.drop_last());
        assert forall|i: int| 0 <= i < cleaned_todos(items).len() implies storable_todo(#[trigger] cleaned_todos(items)[i]) by {
            if i < r.len() {
                assert(cleaned_todos(items)[i] == r[i]);
            } else {
                assert(cleaned_todos(items)[i] == (t, items.last().1));
                assert(trim(t) == t);
            }
        }
    }
}

/// Putting open items first keeps every item.
pub proof fn lemma_sunk_members(items: Seq<(Seq<char>, bool)>)
    ensures
        forall|i: int| 0 <= i < sunk(items).len() ==> items.contains(#[trigger] sunk(items)[i]),
    decreases items.len(),
{
    lemma_open_done_members(items);
    assert forall|i: int| 0 <= i < sunk(items).len() implies items.contains(#[trigger] sunk(items)[i]) by {
        let o = open_todos(items);
        if i < o.len() {
            assert(sunk(items)[i] == o[i]);
        } else {
            assert(sunk(items)[i] == done_todos(items)[i - o.len()]);
        }
    }
}

proof fn lemma_open_done_members(items: Seq<(Seq<char>, bool)>)
    ensures
        forall|i: int| 0 <= i < open_todos(items).len() ==> items.contains(#[trigger] open_todos(items)[i]),
        forall|i: int| 0 <= i < done_todos(items).len() ==> items.contains(#[trigger] done_todos(items)[i]),
    decreases items.len(),
{
    if items.len() > 0 {
        let d = items.drop_last();
        lemma_open_done_members(d);
        assert forall|x: (Seq<char>, bool)| d.contains(x) implies items.contains(x) by {
            let q = choose|q: int| 0 <= q < d.len() && d[q] == x;
            assert(items[q] == x);
        }
        assert(items[items.len() - 1] == items.last());
        assert forall|i: int| 0 <= i < open_todos(items).len() implies items.contains(#[trigger] open_todos(items)[i]) by {
            if i < open_todos(d).len() {
                assert(open_todos(items)[i] == open_todos(d)[i]);
                assert(d.contains(open_todos(d)[i]));
            }
        }
        assert forall|i: int| 0 <= i < done_todos(items).len() implies items.contains(#[trigger] done_todos(items)[i]) by {
            if i < done_todos(d).len() {
                assert(done_todos(items)[i] == done_todos(d)[i]);
                assert(d.contains(done_todos(d)[i]));
            }
        }
    }
}

/// The to-do file of storable items has nothing that reading it would change.
pub proof fn lemma_todo_file_plain(day: Seq<char>, items: Seq<(Seq<char>, bool)>)
    requires
        lacks(day, '\r'),
        forall|i: int| 0 <= i < items.len() ==> storable_todo(#[trigger] items[i]),
    ensures
        normalized(todo_file(day, items)) == todo_file(day, items),
{
    lemma_todo_file_lacks_cr(day, items);
    assert(todo_file(day, items)[0] == '#');
    lemma_normalized_plain(todo_file(day, items));
}

} // verus!
