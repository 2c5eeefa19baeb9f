//! The rules for names of categories, notes and files in the data folder.
use vstd::prelude::*;
use crate::records::{invalid, StoreError};
use crate::text::lacks;
use crate::text::{
    starts_with, ascii_lower, ascii_upper, chars_of, ends_with, has_prefix, has_suffix, is_control,
    is_control_char, push_chars, slice_chars, string_of, to_ascii_lower, to_ascii_upper,
    trim, trim_chars,
};

verus! {

/// The longest name, counted in characters, of a category or a note.
pub const MAX_NAME_CHARS: usize = 60;

/// Characters that no name of a category or a note may hold.
pub open spec fn name_forbidden(c: char) -> bool {
    ||| is_control_char(c)
    ||| c == '\\' || c == '/' || c == ':' || c == '*' || c == '?' || c == '"'
    ||| c == '<' || c == '>' || c == '|' || c == '[' || c == ']'
}

/// Characters that no file name may hold.
pub open spec fn file_name_forbidden(c: char) -> bool {
    ||| is_control_char(c)
    ||| c == '\\' || c == '/' || c == ':' || c == '*' || c == '?' || c == '"'
    ||| c == '<' || c == '>' || c == '|'
}

/// Whether `s` is empty, `.` or `..`.
pub open spec fn blank_name(s: Seq<char>) -> bool {
    s.len() == 0 || s =~= seq!['.'] || s =~= seq!['.', '.']
}

/// The part of `s` before its first `.`, or all of `s`.
pub open spec fn before_dot(s: Seq<char>) -> Seq<char>
    decreases s.len(),
{
    if s.len() == 0 || s[0] == '.' {
        seq![]
    } else {
        seq![s[0]] + before_dot(s.drop_first())
    }
}

/// Whether `s` is a device name that Windows reserves, in upper case.
pub open spec fn reserved_stem(s: Seq<char>) -> bool {
    ||| s =~= seq!['C', 'O', 'N']
    ||| s =~= seq!['P', 'R', 'N']
    ||| s =~= seq!['A', 'U', 'X']
    ||| s =~= seq!['N', 'U', 'L']
    ||| (s.len() == 4 && (s.subrange(0, 3) =~= seq!['C', 'O', 'M'] || s.subrange(0, 3)
        =~= seq!['L', 'P', 'T']) && '1' <= s[3] && s[3] <= '9')
}

/// What checking `value` as the name of a category or a note gives: the
/// trimmed name, or the message of the first rule that it breaks.
pub open spec fn name_check(value: Seq<char>) -> Result<Seq<char>, Seq<char>> {
    let name = trim(value);
    if blank_name(name) {
        Err("名称不能为空"@)
    } else if name.len() > MAX_NAME_CHARS {
        Err("名称过长"@)
    } else if exists|i: int| 0 <= i < name.len() && name_forbidden(#[trigger] name[i]) {
        Err("名称不能包含 \\ / : * ? \" < > | [ ]"@)
    } else if name.last() == '.' || name.last() == ' ' {
        Err("名称不能以空格或点结尾"@)
    } else if reserved_stem(before_dot(ascii_upper(name))) {
        Err("这个名称不能使用"@)
    } else {
        Ok(name)
    }
}

/// Whether a file of this name is shown in the library: not hidden, not a
/// lock file of an office program, and not a temporary or backup file.
pub open spec fn listed_file_name(s: Seq<char>) -> bool {
    let lower = ascii_lower(s);
    &&& s.len() > 0
    &&& s[0] != '.'
    &&& !has_prefix(s, seq!['~', '$'])
    &&& !has_suffix(lower, seq!['.', 't', 'm', 'p'])
    &&& !has_suffix(lower, seq!['.', 't', 'e', 'm', 'p'])
    &&& !has_suffix(lower, seq!['.', 's', 'w', 'p'])
    &&& !has_suffix(lower, seq!['~'])
}

/// What checking `value` as the name of a file in a category gives: the
/// trimmed name, or the message of the first rule that it breaks.
pub open spec fn file_name_check(value: Seq<char>) -> Result<Seq<char>, Seq<char>> {
    let name = trim(value);
    if blank_name(name) {
        Err("文件名不能为空"@)
    } else if exists|i: int| 0 <= i < name.len() && file_name_forbidden(#[trigger] name[i]) {
        Err("文件名不合法"@)
    } else if !listed_file_name(name) {
        Err("文件名不合法"@)
    } else {
        Ok(name)
    }
}

/// Whether files with this (lower-case) extension are edited as text.
pub open spec fn text_extension(ext: Seq<char>) -> bool {
    ext =~= seq!['m', 'd'] || ext =~= seq!['t', 'x', 't']
}

/// The index of the last `.` of `s`, or -1.
pub open spec fn last_dot(s: Seq<char>) -> int
    decreases s.len(),
{
    if s.len() == 0 {
        -1
    } else if s.last() == '.' {
        s.len() - 1
    } else {
        last_dot(s.drop_last())
    }
}

/// `last_dot` is -1 or the index of a `.` of `s`.
pub proof fn lemma_last_dot(s: Seq<char>)
    ensures
        -1 <= last_dot(s) < s.len(),
        last_dot(s) >= 0 ==> s[last_dot(s)] == '.',
        forall|i: int| last_dot(s) < i < s.len() ==> s[i] != '.',
    decreases s.len(),
{
    if s.len() > 0 && s.last() != '.' {
        lemma_last_dot(s.drop_last());
        assert forall|i: int| last_dot(s) < i < s.len() implies s[i] != '.' by {
            if i < s.len() - 1 {
                assert(s.drop_last()[i] == s[i]);
            }
        }
    }
}

/// Whether the file name `s` has an extension: a `.` after its first character.
pub open spec fn has_extension(s: Seq<char>) -> bool {
    last_dot(s) > 0 && !(s =~= seq!['.', '.'])
}

/// The stem of the file name `s`, as `Path::file_stem` gives it.
pub open spec fn file_stem(s: Seq<char>) -> Seq<char> {
    if has_extension(s) {
        s.subrange(0, last_dot(s))
    } else {
        s
    }
}

/// The extension of the file name `s`, as `Path::extension` gives it, or empty.
pub open spec fn file_extension(s: Seq<char>) -> Seq<char> {
    if has_extension(s) {
        s.subrange(last_dot(s) + 1, s.len() as int)
    } else {
        seq![]
    }
}

/// `s` without every leading copy of the prefix `\\?\` of Windows paths.
pub open spec fn plain_path_chars(s: Seq<char>) -> Seq<char>
    decreases s.len(),
{
    if has_prefix(s, seq!['\\', '\\', '?', '\\']) {
        plain_path_chars(s.subrange(4, s.len() as int))
    } else {
        s
    }
}

fn is_blank(s: &Vec<char>) -> (r: bool)
    ensures
        r == blank_name(s@),
{
    if s.len() == 0 {
        return true;
    }
    if s.len() == 1 && s[0] == '.' {
        return true;
    }
    if s.len() == 2 && s[0] == '.' && s[1] == '.' {
        return true;
    }
    assert(s@.len() == 1 ==> !(s@ =~= seq!['.', '.']));
    false
}

fn is_name_forbidden(c: char) -> (r: bool)
    ensures
        r == name_forbidden(c),
{
    is_control(c) || c == '\\' || c == '/' || c == ':' || c == '*' || c == '?' || c == '"' || c
        == '<' || c == '>' || c == '|' || c == '[' || c == ']'
}

fn is_file_name_forbidden(c: char) -> (r: bool)
    ensures
        r == file_name_forbidden(c),
{
    is_control(c) || c == '\\' || c == '/' || c == ':' || c == '*' || c == '?' || c == '"' || c
        == '<' || c == '>' || c == '|'
}

fn prefix_before_dot(s: &Vec<char>) -> (r: Vec<char>)
    ensures
        r@ == before_dot(s@),
{
    let mut i: usize = 0;
    assert(s@.subrange(0, s@.len() as int) =~= s@);
    assert(s@.subrange(0, 0) + before_dot(s@) =~= before_dot(s@));
    while i < s.len() && s[i] != '.'
        invariant
            i <= s.len(),
            before_dot(s@) == s@.subrange(0, i as int) + before_dot(s@.subrange(i as int, s@.len() as int)),
        decreases s.len() - i,
    {
        let ghost rest = s@.subrange(i as int, s@.len() as int);
        assert(rest.drop_first() =~= s@.subrange(i + 1, s@.len() as int));
        assert(s@.subrange(0, i + 1) =~= s@.subrange(0, i as int) + seq![s@[i as int]]);
        i = i + 1;
    }
    assert(s@.subrange(0, i as int) + seq![] =~= s@.subrange(0, i as int));
    slice_chars(s, 0, i)
}

fn is_reserved(s: &Vec<char>) -> (r: bool)
    ensures
        r == reserved_stem(s@),
{
    if s.len() == 3 {
        let a = s[0];
        let b = s[1];
        let c = s[2];
        let r = (a == 'C' && b == 'O' && c == 'N') || (a == 'P' && b == 'R' && c == 'N') || (a
            == 'A' && b == 'U' && c == 'X') || (a == 'N' && b == 'U' && c == 'L');
        proof {
            if r {
                assert(reserved_stem(s@));
            } else {
                assert(!(s@ =~= seq!['C', 'O', 'N']) ==> s@[0] != 'C' || s@[1] != 'O' || s@[2]
                    != 'N');
            }
        }
        if !r {
            assert(!(s@ =~= seq!['C', 'O', 'N']));
            assert(!(s@ =~= seq!['P', 'R', 'N']));
            assert(!(s@ =~= seq!['A', 'U', 'X']));
            assert(!(s@ =~= seq!['N', 'U', 'L']));
        }
        r
    } else if s.len() == 4 {
        let a = s[0];
        let b = s[1];
        let c = s[2];
        let d = s[3];
        let r = ((a == 'C' && b == 'O' && c == 'M') || (a == 'L' && b == 'P' && c == 'T')) && '1'
            <= d && d <= '9';
        assert(!(s@ =~= seq!['C', 'O', 'N']) && !(s@ =~= seq!['P', 'R', 'N']) && !(s@ =~= seq![
            'A',
            'U',
            'X',
        ]) && !(s@ =~= seq!['N', 'U', 'L']));
        if r {
            assert(a == 'C' ==> s@.subrange(0, 3) =~= seq!['C', 'O', 'M']);
            assert(a == 'L' ==> s@.subrange(0, 3) =~= seq!['L', 'P', 'T']);
        } else {
            assert(s@.subrange(0, 3) =~= seq!['C', 'O', 'M'] ==> a == 'C' && b == 'O' && c
                == 'M');
            assert(s@.subrange(0, 3) =~= seq!['L', 'P', 'T'] ==> a == 'L' && b == 'P' && c
                == 'T');
        }
        r
    } else {
        false
    }
}

/// The trimmed `value` when it may name a category or a note.
pub fn validate_name(value: &str) -> (r: Result<String, StoreError>)
    ensures
        r is Ok <==> name_check(value@) is Ok,
        r matches Ok(v) ==> name_check(value@) == Ok::<Seq<char>, Seq<char>>(v@),
        r matches Err(e) ==> (e matches StoreError::Invalid(m) && name_check(value@) == Err::<
            Seq<char>,
            Seq<char>,
        >(m@)),
{
    let raw = chars_of(value);
    let name = trim_chars(&raw);
    if is_blank(&name) {
        return Err(invalid("名称不能为空"));
    }
    if name.len() > MAX_NAME_CHARS {
        return Err(invalid("名称过长"));
    }
    let mut i: usize = 0;
    while i < name.len()
        invariant
            i <= name.len() <= MAX_NAME_CHARS,
            name@ == trim(value@),
            !blank_name(name@),
            forall|k: int| 0 <= k < i ==> !name_forbidden(#[trigger] name@[k]),
        decreases name.len() - i,
    {
        if is_name_forbidden(name[i]) {
            assert(0 <= i < name@.len() && name_forbidden(name@[i as int]));
            return Err(invalid("名称不能包含 \\ / : * ? \" < > | [ ]"));
        }
        i = i + 1;
    }
    let last = name[name.len() - 1];
    if last == '.' || last == ' ' {
        return Err(invalid("名称不能以空格或点结尾"));
    }
    let upper = to_ascii_upper(&name);
    let stem = prefix_before_dot(&upper);
    if is_reserved(&stem) {
        return Err(invalid("这个名称不能使用"));
    }
    Ok(string_of(&name))
}

/// Whether a file of this name is shown in the library.
pub fn is_listed_file_name(file_name: &Vec<char>) -> (r: bool)
    ensures
        r == listed_file_name(file_name@),
{
    if file_name.len() == 0 || file_name[0] == '.' {
        return false;
    }
    let lock = vec!['~', '$'];
    assert(lock@ =~= seq!['~', '$']);
    if starts_with(file_name, &lock) {
        return false;
    }
    let lower = to_ascii_lower(file_name);
    let tmp = vec!['.', 't', 'm', 'p'];
    let temp = vec!['.', 't', 'e', 'm', 'p'];
    let swp = vec!['.', 's', 'w', 'p'];
    let tilde = vec!['~'];
    assert(tmp@ =~= seq!['.', 't', 'm', 'p']);
    assert(temp@ =~= seq!['.', 't', 'e', 'm', 'p']);
    assert(swp@ =~= seq!['.', 's', 'w', 'p']);
    assert(tilde@ =~= seq!['~']);
    if ends_with(&lower, &tmp) || ends_with(&lower, &temp) || ends_with(&lower, &swp)
        || ends_with(&lower, &tilde) {
        return false;
    }
    true
}

/// Whether files with this (lower-case) extension are edited as text.
pub fn is_text_extension(ext: &Vec<char>) -> (r: bool)
    ensures
        r == text_extension(ext@),
{
    if ext.len() == 2 && ext[0] == 'm' && ext[1] == 'd' {
        return true;
    }
    if ext.len() == 3 && ext[0] == 't' && ext[1] == 'x' && ext[2] == 't' {
        return true;
    }
    assert(!(ext@ =~= seq!['m', 'd']));
    assert(!(ext@ =~= seq!['t', 'x', 't']));
    false
}

/// The trimmed `value` when it may name a file in a category.
pub fn validate_file_name(value: &str) -> (r: Result<String, StoreError>)
    ensures
        r is Ok <==> file_name_check(value@) is Ok,
        r matches Ok(v) ==> file_name_check(value@) == Ok::<Seq<char>, Seq<char>>(v@),
        r matches Err(e) ==> (e matches StoreError::Invalid(m) && file_name_check(value@) == Err::<
            Seq<char>,
            Seq<char>,
        >(m@)),
{
    let raw = chars_of(value);
    let name = trim_chars(&raw);
    if is_blank(&name) {
        return Err(invalid("文件名不能为空"));
    }
    let mut i: usize = 0;
    while i < name.len()
        invariant
            i <= name.len(),
            name@ == trim(value@),
            !blank_name(name@),
            forall|k: int| 0 <= k < i ==> !file_name_forbidden(#[trigger] name@[k]),
        decreases name.len() - i,
    {
        if is_file_name_forbidden(name[i]) {
            assert(0 <= i < name@.len() && file_name_forbidden(name@[i as int]));
            return Err(invalid("文件名不合法"));
        }
        i = i + 1;
    }
    if !is_listed_file_name(&name) {
        return Err(invalid("文件名不合法"));
    }
    Ok(string_of(&name))
}

/// The index of the last `.` of `s`, if there is one.
fn find_last_dot(s: &Vec<char>) -> (r: Option<usize>)
    ensures
        match r {
            Some(k) => k as int == last_dot(s@),
            None => last_dot(s@) == -1,
        },
{
    let mut j: usize = s.len();
    assert(s@.subrange(0, s@.len() as int) =~= s@);
    while j > 0 && s[j - 1] != '.'
        invariant
            j <= s.len(),
            last_dot(s@) == last_dot(s@.subrange(0, j as int)),
        decreases j,
    {
        assert(s@.subrange(0, j as int).drop_last() =~= s@.subrange(0, j - 1));
        j = j - 1;
    }
    if j == 0 {
        None
    } else {
        Some(j - 1)
    }
}

/// The stem and the extension of the file name `s`, as `Path::file_stem`
/// and `Path::extension` split it; the extension is empty when there is none.
pub fn split_file_name(s: &Vec<char>) -> (r: (Vec<char>, Vec<char>))
    ensures
        r.0@ == file_stem(s@),
        r.1@ == file_extension(s@),
{
    let k = find_last_dot(s);
    proof {
        lemma_last_dot(s@);
    }
    let two_dots = s.len() == 2 && s[0] == '.' && s[1] == '.';
    assert(two_dots == (s@ =~= seq!['.', '.']));
    match k {
        Some(k) => {
            if k > 0 && !two_dots {
                return (slice_chars(s, 0, k), slice_chars(s, k + 1, s.len()));
            }
        },
        None => {},
    }
    (slice_chars(s, 0, s.len()), Vec::new())
}

/// `path` without the prefix `\\?\` that Windows puts before verbatim paths.
pub fn plain_path(path: &str) -> (r: String)
    ensures
        r@ == plain_path_chars(path@),
{
    let s = chars_of(path);
    let p = vec!['\\', '\\', '?', '\\'];
    assert(p@ =~= seq!['\\', '\\', '?', '\\']);
    let mut i: usize = 0;
    assert(s@.subrange(0, s@.len() as int) =~= s@);
    let mut rest_v = slice_chars(&s, 0, s.len());
    while starts_with(&rest_v, &p)
        invariant
            i <= s.len(),
            p@ == seq!['\\', '\\', '?', '\\'],
            rest_v@ == s@.subrange(i as int, s@.len() as int),
            plain_path_chars(s@) == plain_path_chars(rest_v@),
        decreases s.len() - i,
    {
        assert(rest_v@.subrange(4, rest_v@.len() as int) =~= s@.subrange(i + 4, s@.len() as int));
        i = i + 4;
        rest_v = slice_chars(&s, i, s.len());
    }
    string_of(&rest_v)
}

/// A name that passes the checks stays inside the folder it names a file or
/// folder of: it holds no path separator and is not `.` or `..`.
pub proof fn lemma_checked_names_stay_inside(value: Seq<char>)
    ensures
        name_check(value) matches Ok(n) ==> lacks(n, '/') && lacks(n, '\\') && !blank_name(n),
        file_name_check(value) matches Ok(n) ==> lacks(n, '/') && lacks(n, '\\') && !blank_name(n),
{
    if name_check(value) is Ok {
        let n = trim(value);
        assert forall|i: int| 0 <= i < n.len() implies n[i] != '/' && n[i] != '\\' by {
            if n[i] == '/' || n[i] == '\\' {
                assert(name_forbidden(n[i]));
            }
        }
    }
    if file_name_check(value) is Ok {
        let n = trim(value);
        assert forall|i: int| 0 <= i < n.len() implies n[i] != '/' && n[i] != '\\' by {
            if n[i] == '/' || n[i] == '\\' {
                assert(file_name_forbidden(n[i]));
            }
        }
    }
}

/// A name of a category or a note is accepted, trimmed, exactly when,
/// trimmed, it is not empty, `.` or `..`, has at most 60 characters, holds
/// no control character and none of `\ / : * ? " < > | [ ]`, does not end
/// in `.` or a space, and is not a device name that Windows reserves. Every
/// other character, such as `-`, a space inside the name or any letter of
/// any script, is allowed.
pub proof fn lemma_name_rules(value: Seq<char>)
    ensures
        name_check(value) is Ok <==> ({
            let n = trim(value);
            &&& n.len() > 0 && n != seq!['.'] && n != seq!['.', '.']
            &&& n.len() <= 60
            &&& forall|i: int| 0 <= i < n.len() ==> {
                let c = #[trigger] n[i];
                &&& !(c <= '\u{1f}' || ('\u{7f}' <= c && c <= '\u{9f}'))
                &&& c != '\\' && c != '/' && c != ':' && c != '*' && c != '?' && c != '"'
                &&& c != '<' && c != '>' && c != '|' && c != '[' && c != ']'
            }
            &&& n.last() != '.' && n.last() != ' '
            &&& !reserved_stem(before_dot(ascii_upper(n)))
        }),
        name_check(value) is Ok ==> name_check(value)->Ok_0 == trim(value),
{
    let n = trim(value);
    if !blank_name(n) && n.len() <= MAX_NAME_CHARS {
        if exists|i: int| 0 <= i < n.len() && name_forbidden(#[trigger] n[i]) {
            let i = choose|i: int| 0 <= i < n.len() && name_forbidden(#[trigger] n[i]);
            assert(name_forbidden(n[i]));
        }
    }
}

/// A file name is accepted, trimmed, exactly when, trimmed, it is not
/// empty, `.` or `..`, holds no control character and none of
/// `\ / : * ? " < > |`, and is a name the library shows. Spaces, `-`, `[`,
/// `]` and letters of any script are allowed, so the names the store gives
/// imported copies, such as `手册 2.docx`, are accepted.
pub proof fn lemma_file_name_rules(value: Seq<char>)
    ensures
        file_name_check(value) is Ok <==> ({
            let n = trim(value);
            &&& n.len() > 0 && n != seq!['.'] && n != seq!['.', '.']
            &&& forall|i: int| 0 <= i < n.len() ==> {
                let c = #[trigger] n[i];
                &&& !(c <= '\u{1f}' || ('\u{7f}' <= c && c <= '\u{9f}'))
                &&& c != '\\' && c != '/' && c != ':' && c != '*' && c != '?' && c != '"'
                &&& c != '<' && c != '>' && c != '|'
            }
            &&& listed_file_name(n)
        }),
        file_name_check(value) is Ok ==> file_name_check(value)->Ok_0 == trim(value),
{
    let n = trim(value);
    if !blank_name(n) {
        if exists|i: int| 0 <= i < n.len() && file_name_forbidden(#[trigger] n[i]) {
            let i = choose|i: int| 0 <= i < n.len() && file_name_forbidden(#[trigger] n[i]);
            assert(file_name_forbidden(n[i]));
        }
    }
}

} // verus!
