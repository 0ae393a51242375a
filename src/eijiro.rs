//! Small readers of EIJIRO-format dictionary lines.
use vstd::prelude::*;
use vstd::string::*;
use crate::scan::{alphabetic_of, char_is_alphabetic};
use crate::text::chars_of;

verus! {

/// The first index at or after `i` whose character is alphabetic exactly
/// when `alpha` holds, or the length.
pub open spec fn find_alpha(s: Seq<char>, alpha: bool, i: int) -> int
    decreases s.len() - i,
{
    if i < 0 || i >= s.len() {
        s.len() as int
    } else if alphabetic_of(s[i]) == alpha {
        i
    } else {
        find_alpha(s, alpha, i + 1)
    }
}

/// The first run of alphabetic characters of `s`, if any.
pub open spec fn tag_name_spec(s: Seq<char>) -> Option<Seq<char>> {
    let start = find_alpha(s, true, 0);
    if start >= s.len() {
        None
    } else {
        Some(s.subrange(start, find_alpha(s, false, start)))
    }
}

fn find_alpha_index(v: &Vec<char>, alpha: bool, start: usize) -> (r: usize)
    requires
        start <= v@.len(),
    ensures
        r == find_alpha(v@, alpha, start as int),
        start <= r <= v@.len(),
{
    let mut i = start;
    while i < v.len() && char_is_alphabetic(v[i]) != alpha
        invariant
            start <= i <= v@.len(),
            find_alpha(v@, alpha, start as int) == find_alpha(v@, alpha, i as int),
        decreases v@.len() - i,
    {
        i += 1;
    }
    i
}

/// The name of a tag such as `{1-自動}`: its first run of alphabetic
/// characters.
pub fn extract_tag_name(s: &str) -> (r: Option<&str>)
    ensures
        r matches Some(t) ==> tag_name_spec(s@) == Some(t@),
        r is None ==> tag_name_spec(s@) is None,
{
    let v = chars_of(s);
    let start = find_alpha_index(&v, true, 0);
    if start >= v.len() {
        return None;
    }
    let end = find_alpha_index(&v, false, start);
    Some(s.substring_char(start, end))
}

/// The characters that end the part of a line read by `read_until_symbols`.
pub open spec fn is_section_symbol(c: char) -> bool {
    c == '\u{3010}' || c == '{' || c == '\u{25C6}' || c == '\u{25A0}' || c == '\u{3014}'
}

/// The first index at or after `i` holding a section symbol, or the length.
pub open spec fn find_symbol(s: Seq<char>, i: int) -> int
    decreases s.len() - i,
{
    if i < 0 || i >= s.len() {
        s.len() as int
    } else if is_section_symbol(s[i]) {
        i
    } else {
        find_symbol(s, i + 1)
    }
}

/// `s` up to its first section symbol (`【`, `{`, `◆`, `■` or `〔`).
pub fn read_until_symbols(s: &str) -> (r: &str)
    ensures
        r@ == s@.subrange(0, find_symbol(s@, 0)),
{
    let v = chars_of(s);
    let mut i: usize = 0;
    while i < v.len() && !(v[i] == '\u{3010}' || v[i] == '{' || v[i] == '\u{25C6}' || v[i] == '\u{25A0}'
        || v[i] == '\u{3014}')
        invariant
            v@ == s@,
            i <= v@.len(),
            find_symbol(s@, 0) == find_symbol(s@, i as int),
        decreases v@.len() - i,
    {
        i += 1;
    }
    s.substring_char(0, i)
}

} // verus!
