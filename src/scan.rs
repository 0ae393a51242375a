//! Word scanning in definition text, with parenthesised optional parts
//! expanded.
use vstd::prelude::*;
use crate::text::{chars_of, string_of};

verus! {

/// The kind of word a scan collects.
#[derive(Clone, Copy, Debug, PartialEq, Eq)]
pub enum WordType {
    English,
    Katakana,
}

/// Whether a character has the Unicode Alphabetic property, as
/// `char::is_alphabetic` computes it.
pub uninterp spec fn alphabetic_of(c: char) -> bool;

/// Relies on `char::is_alphabetic`: the result depends on the character alone.
#[verifier::external_body]
pub(crate) fn char_is_alphabetic(c: char) -> (r: bool)
    ensures
        r == alphabetic_of(c),
{
    c.is_alphabetic()
}

pub open spec fn is_ascii_alphanumeric(c: char) -> bool {
    ('0' <= c <= '9') || ('a' <= c <= 'z') || ('A' <= c <= 'Z')
}

pub open spec fn english_char(c: char) -> bool {
    is_ascii_alphanumeric(c) || c == '-' || c == '\'' || c == '(' || c == ')'
}

pub open spec fn katakana_char(c: char) -> bool {
    (c as u32) >= 0x80 && alphabetic_of(c)
}

pub open spec fn word_char(t: WordType, c: char) -> bool {
    match t {
        WordType::English => english_char(c),
        WordType::Katakana => katakana_char(c),
    }
}

/// An ASCII letter or digit, a hyphen, an apostrophe or a parenthesis.
pub fn is_word_char_english(c: char) -> (r: bool)
    ensures
        r == english_char(c),
{
    ('0' <= c && c <= '9') || ('a' <= c && c <= 'z') || ('A' <= c && c <= 'Z') || c == '-' || c == '\''
        || c == '(' || c == ')'
}

/// An alphabetic character outside ASCII.
pub fn is_word_char_katakana(c: char) -> (r: bool)
    ensures
        r == katakana_char(c),
{
    (c as u32) >= 0x80 && char_is_alphabetic(c)
}

/// The word-character test of a word type.
pub fn is_word_char(word_type: WordType, c: char) -> (r: bool)
    ensures
        r == word_char(word_type, c),
{
    match word_type {
        WordType::English => is_word_char_english(c),
        WordType::Katakana => is_word_char_katakana(c),
    }
}

/// The first index at or after `i` that holds `c`, or the length.
pub open spec fn find_from(s: Seq<char>, c: char, i: int) -> int
    decreases s.len() - i,
{
    if i >= s.len() {
        s.len() as int
    } else if s[i] == c {
        i
    } else {
        find_from(s, c, i + 1)
    }
}

/// The spellings `s` stands for: the first `(` and the first `)` after it
/// mark an optional part, which is left out and then kept; with no `)`
/// after it, `s` is cut at the `(`.
pub open spec fn patterns(s: Seq<char>) -> Seq<Seq<char>>
    decreases s.len(),
{
    let l = find_from(s, '(', 0);
    if l < 0 || l >= s.len() {
        seq![s]
    } else {
        let r = find_from(s, ')', l + 1);
        if r <= l || r >= s.len() {
            patterns(s.subrange(0, l))
        } else {
            patterns(s.subrange(0, l) + s.subrange(r + 1, s.len() as int)) + patterns(
                s.subrange(0, l) + s.subrange(l + 1, r) + s.subrange(r + 1, s.len() as int),
            )
        }
    }
}

fn find_char(s: &Vec<char>, c: char, start: usize) -> (r: usize)
    requires
        start <= s@.len(),
    ensures
        r == find_from(s@, c, start as int),
        start <= r <= s@.len(),
{
    let mut i = start;
    while i < s.len() && s[i] != c
        invariant
            start <= i <= s@.len(),
            find_from(s@, c, start as int) == find_from(s@, c, i as int),
        decreases s@.len() - i,
    {
        i += 1;
    }
    i
}

/// The characters of `s` in `[a, b)`, followed by those of `t` in `[c, d)`.
fn join_ranges(s: &Vec<char>, a: usize, b: usize, c: usize, d: usize) -> (r: Vec<char>)
    requires
        a <= b <= s@.len(),
        c <= d <= s@.len(),
    ensures
        r@ == s@.subrange(a as int, b as int) + s@.subrange(c as int, d as int),
{
    let mut r: Vec<char> = Vec::new();
    let mut i = a;
    while i < b
        invariant
            a <= i <= b <= s@.len(),
            r@ == s@.subrange(a as int, i as int),
        decreases b - i,
    {
        r.push(s[i]);
        i += 1;
        assert(r@ =~= s@.subrange(a as int, i as int));
    }
    let mut j = c;
    while j < d
        invariant
            c <= j <= d <= s@.len(),
            r@ == s@.subrange(a as int, b as int) + s@.subrange(c as int, j as int),
        decreases d - j,
    {
        r.push(s[j]);
        j += 1;
        assert(r@ =~= s@.subrange(a as int, b as int) + s@.subrange(c as int, j as int));
    }
    r
}

fn push_patterns(s: &Vec<char>, out: &mut Vec<String>)
    ensures
        final(out).deep_view() == old(out).deep_view() + patterns(s@),
    decreases s@.len(),
{
    let n = s.len();
    let l = find_char(s, '(', 0);
    if l >= n {
        let ghost before = out.deep_view();
        out.push(string_of(s));
        assert(out.deep_view() =~= before + seq![s@]);
        return;
    }
    let r = find_char(s, ')', l + 1);
    if r >= n {
        let head = join_ranges(s, 0, l, 0, 0);
        assert(head@ =~= s@.subrange(0, l as int));
        push_patterns(&head, out);
    } else {
        let without = join_ranges(s, 0, l, r + 1, n);
        let inner = join_ranges(s, l + 1, r, r + 1, n);
        let mut with = join_ranges(s, 0, l, 0, 0);
        let mut k: usize = 0;
        while k < inner.len()
            invariant
                k <= inner@.len(),
                with@ == s@.subrange(0, l as int) + inner@.subrange(0, k as int),
            decreases inner@.len() - k,
        {
            with.push(inner[k]);
            k += 1;
            assert(with@ =~= s@.subrange(0, l as int) + inner@.subrange(0, k as int));
        }
        assert(with@ =~= s@.subrange(0, l as int) + s@.subrange(l + 1, r as int) + s@.subrange(r + 1, n as int));
        let ghost before = out.deep_view();
        push_patterns(&without, out);
        push_patterns(&with, out);
        assert(out.deep_view() =~= before + patterns(s@));
    }
}

/// Appends to `result` the spellings that `s` stands for.
pub fn extract_patterns(s: &str, result: &mut Vec<String>)
    ensures
        final(result).deep_view() == old(result).deep_view() + patterns(s@),
{
    let v = chars_of(s);
    push_patterns(&v, result);
}


/// Scanner state after some characters: inside a word, where the word
/// starts, where its last non-space character ends, and the words so far.
pub type ScanState = (bool, int, int, Seq<Seq<char>>);

/// The words between `left` and `right` (where non-empty) added to `words`.
pub open spec fn emit(s: Seq<char>, words: Seq<Seq<char>>, left: int, right: int) -> Seq<Seq<char>> {
    if left < right {
        words + patterns(s.subrange(left, right))
    } else {
        words
    }
}

/// One character of the scan: a word starts at a word character and goes on
/// through word characters and spaces; it ends at any other character.
pub open spec fn scan_step(s: Seq<char>, t: WordType, st: ScanState, i: int) -> ScanState {
    let c = s[i];
    let space = c == ' ';
    let (in_word, left, right, words) = st;
    let stays = word_char(t, c) || (in_word && space);
    let (in2, left2, words2) = if in_word != stays {
        if !in_word {
            (true, i, words)
        } else {
            (false, left, emit(s, words, left, right))
        }
    } else {
        (in_word, left, words)
    };
    let right2 = if in2 && !space { i + 1 } else { right };
    (in2, left2, right2, words2)
}

pub open spec fn scan_upto(s: Seq<char>, t: WordType, n: int) -> ScanState
    decreases n,
{
    if n <= 0 {
        (false, 0, 0, Seq::empty())
    } else {
        scan_step(s, t, scan_upto(s, t, n - 1), n - 1)
    }
}

/// The words of type `t` in `s`, each without trailing spaces and expanded
/// into its spellings.
pub open spec fn scan_spec(s: Seq<char>, t: WordType) -> Seq<Seq<char>> {
    let (in_word, left, right, words) = scan_upto(s, t, s.len() as int);
    if in_word {
        emit(s, words, left, right)
    } else {
        words
    }
}

fn emit_into(s: &Vec<char>, left: usize, right: usize, out: &mut Vec<String>)
    requires
        left <= s@.len(),
        right <= s@.len(),
    ensures
        final(out).deep_view() == emit(s@, old(out).deep_view(), left as int, right as int),
{
    if left < right {
        let w = join_ranges(s, left, right, 0, 0);
        assert(w@ =~= s@.subrange(left as int, right as int));
        push_patterns(&w, out);
    }
}

/// The words of the given type in `s`: runs of word characters, with spaces
/// inside a run kept and trailing ones dropped, each expanded into the
/// spellings its parenthesised parts stand for.
pub fn scan_words(word_type: WordType, s: &str) -> (r: Vec<String>)
    ensures
        r.deep_view() == scan_spec(s@, word_type),
{
    let v = chars_of(s);
    let mut result: Vec<String> = Vec::new();
    let mut in_word = false;
    let mut left: usize = 0;
    let mut right: usize = 0;
    let mut i: usize = 0;
    while i < v.len()
        invariant
            v@ == s@,
            i <= v@.len(),
            left <= i,
            right <= i,
            scan_upto(s@, word_type, i as int) == (in_word, left as int, right as int, result.deep_view()),
        decreases v@.len() - i,
    {
        let c = v[i];
        let space = c == ' ';
        let stays = is_word_char(word_type, c) || (in_word && space);
        if in_word != stays {
            in_word = !in_word;
            if in_word {
                left = i;
            } else {
                emit_into(&v, left, right, &mut result);
            }
        }
        if in_word && !space {
            right = i + 1;
        }
        i += 1;
    }
    if in_word {
        emit_into(&v, left, right, &mut result);
    }
    result
}

} // verus!
