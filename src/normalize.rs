//! Canonical comparison form of a query, and the phrase prefixes tried in turn.
use vstd::prelude::*;
use vstd::string::*;
use crate::text::{chars_of, string_of};

verus! {

/// The katakana long-vowel mark, dropped by normalisation.
pub const LONG_VOWEL_MARK: char = '\u{30FC}';

/// A full-width form of a printable ASCII character (U+FF01 to U+FF5E).
pub open spec fn is_wide_ascii(c: char) -> bool {
    0xFF01 <= c as u32 <= 0xFF5E
}

/// Full-width ASCII folded to its half-width character; others unchanged.
pub open spec fn fold_char(c: char) -> char {
    if is_wide_ascii(c) {
        ((c as u32) - 0xFEE0) as char
    } else {
        c
    }
}

pub open spec fn fold_width(s: Seq<char>) -> Seq<char> {
    s.map_values(|c: char| fold_char(c))
}

/// ASCII upper case letters lowered; others unchanged.
pub open spec fn ascii_lower_char(c: char) -> char {
    if 'A' <= c <= 'Z' {
        ((c as u32) + 32) as char
    } else {
        c
    }
}

pub open spec fn ascii_lower(s: Seq<char>) -> Seq<char> {
    s.map_values(|c: char| ascii_lower_char(c))
}

/// Characters on which Unicode lower-casing is plain ASCII lower-casing.
pub open spec fn is_simple_case(c: char) -> bool {
    (c as u32) < 0x80 || c == LONG_VOWEL_MARK
}

/// Unicode lower-casing of a string, as `str::to_lowercase` computes it.
pub uninterp spec fn lower_of(s: Seq<char>) -> Seq<char>;

/// Relies on `str::to_lowercase`: the result depends on the characters alone.
#[verifier::external_body]
pub(crate) fn unicode_lowercase(s: &str) -> (r: String)
    ensures
        r@ == lower_of(s@),
{
    s.to_lowercase()
}

/// `s` without any occurrence of `c`.
pub open spec fn remove_char(s: Seq<char>, c: char) -> Seq<char>
    decreases s.len(),
{
    if s.len() == 0 {
        s
    } else {
        let p = remove_char(s.drop_last(), c);
        if s.last() == c {
            p
        } else {
            p.push(s.last())
        }
    }
}

/// `s` with every occurrence of `c` replaced by `to`.
pub open spec fn replace_char(s: Seq<char>, c: char, to: Seq<char>) -> Seq<char>
    decreases s.len(),
{
    if s.len() == 0 {
        s
    } else {
        let p = replace_char(s.drop_last(), c, to);
        if s.last() == c {
            p + to
        } else {
            p.push(s.last())
        }
    }
}

/// The lower-cased form of an already width-folded string.
pub open spec fn lowered(f: Seq<char>) -> Seq<char> {
    if forall|i: int| 0 <= i < f.len() ==> is_simple_case(#[trigger] f[i]) {
        ascii_lower(f)
    } else {
        lower_of(f)
    }
}

/// Width folding, lower-casing and removal of the long-vowel mark.
pub open spec fn canonical(s: Seq<char>) -> Seq<char> {
    remove_char(lowered(fold_width(s)), LONG_VOWEL_MARK)
}

/// The normal form of a query, or nothing where it is empty.
pub open spec fn normalize_spec(s: Seq<char>) -> Option<Seq<char>> {
    if canonical(s).len() == 0 {
        None
    } else {
        Some(canonical(s))
    }
}

pub fn replace_in(s: &Vec<char>, c: char, to: &Vec<char>) -> (r: Vec<char>)
    ensures
        r@ == replace_char(s@, c, to@),
{
    let mut out: Vec<char> = Vec::new();
    let mut i: usize = 0;
    while i < s.len()
        invariant
            i <= s@.len(),
            out@ == replace_char(s@.subrange(0, i as int), c, to@),
        decreases s@.len() - i,
    {
        proof {
            assert(s@.subrange(0, i + 1).drop_last() =~= s@.subrange(0, i as int));
        }
        if s[i] == c {
            let mut j: usize = 0;
            let ghost before = out@;
            while j < to.len()
                invariant
                    j <= to@.len(),
                    out@ == before + to@.subrange(0, j as int),
                decreases to@.len() - j,
            {
                out.push(to[j]);
                j += 1;
                assert(before + to@.subrange(0, j as int) =~= (before + to@.subrange(0, j - 1)).push(to@[j - 1]));
            }
            assert(to@.subrange(0, j as int) =~= to@);
        } else {
            out.push(s[i]);
        }
        i += 1;
    }
    assert(s@.subrange(0, i as int) =~= s@);
    out
}

fn remove_in(s: &Vec<char>, c: char) -> (r: Vec<char>)
    ensures
        r@ == remove_char(s@, c),
{
    let mut out: Vec<char> = Vec::new();
    let mut i: usize = 0;
    while i < s.len()
        invariant
            i <= s@.len(),
            out@ == remove_char(s@.subrange(0, i as int), c),
        decreases s@.len() - i,
    {
        proof {
            assert(s@.subrange(0, i + 1).drop_last() =~= s@.subrange(0, i as int));
        }
        if s[i] != c {
            out.push(s[i]);
        }
        i += 1;
    }
    assert(s@.subrange(0, i as int) =~= s@);
    out
}

fn fold_in(s: &Vec<char>) -> (r: Vec<char>)
    ensures
        r@ == fold_width(s@),
{
    let mut out: Vec<char> = Vec::new();
    let mut i: usize = 0;
    while i < s.len()
        invariant
            i <= s@.len(),
            out@ == fold_width(s@.subrange(0, i as int)),
        decreases s@.len() - i,
    {
        let c = s[i];
        let u = c as u32;
        let f = if 0xFF01 <= u && u <= 0xFF5E {
            char_of_ascii((u - 0xFEE0) as u8)
        } else {
            c
        };
        out.push(f);
        i += 1;
        assert(out@ =~= fold_width(s@.subrange(0, i as int)));
    }
    assert(s@.subrange(0, i as int) =~= s@);
    out
}

pub(crate) fn char_of_ascii(b: u8) -> (c: char)
    requires
        b < 0x80,
    ensures
        c as u32 == b as u32,
{
    b as char
}


pub(crate) fn lower_in(f: &Vec<char>) -> (r: Vec<char>)
    ensures
        r@ == lowered(f@),
{
    let mut simple = true;
    let mut i: usize = 0;
    while i < f.len()
        invariant
            i <= f@.len(),
            simple == (forall|k: int| 0 <= k < i ==> is_simple_case(#[trigger] f@[k])),
        decreases f@.len() - i,
    {
        let u = f[i] as u32;
        if !(u < 0x80 || f[i] == LONG_VOWEL_MARK) {
            simple = false;
        }
        i += 1;
    }
    if simple {
        let mut out: Vec<char> = Vec::new();
        let mut j: usize = 0;
        while j < f.len()
            invariant
                j <= f@.len(),
                out@ == ascii_lower(f@.subrange(0, j as int)),
            decreases f@.len() - j,
        {
            let c = f[j];
            let l = if 'A' <= c && c <= 'Z' {
                char_of_ascii((c as u32 + 32) as u8)
            } else {
                c
            };
            out.push(l);
            j += 1;
            assert(out@ =~= ascii_lower(f@.subrange(0, j as int)));
        }
        assert(f@.subrange(0, j as int) =~= f@);
        out
    } else {
        let s = string_of(f);
        let l = unicode_lowercase(s.as_str());
        chars_of(l.as_str())
    }
}

/// Converts full-width ASCII to half-width, lower-cases and removes the
/// long-vowel mark; nothing where the result is empty.
pub fn fix_word(s: &str) -> (r: Option<String>)
    ensures
        r matches Some(w) ==> normalize_spec(s@) == Some(w@),
        r is None ==> normalize_spec(s@) is None,
{
    let v = chars_of(s);
    let folded = fold_in(&v);
    let lower = lower_in(&folded);
    let stripped = remove_in(&lower, LONG_VOWEL_MARK);
    if stripped.len() == 0 {
        None
    } else {
        Some(string_of(&stripped))
    }
}


proof fn lemma_remove_chars(s: Seq<char>, c: char)
    ensures
        forall|i: int| 0 <= i < remove_char(s, c).len() ==> #[trigger] remove_char(s, c)[i] != c
            && s.contains(remove_char(s, c)[i]),
    decreases s.len(),
{
    if s.len() > 0 {
        lemma_remove_chars(s.drop_last(), c);
        let p = remove_char(s.drop_last(), c);
        assert forall|i: int| 0 <= i < remove_char(s, c).len() implies #[trigger] remove_char(s, c)[i] != c
            && s.contains(remove_char(s, c)[i]) by {
            if i < p.len() {
                assert(p[i] == remove_char(s, c)[i]);
                let j = choose|j: int| 0 <= j < s.drop_last().len() && s.drop_last()[j] == p[i];
                assert(s[j] == p[i]);
            } else {
                assert(s[s.len() - 1] == s.last());
            }
        }
    }
}

pub proof fn lemma_remove_absent(s: Seq<char>, c: char)
    requires
        !s.contains(c),
    ensures
        remove_char(s, c) == s,
    decreases s.len(),
{
    if s.len() > 0 {
        assert(!s.drop_last().contains(c)) by {
            if s.drop_last().contains(c) {
                let j = choose|j: int| 0 <= j < s.drop_last().len() && s.drop_last()[j] == c;
                assert(s[j] == c);
            }
        }
        lemma_remove_absent(s.drop_last(), c);
        assert(s[s.len() - 1] == s.last());
        assert(s.drop_last().push(s.last()) =~= s);
    }
}

/// Normalising twice gives what normalising once gives, for every query
/// whose width-folded form holds only ASCII characters and the long-vowel
/// mark.
pub proof fn lemma_normalize_idempotent(s: Seq<char>)
    requires
        forall|i: int| 0 <= i < fold_width(s).len() ==> is_simple_case(#[trigger] fold_width(s)[i]),
        normalize_spec(s) is Some,
    ensures
        normalize_spec(normalize_spec(s)->0) == normalize_spec(s),
{
    let f = fold_width(s);
    let l = ascii_lower(f);
    let w = remove_char(l, LONG_VOWEL_MARK);
    assert(lowered(f) == l);
    assert(normalize_spec(s) == Some(w));
    lemma_remove_chars(l, LONG_VOWEL_MARK);
    assert forall|i: int| 0 <= i < w.len() implies (#[trigger] w[i] as u32) < 0x80
        && !('A' <= w[i] <= 'Z') by {
        let j = choose|j: int| 0 <= j < l.len() && l[j] == w[i];
        assert(is_simple_case(f[j]));
    }
    let fw = fold_width(w);
    assert(fw =~= w);
    assert(forall|i: int| 0 <= i < fw.len() ==> is_simple_case(#[trigger] fw[i]));
    assert(lowered(fw) == ascii_lower(w));
    assert(ascii_lower(w) =~= w);
    assert(!w.contains(LONG_VOWEL_MARK)) by {
        if w.contains(LONG_VOWEL_MARK) {
            let j = choose|j: int| 0 <= j < w.len() && w[j] == LONG_VOWEL_MARK;
            assert(w[j] as u32 >= 0x80);
        }
    }
    lemma_remove_absent(w, LONG_VOWEL_MARK);
}


/// Unicode white space (the `White_Space` property).
pub open spec fn is_white_space(c: char) -> bool {
    let u = c as u32;
    (0x09 <= u <= 0x0D) || u == 0x20 || u == 0x85 || u == 0xA0 || u == 0x1680 || (0x2000 <= u
        <= 0x200A) || u == 0x2028 || u == 0x2029 || u == 0x202F || u == 0x205F || u == 0x3000
}

/// `c` is white space.
pub fn white_space(c: char) -> (r: bool)
    ensures
        r == is_white_space(c),
{
    let u = c as u32;
    (0x09 <= u && u <= 0x0D) || u == 0x20 || u == 0x85 || u == 0xA0 || u == 0x1680 || (0x2000 <= u && u
        <= 0x200A) || u == 0x2028 || u == 0x2029 || u == 0x202F || u == 0x205F || u == 0x3000
}

/// Position `j` ends a word: the character before it is not white space,
/// and it is the end of `s` or white space follows.
pub open spec fn is_word_end(s: Seq<char>, j: int) -> bool {
    0 < j <= s.len() && !is_white_space(s[j - 1]) && (j == s.len() || is_white_space(s[j]))
}

/// The word ends in `(lo, hi]`, from the last to the first.
pub open spec fn word_ends(s: Seq<char>, lo: int, hi: int) -> Seq<int>
    decreases hi - lo,
{
    if hi <= lo {
        Seq::empty()
    } else {
        word_ends(s, lo + 1, hi) + if is_word_end(s, lo + 1) {
            seq![lo + 1]
        } else {
            Seq::empty()
        }
    }
}

/// The first position at or after `k` that does not hold white space.
pub open spec fn word_start(s: Seq<char>, k: int) -> int
    decreases s.len() - k,
{
    if k >= s.len() {
        s.len() as int
    } else if !is_white_space(s[k]) {
        k
    } else {
        word_start(s, k + 1)
    }
}

/// The phrase cut at each word end, from the whole phrase down to its first
/// word, leading and trailing white space left out.
pub open spec fn shorten_spec(s: Seq<char>) -> Seq<Seq<char>> {
    word_ends(s, 0, s.len() as int).map_values(|j: int| s.subrange(word_start(s, 0), j))
}

proof fn lemma_word_start_before(s: Seq<char>, k: int, m: int)
    requires
        0 <= k <= m < s.len(),
        !is_white_space(s[m]),
    ensures
        k <= word_start(s, k) <= m,
    decreases m - k,
{
    if is_white_space(s[k]) {
        lemma_word_start_before(s, k + 1, m);
    }
}

/// The phrase prefixes of `s` ending at each word end, longest first.
pub fn shorten(s: &str) -> (r: Vec<&str>)
    ensures
        r@.len() == shorten_spec(s@).len(),
        forall|k: int| 0 <= k < r@.len() ==> (#[trigger] r@[k])@ == shorten_spec(s@)[k],
{
    let v = chars_of(s);
    let n = v.len();
    let mut start: usize = 0;
    while start < n && white_space(v[start])
        invariant
            start <= n == s@.len(),
            v@ == s@,
            word_start(s@, start as int) == word_start(s@, 0),
        decreases n - start,
    {
        start += 1;
    }
    assert(word_start(s@, start as int) == start);
    let mut out: Vec<&str> = Vec::new();
    let mut i: usize = n;
    while i > 0
        invariant
            i <= n == s@.len(),
            v@ == s@,
            start == word_start(s@, 0),
            out@.len() == word_ends(s@, i as int, n as int).len(),
            forall|k: int| 0 <= k < out@.len() ==> (#[trigger] out@[k])@
                == s@.subrange(start as int, word_ends(s@, i as int, n as int)[k]),
        decreases i,
    {
        let ghost before = word_ends(s@, i as int, n as int);
        assert(word_ends(s@, i - 1, n as int) == before + if is_word_end(s@, i as int) {
            seq![i as int]
        } else {
            Seq::<int>::empty()
        });
        if !white_space(v[i - 1]) && (i == n || white_space(v[i])) {
            proof {
                lemma_word_start_before(s@, 0, i - 1);
            }
            out.push(s.substring_char(start, i));
        }
        i -= 1;
    }
    out
}

/// The snake-case form of a string, as heck's `to_snake_case` computes it.
pub uninterp spec fn snake_of(s: Seq<char>) -> Seq<char>;

/// Relies on heck's `SnakeCase::to_snake_case`: word boundaries (case changes,
/// separators) become underscores and letters are lowered; the result depends
/// on the characters alone.
#[verifier::external_body]
fn snake_case(s: &str) -> (r: String)
    ensures
        r@ == snake_of(s@),
{
    heck::SnakeCase::to_snake_case(s)
}

/// The de-snaked form of a string: its snake-case form with underscores as spaces.
pub open spec fn uncase_spec(s: Seq<char>) -> Seq<char> {
    replace_char(snake_of(s), '_', seq![' '])
}

/// Splits camel case and separators into lower-case words joined by spaces.
pub fn uncase(s: &str) -> (r: String)
    ensures
        r@ == uncase_spec(s@),
{
    let snake = snake_case(s);
    let v = chars_of(snake.as_str());
    let space = vec![' '];
    let replaced = replace_in(&v, '_', &space);
    assert(space@ =~= seq![' ']);
    string_of(&replaced)
}

} // verus!
