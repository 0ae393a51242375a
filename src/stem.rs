//! Suffix-stripping stemmer: candidate base forms of an inflected word.
use vstd::prelude::*;
use crate::text::{chars_of, string_of};

verus! {

/// Number of rules in the suffix table.
pub const RULE_COUNT: usize = 13;

/// The suffix table, most specific first: a suffix and its replacement.
pub open spec fn suffix_rule(i: int) -> (Seq<char>, Seq<char>) {
    if i == 0 {
        (seq!['i', 'e', 'd'], seq!['y'])
    } else if i == 1 {
        (seq!['i', 'e', 'r'], seq!['y'])
    } else if i == 2 {
        (seq!['i', 'e', 's'], seq!['y'])
    } else if i == 3 {
        (seq!['i', 'e', 's', 't'], seq!['y'])
    } else if i == 4 {
        (seq!['n', 'n', 'i', 'n', 'g'], seq!['n'])
    } else if i == 5 {
        (seq!['e', 's', 't'], seq![])
    } else if i == 6 {
        (seq!['i', 'n', 'g'], seq![])
    } else if i == 7 {
        (seq!['\'', 's'], seq![])
    } else if i == 8 {
        (seq!['e', 'd'], seq![])
    } else if i == 9 {
        (seq!['e', 'd'], seq!['e'])
    } else if i == 10 {
        (seq!['e', 'r'], seq![])
    } else if i == 11 {
        (seq!['e', 's'], seq![])
    } else {
        (seq!['s'], seq![])
    }
}

pub open spec fn ends_with(w: Seq<char>, suffix: Seq<char>) -> bool {
    suffix.len() <= w.len() && w.subrange(w.len() - suffix.len(), w.len() as int) == suffix
}

/// Rule `i` applies to `w`: `w` ends with its suffix, and what remains with
/// the replacement added is at least two characters long.
pub open spec fn rule_applies(w: Seq<char>, i: int) -> bool {
    let (suffix, to) = suffix_rule(i);
    ends_with(w, suffix) && w.len() - suffix.len() + to.len() >= 2
}

pub open spec fn apply_rule(w: Seq<char>, i: int) -> Seq<char> {
    let (suffix, to) = suffix_rule(i);
    w.subrange(0, w.len() - suffix.len()) + to
}

/// The candidates of the first `n` rules, in table order.
pub open spec fn stems_upto(w: Seq<char>, n: int) -> Seq<Seq<char>>
    decreases n,
{
    if n <= 0 {
        Seq::empty()
    } else {
        stems_upto(w, n - 1) + if rule_applies(w, n - 1) {
            seq![apply_rule(w, n - 1)]
        } else {
            Seq::empty()
        }
    }
}

pub open spec fn stem_spec(w: Seq<char>) -> Seq<Seq<char>> {
    stems_upto(w, RULE_COUNT as int)
}

fn rule_at(i: usize) -> (r: (Vec<char>, Vec<char>))
    requires
        i < RULE_COUNT,
    ensures
        r.0@ == suffix_rule(i as int).0,
        r.1@ == suffix_rule(i as int).1,
{
    let r = if i == 0 {
        (vec!['i', 'e', 'd'], vec!['y'])
    } else if i == 1 {
        (vec!['i', 'e', 'r'], vec!['y'])
    } else if i == 2 {
        (vec!['i', 'e', 's'], vec!['y'])
    } else if i == 3 {
        (vec!['i', 'e', 's', 't'], vec!['y'])
    } else if i == 4 {
        (vec!['n', 'n', 'i', 'n', 'g'], vec!['n'])
    } else if i == 5 {
        (vec!['e', 's', 't'], vec![])
    } else if i == 6 {
        (vec!['i', 'n', 'g'], vec![])
    } else if i == 7 {
        (vec!['\'', 's'], vec![])
    } else if i == 8 {
        (vec!['e', 'd'], vec![])
    } else if i == 9 {
        (vec!['e', 'd'], vec!['e'])
    } else if i == 10 {
        (vec!['e', 'r'], vec![])
    } else if i == 11 {
        (vec!['e', 's'], vec![])
    } else {
        (vec!['s'], vec![])
    };
    assert(r.0@ =~= suffix_rule(i as int).0);
    assert(r.1@ =~= suffix_rule(i as int).1);
    r
}

/// `w` ends with `suffix`.
pub fn has_suffix(w: &Vec<char>, suffix: &Vec<char>) -> (r: bool)
    ensures
        r == ends_with(w@, suffix@),
{
    if suffix.len() > w.len() {
        return false;
    }
    let off = w.len() - suffix.len();
    let mut i: usize = 0;
    while i < suffix.len()
        invariant
            off + suffix@.len() == w@.len(),
            w@.len() <= usize::MAX,
            i <= suffix@.len(),
            forall|k: int| 0 <= k < i ==> w@[off + k] == suffix@[k],
        decreases suffix@.len() - i,
    {
        if w[off + i] != suffix[i] {
            assert(w@.subrange(off as int, w@.len() as int)[i as int] != suffix@[i as int]);
            return false;
        }
        i += 1;
    }
    assert(w@.subrange(off as int, w@.len() as int) =~= suffix@);
    true
}

/// The candidate base forms of `word`, one for each rule of the suffix table
/// that applies, in table order.
pub fn stem(word: &str) -> (r: Vec<String>)
    ensures
        r.deep_view() == stem_spec(word@),
{
    let w = chars_of(word);
    let mut out: Vec<String> = Vec::new();
    let mut i: usize = 0;
    while i < RULE_COUNT
        invariant
            w@ == word@,
            i <= RULE_COUNT,
            out.deep_view() == stems_upto(word@, i as int),
        decreases RULE_COUNT - i,
    {
        let (suffix, to) = rule_at(i);
        if has_suffix(&w, &suffix) && w.len() - suffix.len() + to.len() >= 2 {
            let keep = w.len() - suffix.len();
            let mut base: Vec<char> = Vec::new();
            let mut k: usize = 0;
            while k < keep
                invariant
                    keep <= w@.len(),
                    k <= keep,
                    base@ == w@.subrange(0, k as int),
                decreases keep - k,
            {
                base.push(w[k]);
                k += 1;
            }
            let mut j: usize = 0;
            while j < to.len()
                invariant
                    j <= to@.len(),
                    base@ == w@.subrange(0, keep as int) + to@.subrange(0, j as int),
                decreases to@.len() - j,
            {
                base.push(to[j]);
                j += 1;
                assert(base@ =~= w@.subrange(0, keep as int) + to@.subrange(0, j as int));
            }
            assert(base@ =~= apply_rule(word@, i as int));
            let s = string_of(&base);
            out.push(s);
            assert(out.deep_view() =~= stems_upto(word@, i + 1));
        } else {
            assert(out.deep_view() =~= stems_upto(word@, i + 1));
        }
        i += 1;
    }
    out
}

} // verus!
