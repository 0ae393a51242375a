//! Spelling correction: headwords within two edits of a word, most similar
//! first.
use std::collections::HashMap;
use vstd::prelude::*;
use vstd::wrapping::u64_specs;
use crate::normalize::{ascii_lower, char_of_ascii, is_simple_case, lower_in};
use crate::dictionary::distinct;
use crate::text::{chars_of, contains_string, lemma_insert_multiset, same_chars, string_of, views};

verus! {

/// The most suggestions returned.
pub const MAX_SUGGESTIONS: usize = 10;

/// The `k`-th lower-case Latin letter.
pub open spec fn letter(k: int) -> char {
    (('a' as u32) + k) as char
}

pub open spec fn deletion(w: Seq<char>, i: int) -> Seq<char> {
    w.subrange(0, i) + w.subrange(i + 1, w.len() as int)
}

pub open spec fn substitution(w: Seq<char>, i: int, c: char) -> Seq<char> {
    w.subrange(0, i) + seq![c] + w.subrange(i + 1, w.len() as int)
}

pub open spec fn transposition(w: Seq<char>, i: int) -> Seq<char> {
    w.subrange(0, i) + seq![w[i + 1], w[i]] + w.subrange(i + 2, w.len() as int)
}

pub open spec fn insertion(w: Seq<char>, i: int, c: char) -> Seq<char> {
    w.subrange(0, i) + seq![c] + w.subrange(i, w.len() as int)
}

/// The single edits at split point `i`: deletion and substitutions of the
/// character after it, transposition of the two after it, and insertions.
pub open spec fn edits_at(w: Seq<char>, i: int) -> Seq<Seq<char>> {
    let changes = if i < w.len() {
        seq![deletion(w, i)] + Seq::new(26, |k: int| substitution(w, i, letter(k))) + if i + 1 < w.len() {
            seq![transposition(w, i)]
        } else {
            Seq::empty()
        }
    } else {
        Seq::empty()
    };
    changes + Seq::new(26, |k: int| insertion(w, i, letter(k)))
}

pub open spec fn edits_upto(w: Seq<char>, n: int) -> Seq<Seq<char>>
    decreases n,
{
    if n <= 0 {
        Seq::empty()
    } else {
        edits_upto(w, n - 1) + edits_at(w, n - 1)
    }
}

/// The strings one edit away from `w`, at every split point.
pub open spec fn edits1(w: Seq<char>) -> Seq<Seq<char>> {
    edits_upto(w, w.len() + 1int)
}

/// The single edits of the first `n` strings of `cs`.
pub open spec fn expand(cs: Seq<Seq<char>>, n: int) -> Seq<Seq<char>>
    decreases n,
{
    if n <= 0 {
        Seq::empty()
    } else {
        expand(cs, n - 1) + edits1(cs[n - 1])
    }
}

/// The strings one or two edits away from `w`.
pub open spec fn candidates(w: Seq<char>) -> Seq<Seq<char>> {
    edits1(w) + expand(edits1(w), edits1(w).len() as int)
}

/// The keys reachable from `l` in one or two edits, in key order.
pub open spec fn reachable_keys(keys: Seq<Seq<char>>, l: Seq<char>) -> Seq<Seq<char>>
    decreases keys.len(),
{
    if keys.len() == 0 {
        keys
    } else {
        reachable_keys(keys.drop_last(), l) + if candidates(l).contains(keys.last()) {
            seq![keys.last()]
        } else {
            Seq::empty()
        }
    }
}

/// The Jaro-Winkler similarity of two strings as strsim computes it, given
/// by the bit pattern of that non-negative number.
pub uninterp spec fn similarity_of(a: Seq<char>, b: Seq<char>) -> u64;

/// Relies on `strsim::jaro_winkler`: a similarity in [0, 1] that depends on
/// the two strings alone. Its bit pattern orders such values as the values
/// themselves.
#[verifier::external_body]
fn similarity(a: &str, b: &str) -> (r: u64)
    ensures
        r == similarity_of(a@, b@),
{
    strsim::jaro_winkler(a, b).to_bits()
}

/// Where `x` goes among `sorted` (highest score first): after every element
/// scoring at least as high, from `j` on.
pub open spec fn score_position(sorted: Seq<(u64, Seq<char>)>, x: (u64, Seq<char>), j: int) -> int
    decreases sorted.len() - j,
{
    if j >= sorted.len() {
        sorted.len() as int
    } else if sorted[j].0 < x.0 {
        j
    } else {
        score_position(sorted, x, j + 1)
    }
}

/// `ps` sorted by decreasing score, equal scores kept in their order.
pub open spec fn sort_by_score(ps: Seq<(u64, Seq<char>)>) -> Seq<(u64, Seq<char>)>
    decreases ps.len(),
{
    if ps.len() == 0 {
        ps
    } else {
        let p = sort_by_score(ps.drop_last());
        p.insert(score_position(p, ps.last(), 0), ps.last())
    }
}

pub open spec fn is_ascii_alphabetic(c: char) -> bool {
    ('a' <= c <= 'z') || ('A' <= c <= 'Z')
}

/// The suggestions for `word` among `keys`: nothing where `word` holds a
/// character other than an ASCII letter; otherwise the keys one or two edits
/// from its lower-cased form, most similar first, at most ten.
pub open spec fn correct_spec(keys: Seq<Seq<char>>, word: Seq<char>) -> Seq<Seq<char>> {
    if !(forall|i: int| 0 <= i < word.len() ==> is_ascii_alphabetic(#[trigger] word[i])) {
        Seq::empty()
    } else {
        let l = ascii_lower(word);
        ranked(scored_keys(reachable_keys(keys, l), l))
    }
}

/// `w` with the characters in `[a, b)` replaced by `mid`.
fn splice(w: &Vec<char>, a: usize, b: usize, mid: &Vec<char>) -> (r: Vec<char>)
    requires
        a <= b <= w@.len(),
    ensures
        r@ == w@.subrange(0, a as int) + mid@ + w@.subrange(b as int, w@.len() as int),
{
    let mut r: Vec<char> = Vec::new();
    let mut i: usize = 0;
    while i < a
        invariant
            a <= b <= w@.len(),
            i <= a,
            r@ == w@.subrange(0, i as int),
        decreases a - i,
    {
        r.push(w[i]);
        i += 1;
    }
    let mut j: usize = 0;
    while j < mid.len()
        invariant
            j <= mid@.len(),
            r@ == w@.subrange(0, a as int) + mid@.subrange(0, j as int),
        decreases mid@.len() - j,
    {
        r.push(mid[j]);
        j += 1;
        assert(r@ =~= w@.subrange(0, a as int) + mid@.subrange(0, j as int));
    }
    let mut k: usize = b;
    while k < w.len()
        invariant
            b <= k <= w@.len(),
            r@ == w@.subrange(0, a as int) + mid@ + w@.subrange(b as int, k as int),
        decreases w@.len() - k,
    {
        r.push(w[k]);
        k += 1;
        assert(r@ =~= w@.subrange(0, a as int) + mid@ + w@.subrange(b as int, k as int));
    }
    assert(mid@.subrange(0, j as int) =~= mid@);
    r
}

fn letter_at(k: usize) -> (c: char)
    requires
        k < 26,
    ensures
        c == letter(k as int),
{
    char_of_ascii((97 + k) as u8)
}

/// Appends the single edits of `w`, in order, to `out`.
fn build_simple_candidates(w: &Vec<char>, out: &mut Vec<Vec<char>>)
    ensures
        views(final(out)@) == views(old(out)@) + edits1(w@),
{
    let ghost base = views(out@);
    let n = w.len();
    let mut i: usize = 0;
    loop
        invariant_except_break
            views(out@) == base + edits_upto(w@, i as int),
        invariant
            n == w@.len(),
            i <= n,
        ensures
            views(out@) == base + edits_upto(w@, n + 1),
        decreases n - i,
    {
        let ghost start = views(out@);
        let empty: Vec<char> = Vec::new();
        if i < n {
            let d = splice(w, i, i + 1, &empty);
            assert(d@ =~= deletion(w@, i as int));
            out.push(d);
            assert(views(out@) =~= start + seq![deletion(w@, i as int)]);
            let mut k: usize = 0;
            while k < 26
                invariant
                    n == w@.len(),
                    i < n,
                    k <= 26,
                    views(out@) == start + seq![deletion(w@, i as int)] + Seq::new(k as nat, |q: int| substitution(w@, i as int, letter(q))),
                decreases 26 - k,
            {
                let c = letter_at(k);
                let mut mid: Vec<char> = Vec::new();
                mid.push(c);
                assert(mid@ =~= seq![c]);
                let ghost before = views(out@);
                let sp = splice(w, i, i + 1, &mid);
                assert(sp@ == substitution(w@, i as int, letter(k as int)));
                out.push(sp);
                assert(views(out@) =~= before.push(sp@));
                k += 1;
                assert(views(out@) =~= start + seq![deletion(w@, i as int)] + Seq::new(k as nat, |q: int| substitution(w@, i as int, letter(q))));
            }
            if i + 1 < n {
                let mut mid: Vec<char> = Vec::new();
                mid.push(w[i + 1]);
                mid.push(w[i]);
                assert(mid@ =~= seq![w@[i + 1], w@[i as int]]);
                let ghost before = views(out@);
                let t = splice(w, i, i + 2, &mid);
                assert(t@ == transposition(w@, i as int));
                out.push(t);
                assert(views(out@) =~= before.push(t@));
            }
        }
        let ghost changes = if i < n {
            seq![deletion(w@, i as int)] + Seq::new(26, |q: int| substitution(w@, i as int, letter(q))) + if i + 1 < n {
                seq![transposition(w@, i as int)]
            } else {
                Seq::<Seq<char>>::empty()
            }
        } else {
            Seq::<Seq<char>>::empty()
        };
        assert(views(out@) =~= start + changes);
        let mut k: usize = 0;
        while k < 26
            invariant
                n == w@.len(),
                i <= n,
                k <= 26,
                views(out@) == start + changes + Seq::new(k as nat, |q: int| insertion(w@, i as int, letter(q))),
            decreases 26 - k,
        {
            let c = letter_at(k);
            let mut mid: Vec<char> = Vec::new();
            mid.push(c);
            assert(mid@ =~= seq![c]);
            let ghost before = views(out@);
            let ins = splice(w, i, i, &mid);
            assert(ins@ == insertion(w@, i as int, letter(k as int)));
            out.push(ins);
            assert(views(out@) =~= before.push(ins@));
            k += 1;
            assert(views(out@) =~= start + changes + Seq::new(k as nat, |q: int| insertion(w@, i as int, letter(q))));
        }
        assert(edits_at(w@, i as int) =~= changes + Seq::new(26, |q: int| insertion(w@, i as int, letter(q))));
        assert(views(out@) =~= base + edits_upto(w@, i + 1));
        if i == n {
            break;
        }
        i += 1;
    }
}

fn copy_chars(v: &Vec<char>) -> (r: Vec<char>)
    ensures
        r@ == v@,
{
    let mut r: Vec<char> = Vec::new();
    let mut i: usize = 0;
    while i < v.len()
        invariant
            i <= v@.len(),
            r@ == v@.subrange(0, i as int),
        decreases v@.len() - i,
    {
        r.push(v[i]);
        i += 1;
    }
    assert(r@ =~= v@);
    r
}

/// The strings one or two edits away from `w`, in generation order.
fn build_complex_candidates(w: &Vec<char>) -> (r: Vec<Vec<char>>)
    ensures
        views(r@) == candidates(w@),
{
    let mut out: Vec<Vec<char>> = Vec::new();
    build_simple_candidates(w, &mut out);
    let ghost e1 = edits1(w@);
    assert(views(out@) =~= e1);
    let first = out.len();
    let mut j: usize = 0;
    while j < first
        invariant
            j <= first == e1.len(),
            views(out@) == e1 + expand(e1, j as int),
        decreases first - j,
    {
        assert(views(out@).len() == out@.len());
        assert(views(out@)[j as int] == e1[j as int]);
        let c = copy_chars(&out[j]);
        build_simple_candidates(&c, &mut out);
        assert(views(out@) =~= e1 + expand(e1, j + 1));
        j += 1;
    }
    out
}

/// The hash that the key index files a character sequence under.
pub open spec fn chars_hash(s: Seq<char>) -> u64
    decreases s.len(),
{
    if s.len() == 0 {
        0
    } else {
        u64_specs::wrapping_add(u64_specs::wrapping_mul(chars_hash(s.drop_last()), 31), s.last() as u32 as u64)
    }
}

fn hash_chars(v: &Vec<char>) -> (r: u64)
    ensures
        r == chars_hash(v@),
{
    let mut h: u64 = 0;
    let mut i: usize = 0;
    while i < v.len()
        invariant
            i <= v@.len(),
            h == chars_hash(v@.subrange(0, i as int)),
        decreases v@.len() - i,
    {
        assert(v@.subrange(0, i + 1).drop_last() =~= v@.subrange(0, i as int));
        h = h.wrapping_mul(31).wrapping_add(v[i] as u32 as u64);
        i += 1;
    }
    assert(v@.subrange(0, i as int) =~= v@);
    h
}

proof fn lemma_prefix_contains<T>(s: Seq<T>, j: int, x: T)
    requires
        0 <= j < s.len(),
    ensures
        s.subrange(0, j + 1).contains(x) <==> (s.subrange(0, j).contains(x) || s[j] == x),
{
    if s.subrange(0, j + 1).contains(x) {
        let k = choose|k: int| 0 <= k < j + 1 && #[trigger] s.subrange(0, j + 1)[k] == x;
        if k < j {
            assert(s.subrange(0, j)[k] == x);
        }
    }
    if s.subrange(0, j).contains(x) {
        let k = choose|k: int| 0 <= k < j && #[trigger] s.subrange(0, j)[k] == x;
        assert(s.subrange(0, j + 1)[k] == x);
    }
    if s[j] == x {
        assert(s.subrange(0, j + 1)[j] == x);
    }
}

fn copy_indices(v: &Vec<usize>) -> (r: Vec<usize>)
    ensures
        r@ == v@,
{
    let mut r: Vec<usize> = Vec::new();
    let mut i: usize = 0;
    while i < v.len()
        invariant
            i <= v@.len(),
            r@ == v@.subrange(0, i as int),
        decreases v@.len() - i,
    {
        r.push(v[i]);
        i += 1;
    }
    assert(r@ =~= v@);
    r
}

/// Spelling suggestions over a fixed set of headwords. Each key is filed
/// under a hash of its characters in a map keyed by integers, whose
/// specification lets membership of a candidate be proved.
pub struct Corrector {
    keys: Vec<String>,
    chars: Vec<Vec<char>>,
    buckets: HashMap<u64, Vec<usize>>,
}

impl View for Corrector {
    type V = Seq<Seq<char>>;

    closed spec fn view(&self) -> Seq<Seq<char>> {
        self.keys.deep_view()
    }
}

impl Corrector {
    /// Each key's characters are filed under their hash, and the index
    /// refers to keys only.
    pub closed spec fn wf(&self) -> bool {
        &&& self.chars@.len() == self.keys@.len()
        &&& forall|i: int| 0 <= i < self.keys@.len() ==> (#[trigger] self.chars@[i])@ == self.keys@[i]@
        &&& forall|i: int|
            0 <= i < self.keys@.len() ==> self.buckets@.contains_key(chars_hash((#[trigger] self.chars@[i])@))
                && self.buckets@[chars_hash(self.chars@[i]@)]@.contains(i as usize)
        &&& forall|h: u64, p: int|
            self.buckets@.contains_key(h) && 0 <= p < self.buckets@[h]@.len() ==> #[trigger] self.buckets@[h]@[p]
                < self.keys@.len()
    }

    /// A corrector over the distinct strings of `keys`, in first-seen order.
    pub fn new(keys: Vec<String>) -> (r: Corrector)
        ensures
            r.wf(),
            r@ == distinct(keys.deep_view()),
    {
        broadcast use vstd::std_specs::hash::group_hash_axioms;

        let mut unique: Vec<String> = Vec::new();
        let mut i: usize = 0;
        while i < keys.len()
            invariant
                i <= keys@.len(),
                unique.deep_view() == distinct(keys.deep_view().subrange(0, i as int)),
            decreases keys@.len() - i,
        {
            let ghost pre = keys.deep_view().subrange(0, i as int);
            assert(keys.deep_view().subrange(0, i + 1).drop_last() =~= pre);
            if !contains_string(&unique, &keys[i]) {
                let ghost uv = unique.deep_view();
                unique.push(keys[i].clone());
                assert(unique.deep_view() =~= uv.push(keys.deep_view()[i as int]));
            }
            i += 1;
        }
        assert(keys.deep_view().subrange(0, i as int) =~= keys.deep_view());
        let mut chars: Vec<Vec<char>> = Vec::new();
        let mut buckets: HashMap<u64, Vec<usize>> = HashMap::new();
        let mut k: usize = 0;
        while k < unique.len()
            invariant
                k <= unique@.len(),
                chars@.len() == k,
                forall|q: int| 0 <= q < k ==> (#[trigger] chars@[q])@ == unique@[q]@,
                forall|q: int|
                    0 <= q < k ==> buckets@.contains_key(chars_hash((#[trigger] chars@[q])@))
                        && buckets@[chars_hash(chars@[q]@)]@.contains(q as usize),
                forall|h: u64, p: int|
                    buckets@.contains_key(h) && 0 <= p < buckets@[h]@.len() ==> #[trigger] buckets@[h]@[p] < k,
            decreases unique@.len() - k,
        {
            let c = chars_of(unique[k].as_str());
            let h = hash_chars(&c);
            let mut b: Vec<usize> = match buckets.get(&h) {
                Some(old) => copy_indices(old),
                None => Vec::new(),
            };
            let ghost old_b = b@;
            assert(buckets@.contains_key(h) ==> old_b == buckets@[h]@);
            assert(!buckets@.contains_key(h) ==> old_b.len() == 0);
            b.push(k);
            let ghost old_buckets = buckets@;
            buckets.insert(h, b);
            chars.push(c);
            assert forall|q: int| 0 <= q < k + 1 implies buckets@.contains_key(chars_hash((#[trigger] chars@[q])@))
                && buckets@[chars_hash(chars@[q]@)]@.contains(q as usize) by {
                if q < k {
                    let hq = chars_hash(chars@[q]@);
                    if hq == h {
                        let w = choose|w: int| 0 <= w < old_b.len() && old_b[w] == q as usize;
                        assert(buckets@[h]@[w] == q as usize);
                    }
                } else {
                    assert(buckets@[h]@[old_b.len() as int] == k);
                }
            }
            assert forall|g: u64, p: int| buckets@.contains_key(g) && 0 <= p < buckets@[g]@.len()
                implies #[trigger] buckets@[g]@[p] < k + 1 by {
                if g == h {
                    if p < old_b.len() {
                        assert(old_buckets.contains_key(h));
                        assert(old_buckets[h]@[p] < k);
                    }
                } else {
                    assert(old_buckets.contains_key(g));
                    assert(old_buckets[g]@[p] < k);
                }
            }
            k += 1;
        }
        Corrector { keys: unique, chars, buckets }
    }

    /// Marks the keys found among `cands`.
    fn mark_hits(&self, cands: &Vec<Vec<char>>) -> (r: Vec<bool>)
        requires
            self.wf(),
        ensures
            r@.len() == self@.len(),
            forall|i: int| 0 <= i < self@.len() ==> r@[i] == views(cands@).contains(#[trigger] self@[i]),
    {
        broadcast use vstd::std_specs::hash::group_hash_axioms;

        let n = self.keys.len();
        let mut hit: Vec<bool> = Vec::new();
        let mut z: usize = 0;
        while z < n
            invariant
                z <= n,
                hit@.len() == z,
                forall|i: int| 0 <= i < z ==> !hit@[i],
            decreases n - z,
        {
            hit.push(false);
            z += 1;
        }
        let ghost cs = views(cands@);
        assert(self@.len() == n);
        let mut j: usize = 0;
        while j < cands.len()
            invariant
                self.wf(),
                n == self.keys@.len(),
                cs == views(cands@),
                j <= cands@.len(),
                hit@.len() == n,
                forall|i: int| 0 <= i < n ==> hit@[i] == cs.subrange(0, j as int).contains(#[trigger] self@[i]),
            decreases cands@.len() - j,
        {
            let c = &cands[j];
            assert(c@ == cs[j as int]);
            proof {
                assert forall|i: int| 0 <= i < n implies (cs.subrange(0, j + 1).contains(#[trigger] self@[i])
                    <==> (cs.subrange(0, j as int).contains(self@[i]) || cs[j as int] == self@[i])) by {
                    lemma_prefix_contains(cs, j as int, self@[i]);
                }
                assert forall|i: int| 0 <= i < n implies (#[trigger] self@[i]) == self.keys@[i]@ by {}
            }
            let h = hash_chars(c);
            match self.buckets.get(&h) {
                None => {
                    assert forall|i: int| 0 <= i < n implies self@[i] != c@ by {
                        assert(self.chars@[i]@ == self.keys@[i]@);
                        assert(self@[i] == self.keys@[i]@);
                    }
                },
                Some(b) => {
                    let mut t: usize = 0;
                    while t < b.len()
                        invariant
                            self.wf(),
                            n == self.keys@.len(),
                            self.buckets@.contains_key(h),
                            *b == self.buckets@[h],
                            c@ == cs[j as int],
                            t <= b@.len(),
                            hit@.len() == n,
                            forall|i: int| 0 <= i < n ==> hit@[i] == (cs.subrange(0, j as int).contains(#[trigger] self@[i])
                                || (self@[i] == c@ && b@.subrange(0, t as int).contains(i as usize))),
                        decreases b@.len() - t,
                    {
                        let idx = b[t];
                        assert(idx < n);
                        proof {
                            assert forall|i: int| 0 <= i < n implies (b@.subrange(0, t + 1).contains(#[trigger] (i as usize))
                                <==> (b@.subrange(0, t as int).contains(i as usize) || b@[t as int] == i as usize)) by {
                                lemma_prefix_contains(b@, t as int, i as usize);
                            }
                            assert(self.chars@[idx as int]@ == self.keys@[idx as int]@);
                            assert(self@[idx as int] == self.keys@[idx as int]@);
                        }
                        if same_chars(&self.chars[idx], c) {
                            hit.set(idx, true);
                        }
                        t += 1;
                        assert forall|i: int| 0 <= i < n implies hit@[i] == (cs.subrange(0, j as int).contains(#[trigger] self@[i])
                            || (self@[i] == c@ && b@.subrange(0, t as int).contains(i as usize))) by {
                            assert(b@.subrange(0, t as int).contains(i as usize) <==> (b@.subrange(0, t - 1).contains(i as usize) || b@[t - 1] == i as usize));
                        }
                    }
                    assert forall|i: int| 0 <= i < n && self@[i] == c@ implies b@.contains(#[trigger] (i as usize)) by {
                        assert(self.chars@[i]@ == self.keys@[i]@);
                        assert(self@[i] == self.keys@[i]@);
                        assert(chars_hash(self.chars@[i]@) == h);
                    }
                    assert(b@.subrange(0, t as int) =~= b@);
                },
            }
            j += 1;
        }
        assert(cs.subrange(0, j as int) =~= cs);
        hit
    }

    /// Up to ten headwords within two edits of `word`, most similar first;
    /// nothing where `word` holds anything but ASCII letters.
    pub fn correct(&self, word: &str) -> (r: Vec<String>)
        requires
            self.wf(),
        ensures
            r.deep_view() == correct_spec(self@, word@),
    {
        let w = chars_of(word);
        let mut i: usize = 0;
        while i < w.len()
            invariant
                w@ == word@,
                i <= w@.len(),
                forall|k: int| 0 <= k < i ==> is_ascii_alphabetic(#[trigger] w@[k]),
            decreases w@.len() - i,
        {
            let c = w[i];
            if !(('a' <= c && c <= 'z') || ('A' <= c && c <= 'Z')) {
                return Vec::new();
            }
            i += 1;
        }
        assert(forall|k: int| 0 <= k < w@.len() ==> is_simple_case(#[trigger] w@[k]));
        let l = lower_in(&w);
        assert(l@ == ascii_lower(word@));
        let lower = string_of(&l);
        let cands = build_complex_candidates(&l);
        let hits = self.mark_hits(&cands);
        let ghost keys = self@;
        let ghost lv = l@;
        let mut scored: Vec<(u64, String)> = Vec::new();
        let mut j: usize = 0;
        while j < self.keys.len()
            invariant
                keys == self@,
                keys == self.keys.deep_view(),
                lv == l@,
                lower@ == lv,
                hits@.len() == keys.len(),
                forall|i: int| 0 <= i < keys.len() ==> hits@[i] == candidates(lv).contains(#[trigger] keys[i]),
                j <= keys.len(),
                pairs_view(scored@) == scored_keys(reachable_keys(keys.subrange(0, j as int), lv), lv),
            decreases keys.len() - j,
        {
            let ghost pre = keys.subrange(0, j as int);
            let ghost next = keys.subrange(0, j + 1);
            assert(next.drop_last() =~= pre);
            assert(next.last() == keys[j as int]);
            let ghost sv = pairs_view(scored@);
            if hits[j] {
                let score = similarity(lower.as_str(), self.keys[j].as_str());
                scored.push((score, self.keys[j].clone()));
                assert(reachable_keys(next, lv) =~= reachable_keys(pre, lv).push(keys[j as int]));
                assert(pairs_view(scored@) =~= sv.push((score, keys[j as int])));
                assert(scored_keys(reachable_keys(next, lv), lv) =~= sv.push((score, keys[j as int])));
            } else {
                assert(reachable_keys(next, lv) =~= reachable_keys(pre, lv));
            }
            j += 1;
        }
        assert(keys.subrange(0, j as int) =~= keys);
        rank(&scored)
    }
}

/// Each key with its similarity to `l`.
pub open spec fn scored_keys(ks: Seq<Seq<char>>, l: Seq<char>) -> Seq<(u64, Seq<char>)> {
    ks.map_values(|k: Seq<char>| (similarity_of(l, k), k))
}

/// The keys of the ten best-scored pairs of `ps`, highest score first and
/// equal scores in their order.
pub open spec fn ranked(ps: Seq<(u64, Seq<char>)>) -> Seq<Seq<char>> {
    let sorted = sort_by_score(ps);
    let n = if sorted.len() < MAX_SUGGESTIONS { sorted.len() as int } else { MAX_SUGGESTIONS as int };
    sorted.subrange(0, n).map_values(|p: (u64, Seq<char>)| p.1)
}

/// The keys of the ten best-scored pairs, highest score first; equal scores
/// keep their order.
pub fn rank(scored: &Vec<(u64, String)>) -> (r: Vec<String>)
    ensures
        r.deep_view() == ranked(pairs_view(scored@)),
{
    let ghost ps = pairs_view(scored@);
    let mut sorted: Vec<(u64, String)> = Vec::new();
    let mut i: usize = 0;
    while i < scored.len()
        invariant
            i <= scored@.len(),
            ps == pairs_view(scored@),
            pairs_view(sorted@) == sort_by_score(ps.subrange(0, i as int)),
        decreases scored@.len() - i,
    {
        let ghost pre = ps.subrange(0, i as int);
        assert(ps.subrange(0, i + 1).drop_last() =~= pre);
        let ghost sv = pairs_view(sorted@);
        let score = scored[i].0;
        let ghost x = ps[i as int];
        assert(x == (score, scored@[i as int].1@));
        let mut p: usize = 0;
        while p < sorted.len() && sorted[p].0 >= score
            invariant
                sv == pairs_view(sorted@),
                x.0 == score,
                p <= sorted@.len(),
                score_position(sv, x, 0) == score_position(sv, x, p as int),
            decreases sorted@.len() - p,
        {
            assert(sv[p as int].0 == sorted@[p as int].0);
            p += 1;
        }
        proof {
            if p < sorted@.len() {
                assert(sv[p as int].0 == sorted@[p as int].0);
            }
        }
        sorted.insert(p, (score, scored[i].1.clone()));
        assert(pairs_view(sorted@) =~= sv.insert(p as int, x));
        assert(ps.subrange(0, i + 1).last() == x);
        i += 1;
    }
    assert(ps.subrange(0, i as int) =~= ps);
    let n = if sorted.len() < MAX_SUGGESTIONS { sorted.len() } else { MAX_SUGGESTIONS };
    let mut out: Vec<String> = Vec::new();
    let mut q: usize = 0;
    while q < n
        invariant
            n <= sorted@.len(),
            q <= n,
            out.deep_view() == pairs_view(sorted@).subrange(0, q as int).map_values(|p: (u64, Seq<char>)| p.1),
        decreases n - q,
    {
        let ghost before = out.deep_view();
        out.push(sorted[q].1.clone());
        assert(pairs_view(sorted@)[q as int].1 == sorted@[q as int].1@);
        assert(out.deep_view() =~= before.push(sorted@[q as int].1@));
        q += 1;
        assert(out.deep_view() =~= pairs_view(sorted@).subrange(0, q as int).map_values(|p: (u64, Seq<char>)| p.1));
    }
    out
}

pub open spec fn pairs_view(ps: Seq<(u64, String)>) -> Seq<(u64, Seq<char>)> {
    ps.map_values(|p: (u64, String)| (p.0, p.1@))
}


proof fn lemma_score_position(p: Seq<(u64, Seq<char>)>, x: (u64, Seq<char>), j: int)
    requires
        0 <= j <= p.len(),
        forall|a: int, b: int| 0 <= a < b < p.len() ==> p[a].0 >= p[b].0,
    ensures
        j <= score_position(p, x, j) <= p.len(),
        forall|k: int| j <= k < score_position(p, x, j) ==> p[k].0 >= x.0,
        score_position(p, x, j) < p.len() ==> p[score_position(p, x, j)].0 < x.0,
    decreases p.len() - j,
{
    if j < p.len() && p[j].0 >= x.0 {
        lemma_score_position(p, x, j + 1);
    }
}

/// Sorting by score orders the pairs by decreasing score and keeps exactly
/// the pairs it was given.
pub proof fn lemma_sort_by_score(ps: Seq<(u64, Seq<char>)>)
    ensures
        forall|a: int, b: int|
            0 <= a < b < sort_by_score(ps).len() ==> sort_by_score(ps)[a].0 >= sort_by_score(ps)[b].0,
        sort_by_score(ps).to_multiset() == ps.to_multiset(),
    decreases ps.len(),
{
    broadcast use vstd::seq_lib::group_to_multiset_ensures;

    if ps.len() > 0 {
        let p = sort_by_score(ps.drop_last());
        let x = ps.last();
        lemma_sort_by_score(ps.drop_last());
        let pos = score_position(p, x, 0);
        lemma_score_position(p, x, 0);
        let t = p.insert(pos, x);
        assert forall|a: int, b: int| 0 <= a < b < t.len() implies t[a].0 >= t[b].0 by {
            if b < pos {
            } else if b == pos {
                assert(t[a] == p[a]);
            } else if a < pos {
                assert(t[b] == p[b - 1]);
                assert(p[pos].0 < x.0);
                assert(p[a].0 >= x.0);
            } else if a == pos {
                assert(t[b] == p[b - 1]);
                assert(p[pos].0 < x.0);
            } else {
                assert(t[a] == p[a - 1] && t[b] == p[b - 1]);
            }
        }
        lemma_insert_multiset(p, pos, x);
        assert(ps.drop_last().push(x) =~= ps);
    }
}

} // verus!
