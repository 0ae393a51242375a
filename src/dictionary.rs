//! Multi-stage query resolution over a storage: direct lookup with alias and
//! stem fallback, separator variants, phrase prefixes, de-snaking and
//! fragments; lemmatization and levels.
use vstd::prelude::*;
use vstd::set_lib::lemma_len_subset;
use crate::correction::{correct_spec, Corrector};
use crate::model::{Entry, EntryView};
use crate::normalize::{
    ascii_lower, fix_word, fold_width, is_white_space, is_word_end, lemma_remove_absent, lowered, normalize_spec,
    LONG_VOWEL_MARK, replace_char, replace_in, shorten, shorten_spec, uncase, uncase_spec,
    word_ends, word_start,
};
use crate::stem::{apply_rule, rule_applies, stem, stem_spec, stems_upto, suffix_rule, RULE_COUNT};
use crate::storage::{first_match, has_entry, model_wf, single_words, targets_of, Storage, StorageModel};
use crate::text::{chars_of, contains_string, lemma_insert_multiset, same_chars, string_of, views};

verus! {

/// The headwords among `ks`, in order.
pub open spec fn found(m: StorageModel, ks: Seq<Seq<char>>) -> Seq<Seq<char>>
    decreases ks.len(),
{
    if ks.len() == 0 {
        Seq::empty()
    } else {
        found(m, ks.drop_last()) + if has_entry(m, ks.last()) {
            seq![ks.last()]
        } else {
            Seq::empty()
        }
    }
}

/// The first occurrence of each element of `s`, in order.
pub open spec fn distinct(s: Seq<Seq<char>>) -> Seq<Seq<char>>
    decreases s.len(),
{
    if s.len() == 0 {
        s
    } else {
        let p = distinct(s.drop_last());
        if p.contains(s.last()) {
            p
        } else {
            p.push(s.last())
        }
    }
}

/// `s` without the elements equal to `w`.
pub open spec fn without(s: Seq<Seq<char>>, w: Seq<char>) -> Seq<Seq<char>>
    decreases s.len(),
{
    if s.len() == 0 {
        s
    } else {
        without(s.drop_last(), w) + if s.last() == w {
            Seq::empty()
        } else {
            seq![s.last()]
        }
    }
}

/// The keys that a direct lookup of `w` answers with: `w` itself and its
/// distinct alias targets other than `w`, where headwords; failing those,
/// the stems of `w` that are headwords.
pub open spec fn direct_spec(m: StorageModel, w: Seq<char>) -> Seq<Seq<char>> {
    let base = found(m, seq![w] + distinct(without(targets_of(m.aliases, w), w)));
    if base.len() > 0 {
        base
    } else {
        found(m, stem_spec(w))
    }
}

pub open spec fn keys_of(es: Seq<Entry>) -> Seq<Seq<char>> {
    es.map_values(|e: Entry| e@.0)
}

/// Every entry of `es` is an entry of the storage.
pub open spec fn all_stored(m: StorageModel, es: Seq<Entry>) -> bool {
    forall|i: int| 0 <= i < es.len() ==> m.entries.contains(#[trigger] es[i]@)
}

pub open spec fn opt_keys(o: Option<Vec<Entry>>) -> Option<Seq<Seq<char>>> {
    match o {
        Some(v) => Some(keys_of(v@)),
        None => None,
    }
}

/// Lookup of each key of `ks` in turn, appending the entries found to `out`.
fn append_found(st: &Storage, ks: &Vec<String>, out: &mut Vec<Entry>)
    requires
        st.wf(),
        all_stored(st@, old(out)@),
    ensures
        keys_of(final(out)@) == keys_of(old(out)@) + found(st@, ks.deep_view()),
        all_stored(st@, final(out)@),
{
    let ghost start = keys_of(out@);
    let mut i: usize = 0;
    while i < ks.len()
        invariant
            st.wf(),
            i <= ks@.len(),
            keys_of(out@) == start + found(st@, ks.deep_view().subrange(0, i as int)),
            all_stored(st@, out@),
        decreases ks@.len() - i,
    {
        proof {
            assert(ks.deep_view().subrange(0, i + 1).drop_last() =~= ks.deep_view().subrange(0, i as int));
        }
        let ghost before = out@;
        match st.lookup_entry(ks[i].as_str()) {
            Some(e) => {
                out.push(e);
                assert(keys_of(out@) =~= keys_of(before).push(ks.deep_view()[i as int]));
            },
            None => {},
        }
        i += 1;
        assert(keys_of(out@) =~= start + found(st@, ks.deep_view().subrange(0, i as int)));
    }
    assert(ks.deep_view().subrange(0, i as int) =~= ks.deep_view());
}

/// Direct lookup: `word` as a headword, then each distinct alias target of
/// it; where neither is found, each stem of `word`.
pub fn lookup_direct(st: &Storage, word: &str) -> (r: Vec<Entry>)
    requires
        st.wf(),
    ensures
        keys_of(r@) == direct_spec(st@, word@),
        all_stored(st@, r@),
{
    let owned = word.to_owned();
    let targets = st.lookup_alias(word);
    let mut cands: Vec<String> = Vec::new();
    cands.push(word.to_owned());
    let ghost tv = targets.deep_view();
    let mut i: usize = 0;
    while i < targets.len()
        invariant
            i <= targets@.len(),
            owned@ == word@,
            tv == targets.deep_view(),
            tv == targets_of(st@.aliases, word@),
            cands.deep_view() == seq![word@] + distinct(without(tv.subrange(0, i as int), word@)),
        decreases targets@.len() - i,
    {
        let ghost wo = without(tv.subrange(0, i as int), word@);
        assert(tv.subrange(0, i + 1).drop_last() =~= tv.subrange(0, i as int));
        if targets[i] != owned {
            assert(without(tv.subrange(0, i + 1), word@) =~= wo.push(tv[i as int]));
            assert(without(tv.subrange(0, i + 1), word@).drop_last() =~= wo);
            let ghost d = distinct(wo);
            if !contains_string(&cands, &targets[i]) {
                assert(!d.contains(tv[i as int])) by {
                    if d.contains(tv[i as int]) {
                        let k = choose|k: int| 0 <= k < d.len() && d[k] == tv[i as int];
                        assert(cands.deep_view()[k + 1] == tv[i as int]);
                    }
                }
                let ghost x = without(tv.subrange(0, i + 1), word@);
                assert(x.last() == tv[i as int]);
                assert(distinct(x) == d.push(tv[i as int]));
                let ghost oldc = cands.deep_view();
                let t = targets[i].clone();
                assert(t@ == tv[i as int]);
                cands.push(t);
                assert(cands.deep_view() =~= oldc.push(tv[i as int]));
                assert(cands.deep_view() =~= seq![word@] + distinct(without(tv.subrange(0, i + 1), word@)));
            } else {
                assert(d.contains(tv[i as int])) by {
                    let k = choose|k: int| 0 <= k < cands.deep_view().len() && cands.deep_view()[k] == tv[i as int];
                    assert(k != 0);
                    assert(d[k - 1] == tv[i as int]);
                }
                let ghost x = without(tv.subrange(0, i + 1), word@);
                assert(x.last() == tv[i as int]);
                assert(distinct(x) == d);
            }
        } else {
            assert(without(tv.subrange(0, i + 1), word@) =~= wo);
        }
        i += 1;
    }
    assert(tv.subrange(0, i as int) =~= tv);
    let mut out: Vec<Entry> = Vec::new();
    append_found(st, &cands, &mut out);
    assert(keys_of(out@) =~= found(st@, cands.deep_view()));
    if out.len() == 0 {
        let stems = stem(word);
        append_found(st, &stems, &mut out);
        assert(keys_of(out@) =~= found(st@, stems.deep_view()));
    }
    out
}


/// The character replaced by the `i`-th group of separator variants.
pub open spec fn mutation_source(i: int) -> char {
    if i == 0 {
        ','
    } else if i == 1 {
        '\''
    } else if i == 2 {
        '='
    } else {
        ' '
    }
}

/// What the `j`-th variant of a group puts in its place.
pub open spec fn mutation_target(j: int) -> Seq<char> {
    if j == 0 {
        seq!['-']
    } else if j == 1 {
        seq![' ']
    } else {
        Seq::empty()
    }
}

/// The keys found for the `k`-th separator variant of `w`, where it differs from `w`.
pub open spec fn variant_hits(m: StorageModel, w: Seq<char>, k: int) -> Seq<Seq<char>> {
    let v = replace_char(w, mutation_source(k / 3), mutation_target(k % 3));
    if v != w {
        direct_spec(m, v)
    } else {
        Seq::empty()
    }
}

pub open spec fn variant_hits_upto(m: StorageModel, w: Seq<char>, n: int) -> Seq<Seq<char>>
    decreases n,
{
    if n <= 0 {
        Seq::empty()
    } else {
        variant_hits_upto(m, w, n - 1) + variant_hits(m, w, n - 1)
    }
}

/// The keys that the similarity-variant lookup of `w` answers with: the
/// direct lookup of `w`, then that of each separator variant in turn.
pub open spec fn similar_spec(m: StorageModel, w: Seq<char>) -> Seq<Seq<char>> {
    direct_spec(m, w) + variant_hits_upto(m, w, 12)
}

fn mutation_source_at(i: usize) -> (c: char)
    requires
        i < 4,
    ensures
        c == mutation_source(i as int),
{
    if i == 0 {
        ','
    } else if i == 1 {
        '\''
    } else if i == 2 {
        '='
    } else {
        ' '
    }
}

fn mutation_target_at(j: usize) -> (r: Vec<char>)
    requires
        j < 3,
    ensures
        r@ == mutation_target(j as int),
{
    let r = if j == 0 {
        vec!['-']
    } else if j == 1 {
        vec![' ']
    } else {
        Vec::new()
    };
    assert(r@ =~= mutation_target(j as int));
    r
}

/// Similarity-variant lookup: the direct lookup of `word`, followed by the
/// direct lookups of `word` with each of `,`, `'`, `=` and space replaced by
/// `-`, by a space and by nothing, where that changes it.
pub fn get_similars(st: &Storage, word: &str) -> (r: Vec<Entry>)
    requires
        st.wf(),
    ensures
        keys_of(r@) == similar_spec(st@, word@),
        all_stored(st@, r@),
{
    let w = chars_of(word);
    let mut out = lookup_direct(st, word);
    let mut fi: usize = 0;
    while fi < 4
        invariant
            st.wf(),
            w@ == word@,
            fi <= 4,
            keys_of(out@) == direct_spec(st@, word@) + variant_hits_upto(st@, word@, 3 * fi),
            all_stored(st@, out@),
        decreases 4 - fi,
    {
        let from = mutation_source_at(fi);
        let mut ti: usize = 0;
        while ti < 3
            invariant
                st.wf(),
                w@ == word@,
                fi < 4,
                ti <= 3,
                from == mutation_source(fi as int),
                keys_of(out@) == direct_spec(st@, word@) + variant_hits_upto(st@, word@, 3 * fi + ti),
                all_stored(st@, out@),
            decreases 3 - ti,
        {
            let to = mutation_target_at(ti);
            let replaced = replace_in(&w, from, &to);
            let ghost k = 3 * fi + ti;
            assert(k / 3 == fi && k % 3 == ti);
            let ghost before = out@;
            if !same_chars(&replaced, &w) {
                let s = string_of(&replaced);
                let mut more = lookup_direct(st, s.as_str());
                let ghost mv = more@;
                out.append(&mut more);
                assert(keys_of(out@) =~= keys_of(before) + keys_of(mv));
                assert forall|i: int| 0 <= i < out@.len() implies st@.entries.contains(#[trigger] out@[i]@) by {
                    if i >= before.len() {
                        assert(out@[i] == mv[i - before.len()]);
                    }
                }
            }
            assert(variant_hits_upto(st@, word@, k + 1) == variant_hits_upto(st@, word@, k) + variant_hits(st@, word@, k));
            assert(keys_of(out@) =~= direct_spec(st@, word@) + variant_hits_upto(st@, word@, k + 1));
            ti += 1;
        }
        fi += 1;
    }
    out
}

/// The first entry of each headword, in order.
fn unique_by_key(es: &Vec<Entry>, Ghost(m): Ghost<StorageModel>) -> (r: Vec<Entry>)
    requires
        all_stored(m, es@),
    ensures
        keys_of(r@) == distinct(keys_of(es@)),
        all_stored(m, r@),
{
    let mut out: Vec<Entry> = Vec::new();
    let mut seen: Vec<String> = Vec::new();
    let mut i: usize = 0;
    while i < es.len()
        invariant
            i <= es@.len(),
            all_stored(m, es@),
            all_stored(m, out@),
            keys_of(out@) == distinct(keys_of(es@.subrange(0, i as int))),
            seen.deep_view() == keys_of(out@),
        decreases es@.len() - i,
    {
        let ghost pre = keys_of(es@.subrange(0, i as int));
        assert(keys_of(es@.subrange(0, i + 1)).drop_last() =~= pre);
        assert(keys_of(es@.subrange(0, i + 1)).last() == es@[i as int]@.0);
        if !contains_string(&seen, &es[i].key) {
            let e = es[i].duplicate();
            let ghost oldk = keys_of(out@);
            seen.push(es[i].key.clone());
            out.push(e);
            assert(keys_of(out@) =~= oldk.push(es@[i as int]@.0));
            assert(seen.deep_view() =~= keys_of(out@));
        }
        i += 1;
    }
    assert(es@.subrange(0, i as int) =~= es@);
    out
}


/// The characters a query is split on in its last stage.
pub open spec fn is_delimiter(c: char) -> bool {
    c == '-' || c == '#' || c == '\'' || c == '=' || is_white_space(c)
}

/// The pieces of `s` between maximal runs of delimiters; a leading or
/// trailing run leaves an empty piece.
pub open spec fn split_delimiters(s: Seq<char>) -> Seq<Seq<char>>
    decreases s.len(),
{
    if s.len() == 0 {
        seq![Seq::empty()]
    } else {
        let p = split_delimiters(s.drop_last());
        if is_delimiter(s.last()) {
            if s.len() >= 2 && is_delimiter(s[s.len() - 2]) {
                p
            } else {
                p.push(Seq::empty())
            }
        } else {
            p.update(p.len() - 1, p.last().push(s.last()))
        }
    }
}

/// Where `x` goes in `sorted` (longest first): after every element at least
/// as long, from `j` on.
pub open spec fn insert_position(sorted: Seq<Seq<char>>, x: Seq<char>, j: int) -> int
    decreases sorted.len() - j,
{
    if j >= sorted.len() {
        sorted.len() as int
    } else if sorted[j].len() < x.len() {
        j
    } else {
        insert_position(sorted, x, j + 1)
    }
}

/// `fs` sorted by decreasing length, equal lengths kept in their order.
pub open spec fn sort_by_length(fs: Seq<Seq<char>>) -> Seq<Seq<char>>
    decreases fs.len(),
{
    if fs.len() == 0 {
        fs
    } else {
        let p = sort_by_length(fs.drop_last());
        p.insert(insert_position(p, fs.last(), 0), fs.last())
    }
}

/// The direct-lookup keys of the first of `ws`, from `i` on, that finds any.
pub open spec fn first_direct(m: StorageModel, ws: Seq<Seq<char>>, i: int) -> Seq<Seq<char>>
    decreases ws.len() - i,
{
    if i < 0 || i >= ws.len() {
        Seq::empty()
    } else if direct_spec(m, ws[i]).len() > 0 {
        direct_spec(m, ws[i])
    } else {
        first_direct(m, ws, i + 1)
    }
}

/// The similarity-variant keys of the first of `ws`, from `i` on, that finds any.
pub open spec fn first_similar(m: StorageModel, ws: Seq<Seq<char>>, i: int) -> Seq<Seq<char>>
    decreases ws.len() - i,
{
    if i < 0 || i >= ws.len() {
        Seq::empty()
    } else if similar_spec(m, ws[i]).len() > 0 {
        similar_spec(m, ws[i])
    } else {
        first_similar(m, ws, i + 1)
    }
}

/// How many times resolution may de-snake a query in turn. De-snaking is
/// meant to reach a fixed point after one step; nothing here proves that of
/// the outside case conversion, so the chain of retries is bounded.
pub const DESNAKE_DEPTH: usize = 4;

/// The keys that resolving `raw` answers with: the phrase prefixes of its
/// normal form through the similarity-variant lookup; then, where `depth`
/// allows and de-snaking changes `raw`, the de-snaked form resolved in the
/// same way with one less de-snaking step left; then the pieces between
/// delimiters, longest first, through direct lookup.
pub open spec fn resolve_spec(m: StorageModel, raw: Seq<char>, depth: nat) -> Option<Seq<Seq<char>>>
    decreases depth,
{
    match normalize_spec(raw) {
        None => None,
        Some(w) => {
            let hit = first_similar(m, shorten_spec(w), 0);
            let u = uncase_spec(raw);
            let inner = if depth > 0 && u != raw {
                resolve_spec(m, u, (depth - 1) as nat)
            } else {
                None
            };
            if hit.len() > 0 {
                Some(distinct(hit))
            } else if inner is Some {
                inner
            } else {
                let last = first_direct(m, sort_by_length(split_delimiters(w)), 0);
                if last.len() > 0 {
                    Some(distinct(last))
                } else {
                    None
                }
            }
        },
    }
}

fn is_delimiter_char(c: char) -> (r: bool)
    ensures
        r == is_delimiter(c),
{
    let u = c as u32;
    c == '-' || c == '#' || c == '\'' || c == '=' || (0x09 <= u && u <= 0x0D) || u == 0x20 || u == 0x85
        || u == 0xA0 || u == 0x1680 || (0x2000 <= u && u <= 0x200A) || u == 0x2028 || u == 0x2029
        || u == 0x202F || u == 0x205F || u == 0x3000
}

fn split_at_delimiters(s: &Vec<char>) -> (r: Vec<Vec<char>>)
    ensures
        views(r@) == split_delimiters(s@),
{
    let mut parts: Vec<Vec<char>> = Vec::new();
    let mut cur: Vec<char> = Vec::new();
    let mut prev_delim = false;
    let mut i: usize = 0;
    assert(views(parts@).push(cur@) =~= split_delimiters(s@.subrange(0, 0)));
    while i < s.len()
        invariant
            i <= s@.len(),
            views(parts@).push(cur@) == split_delimiters(s@.subrange(0, i as int)),
            prev_delim == (i > 0 && is_delimiter(s@[i - 1])),
        decreases s@.len() - i,
    {
        let ghost pre = s@.subrange(0, i as int);
        let ghost next = s@.subrange(0, i + 1);
        assert(next.drop_last() =~= pre);
        assert(next.last() == s@[i as int]);
        let c = s[i];
        let d = is_delimiter_char(c);
        if d {
            if !prev_delim {
                let ghost pv = views(parts@);
                let ghost cv = cur@;
                parts.push(cur);
                cur = Vec::new();
                assert(views(parts@) =~= pv.push(cv));
                assert(views(parts@).push(cur@) =~= split_delimiters(next));
            } else {
                assert(next[next.len() - 2] == s@[i - 1]);
            }
        } else {
            let ghost pv = views(parts@);
            let ghost cv = cur@;
            cur.push(c);
            assert(pv.push(cv).update(pv.len() as int, cv.push(c)) =~= pv.push(cur@));
        }
        prev_delim = d;
        i += 1;
    }
    assert(s@.subrange(0, i as int) =~= s@);
    let ghost pv = views(parts@);
    let ghost cv = cur@;
    parts.push(cur);
    assert(views(parts@) =~= pv.push(cv));
    parts
}

fn sort_pieces(fs: &Vec<Vec<char>>) -> (r: Vec<Vec<char>>)
    ensures
        views(r@) == sort_by_length(views(fs@)),
{
    let mut sorted: Vec<Vec<char>> = Vec::new();
    let mut i: usize = 0;
    while i < fs.len()
        invariant
            i <= fs@.len(),
            views(sorted@) == sort_by_length(views(fs@).subrange(0, i as int)),
        decreases fs@.len() - i,
    {
        let ghost pre = views(fs@).subrange(0, i as int);
        let ghost sv = views(sorted@);
        assert(views(fs@).subrange(0, i + 1).drop_last() =~= pre);
        let x = fs[i].clone();
        assert(x@ == views(fs@)[i as int]);
        let mut j: usize = 0;
        while j < sorted.len() && sorted[j].len() >= x.len()
            invariant
                j <= sorted@.len(),
                sv == views(sorted@),
                insert_position(sv, x@, 0) == insert_position(sv, x@, j as int),
            decreases sorted@.len() - j,
        {
            j += 1;
        }
        sorted.insert(j, x);
        assert(views(sorted@) =~= sv.insert(j as int, x@));
        i += 1;
    }
    assert(views(fs@).subrange(0, i as int) =~= views(fs@));
    sorted
}


fn resolve_from(st: &Storage, word: &str, depth: usize) -> (r: Option<Vec<Entry>>)
    requires
        st.wf(),
    ensures
        opt_keys(r) == resolve_spec(st@, word@, depth as nat),
        r matches Some(v) ==> all_stored(st@, v@),
    decreases depth,
{
    let fixed = match fix_word(word) {
        Some(f) => f,
        None => return None,
    };
    let cuts = shorten(fixed.as_str());
    let ghost cs = shorten_spec(fixed@);
    let mut i: usize = 0;
    while i < cuts.len()
        invariant
            st.wf(),
            i <= cuts@.len(),
            cuts@.len() == cs.len(),
            forall|k: int| 0 <= k < cuts@.len() ==> (#[trigger] cuts@[k])@ == cs[k],
            first_similar(st@, cs, 0) == first_similar(st@, cs, i as int),
            normalize_spec(word@) == Some(fixed@),
            cs == shorten_spec(fixed@),
        decreases cuts@.len() - i,
    {
        let r = get_similars(st, cuts[i]);
        assert(cuts@[i as int]@ == cs[i as int]);
        if r.len() > 0 {
            assert(first_similar(st@, cs, i as int) == similar_spec(st@, cs[i as int]));
            return Some(unique_by_key(&r, Ghost(st@)));
        }
        i += 1;
    }
    assert(first_similar(st@, cs, 0).len() == 0);
    if depth > 0 {
        let u = uncase(word);
        let uc = chars_of(u.as_str());
        let wc = chars_of(word);
        if !same_chars(&uc, &wc) {
            let inner = resolve_from(st, u.as_str(), depth - 1);
            match inner {
                Some(v) => return Some(v),
                None => {},
            }
        }
    }
    let v = chars_of(fixed.as_str());
    let pieces = sort_pieces(&split_at_delimiters(&v));
    let ghost ps = sort_by_length(split_delimiters(fixed@));
    proof {
        let u = uncase_spec(word@);
        if depth > 0 && u != word@ {
            assert(resolve_spec(st@, u, (depth - 1) as nat) is None);
        }
    }
    let mut j: usize = 0;
    while j < pieces.len()
        invariant
            st.wf(),
            j <= pieces@.len(),
            views(pieces@) == ps,
            first_direct(st@, ps, 0) == first_direct(st@, ps, j as int),
            normalize_spec(word@) == Some(fixed@),
            ps == sort_by_length(split_delimiters(fixed@)),
            first_similar(st@, shorten_spec(fixed@), 0).len() == 0,
            resolve_spec(st@, word@, depth as nat) == (if first_direct(st@, ps, 0).len() > 0 {
                Some(distinct(first_direct(st@, ps, 0)))
            } else {
                None::<Seq<Seq<char>>>
            }),
        decreases pieces@.len() - j,
    {
        let s = string_of(&pieces[j]);
        assert(s@ == ps[j as int]);
        let r = lookup_direct(st, s.as_str());
        if r.len() > 0 {
            assert(first_direct(st@, ps, j as int) == direct_spec(st@, ps[j as int]));
            return Some(unique_by_key(&r, Ghost(st@)));
        }
        j += 1;
    }
    None
}

/// The end of a lemma chain from `cur`: the value reached, and whether the
/// walk stopped on a target already visited. At most `fuel` more targets
/// are visited.
pub open spec fn lemma_walk(m: StorageModel, cur: Seq<char>, visited: Seq<Seq<char>>, fuel: nat) -> (Seq<char>, bool)
    decreases fuel,
{
    match first_match(m.lemmas, cur, 0) {
        None => (cur, false),
        Some(t) => if visited.contains(t) {
            (cur, true)
        } else if fuel == 0 {
            (cur, false)
        } else {
            lemma_walk(m, t, visited.push(t), (fuel - 1) as nat)
        },
    }
}

/// The first of `ws`, from `i` on, that is a headword.
pub open spec fn first_headword(m: StorageModel, ws: Seq<Seq<char>>, i: int) -> Option<Seq<char>>
    decreases ws.len() - i,
{
    if i < 0 || i >= ws.len() {
        None
    } else if has_entry(m, ws[i]) {
        Some(ws[i])
    } else {
        first_headword(m, ws, i + 1)
    }
}

/// The canonical form of `w`: the end of its lemma chain (unresolved where
/// the chain runs into a cycle), or else that end where it is a headword,
/// or else its first stem that is a headword, or else that end.
pub open spec fn lemmatize_spec(m: StorageModel, w: Seq<char>) -> Seq<char> {
    let (cur, cycled) = lemma_walk(m, w, seq![w], m.lemmas.len());
    if cycled || has_entry(m, cur) {
        cur
    } else {
        match first_headword(m, stem_spec(cur), 0) {
            Some(s) => s,
            None => cur,
        }
    }
}

/// The level of `w`, or failing that the level of its lemma.
pub open spec fn level_spec(m: StorageModel, w: Seq<char>) -> Option<u8> {
    match first_match(m.levels, w, 0) {
        Some(l) => Some(l),
        None => first_match(m.levels, lemmatize_spec(m, w), 0),
    }
}

fn lemmatize_in(st: &Storage, word: &str) -> (r: String)
    requires
        st.wf(),
    ensures
        r@ == lemmatize_spec(st@, word@),
{
    let mut cur = word.to_owned();
    let mut visited: Vec<String> = Vec::new();
    visited.push(word.to_owned());
    let mut fuel = st.lemma_count();
    let ghost target = lemma_walk(st@, word@, seq![word@], st@.lemmas.len());
    assert(visited.deep_view() =~= seq![word@]);
    loop
        invariant
            st.wf(),
            target == lemma_walk(st@, word@, seq![word@], st@.lemmas.len()),
            lemma_walk(st@, cur@, visited.deep_view(), fuel as nat) == target,
        ensures
            target == (cur@, false),
        decreases fuel,
    {
        match st.lookup_lemma(cur.as_str()) {
            None => break,
            Some(t) => {
                if contains_string(&visited, &t) {
                    assert(target == (cur@, true));
                    return cur;
                }
                if fuel == 0 {
                    break;
                }
                fuel -= 1;
                let ghost vv = visited.deep_view();
                visited.push(t.clone());
                assert(visited.deep_view() =~= vv.push(t@));
                cur = t;
            },
        }
    }
    if st.lookup_entry(cur.as_str()).is_some() {
        return cur;
    }
    let stems = stem(cur.as_str());
    let ghost sv = stems.deep_view();
    let mut i: usize = 0;
    while i < stems.len()
        invariant
            st.wf(),
            i <= stems@.len(),
            sv == stems.deep_view(),
            sv == stem_spec(cur@),
            target == (cur@, false),
            target == lemma_walk(st@, word@, seq![word@], st@.lemmas.len()),
            !has_entry(st@, cur@),
            first_headword(st@, sv, 0) == first_headword(st@, sv, i as int),
        decreases stems@.len() - i,
    {
        assert(stems@[i as int]@ == sv[i as int]);
        if st.lookup_entry(stems[i].as_str()).is_some() {
            return stems[i].clone();
        }
        i += 1;
    }
    cur
}

/// A dictionary over a storage, answering queries in several stages.
pub struct Dictionary {
    storage: Storage,
    corrector: Option<Corrector>,
}

impl View for Dictionary {
    type V = StorageModel;

    closed spec fn view(&self) -> StorageModel {
        self.storage@
    }
}

impl Dictionary {
    /// The storage is well formed, and a corrector once built holds its
    /// single-word headwords.
    pub closed spec fn wf(&self) -> bool {
        &&& self.storage.wf()
        &&& self.corrector matches Some(c) ==> c.wf() && c@ == distinct(single_words(self.storage@.entries))
    }

    /// Headwords of a well-formed dictionary are unique.
    pub proof fn lemma_wf_model(&self)
        requires
            self.wf(),
        ensures
            model_wf(self@),
    {
    }

    /// A dictionary over `storage`.
    pub fn new(storage: Storage) -> (r: Dictionary)
        requires
            storage.wf(),
        ensures
            r.wf(),
            r@ == storage@,
    {
        Dictionary { storage, corrector: None }
    }

    /// Every headword, in entry order.
    pub fn keys(&self) -> (r: Vec<String>)
        requires
            self.wf(),
        ensures
            r.deep_view() == self@.entries.map_values(|e: EntryView| e.0),
    {
        self.storage.keys()
    }

    /// Spelling suggestions for `word` among the single-word headwords; the
    /// corrector over them is built on first use and kept.
    pub fn correct(&mut self, word: &str) -> (r: Vec<String>)
        requires
            old(self).wf(),
        ensures
            final(self).wf(),
            final(self)@ == old(self)@,
            r.deep_view() == correct_spec(distinct(single_words(old(self)@.entries)), word@),
    {
        if self.corrector.is_none() {
            let keys = self.storage.single_word_keys();
            self.corrector = Some(Corrector::new(keys));
        }
        match &self.corrector {
            Some(c) => c.correct(word),
            None => Vec::new(),
        }
    }

    /// Direct lookup of `word`; nothing where no entry is found.
    pub fn get(&self, word: &str) -> (r: Option<Vec<Entry>>)
        requires
            self.wf(),
        ensures
            r is None <==> direct_spec(self@, word@).len() == 0,
            r matches Some(v) ==> keys_of(v@) == direct_spec(self@, word@) && all_stored(
                self@,
                v@,
            ),
    {
        let r = lookup_direct(&self.storage, word);
        if r.len() == 0 {
            None
        } else {
            Some(r)
        }
    }

    /// Resolves a raw query to the entries it most likely means. A query that
    /// de-snaking changes is retried in its de-snaked form, at most
    /// `DESNAKE_DEPTH` times in a row.
    pub fn get_smart(&self, word: &str) -> (r: Option<Vec<Entry>>)
        requires
            self.wf(),
        ensures
            opt_keys(r) == resolve_spec(self@, word@, DESNAKE_DEPTH as nat),
            r matches Some(v) ==> all_stored(self@, v@),
            r matches Some(v) ==> no_duplicates(keys_of(v@)),
    {
        proof {
            lemma_resolve_unique(self@, word@, DESNAKE_DEPTH as nat);
        }
        resolve_from(&self.storage, word, DESNAKE_DEPTH)
    }

    /// The canonical form of `word`; never fails.
    pub fn lemmatize(&self, word: &str) -> (r: String)
        requires
            self.wf(),
        ensures
            r@ == lemmatize_spec(self@, word@),
    {
        lemmatize_in(&self.storage, word)
    }

    /// The level of `word`, or failing that the level of its lemma.
    pub fn get_level(&self, word: &str) -> (r: Option<u8>)
        requires
            self.wf(),
        ensures
            r == level_spec(self@, word@),
    {
        let found = self.storage.lookup_level(word);
        if found.is_some() {
            return found;
        }
        let lemmed = lemmatize_in(&self.storage, word);
        self.storage.lookup_level(lemmed.as_str())
    }
}


/// No key occurs twice in `ks`.
pub open spec fn no_duplicates(ks: Seq<Seq<char>>) -> bool {
    forall|i: int, j: int| 0 <= i < j < ks.len() ==> ks[i] != ks[j]
}

proof fn lemma_distinct_unique(s: Seq<Seq<char>>)
    ensures
        no_duplicates(distinct(s)),
    decreases s.len(),
{
    if s.len() > 0 {
        lemma_distinct_unique(s.drop_last());
        let p = distinct(s.drop_last());
        if !p.contains(s.last()) {
            assert forall|i: int, j: int| 0 <= i < j < p.push(s.last()).len() implies p.push(s.last())[i]
                != p.push(s.last())[j] by {
                if j == p.len() {
                    assert(p.contains(p[i]));
                }
            }
        }
    }
}

proof fn lemma_distinct_keeps(s: Seq<Seq<char>>, x: Seq<char>)
    requires
        s.contains(x),
    ensures
        distinct(s).contains(x),
    decreases s.len(),
{
    let p = distinct(s.drop_last());
    if s.last() == x {
        if !p.contains(x) {
            assert(p.push(x)[p.len() as int] == x);
        }
    } else {
        let k = choose|k: int| 0 <= k < s.len() && s[k] == x;
        assert(s.drop_last()[k] == x);
        lemma_distinct_keeps(s.drop_last(), x);
        if !p.contains(s.last()) {
            let q = choose|q: int| 0 <= q < p.len() && p[q] == x;
            assert(p.push(s.last())[q] == x);
        }
    }
}

proof fn lemma_found_append(m: StorageModel, a: Seq<Seq<char>>, b: Seq<Seq<char>>)
    ensures
        found(m, a + b) == found(m, a) + found(m, b),
    decreases b.len(),
{
    if b.len() == 0 {
        assert(a + b =~= a);
        assert(found(m, a) + found(m, b) =~= found(m, a));
    } else {
        assert((a + b).drop_last() =~= a + b.drop_last());
        assert((a + b).last() == b.last());
        lemma_found_append(m, a, b.drop_last());
        assert(found(m, a + b) =~= found(m, a) + found(m, b));
    }
}

proof fn lemma_last_word_end_first(s: Seq<char>, lo: int)
    requires
        0 <= lo < s.len(),
        is_word_end(s, s.len() as int),
    ensures
        word_ends(s, lo, s.len() as int).len() > 0,
        word_ends(s, lo, s.len() as int)[0] == s.len(),
    decreases s.len() - lo,
{
    let n = s.len() as int;
    if lo + 1 == n {
        assert(word_ends(s, lo + 1, n).len() == 0);
    } else {
        lemma_last_word_end_first(s, lo + 1);
    }
}

/// Whenever the normal form of a query (with no leading or trailing white space)
/// is itself a headword, resolving the query answers with that headword's
/// entry among others.
pub proof fn lemma_resolve_keeps_direct_hit(m: StorageModel, raw: Seq<char>, depth: nat)
    requires
        normalize_spec(raw) is Some,
        has_entry(m, normalize_spec(raw)->0),
        !is_white_space(normalize_spec(raw)->0[0]),
        !is_white_space(normalize_spec(raw)->0.last()),
    ensures
        resolve_spec(m, raw, depth) is Some,
        resolve_spec(m, raw, depth)->0.contains(normalize_spec(raw)->0),
{
    let w = normalize_spec(raw)->0;
    let n = w.len() as int;
    assert(is_word_end(w, n));
    lemma_last_word_end_first(w, 0);
    assert(word_start(w, 0) == 0);
    let cs = shorten_spec(w);
    assert(cs[0] =~= w);
    let d = distinct(without(targets_of(m.aliases, w), w));
    lemma_found_append(m, seq![w], d);
    assert(seq![w].drop_last() =~= Seq::<Seq<char>>::empty());
    assert(seq![w].last() == w);
    assert(found(m, Seq::<Seq<char>>::empty()) == Seq::<Seq<char>>::empty());
    assert(found(m, seq![w]) == found(m, seq![w].drop_last()) + seq![w]);
    assert(found(m, seq![w]) =~= seq![w]);
    let base = found(m, seq![w] + d);
    assert(base[0] == w);
    let sim = similar_spec(m, w);
    assert(sim[0] == w);
    assert(sim.contains(w));
    assert(first_similar(m, cs, 0) == sim);
    lemma_distinct_keeps(sim, w);
}

/// Resolution answers with at most one entry per headword.
pub proof fn lemma_resolve_unique(m: StorageModel, raw: Seq<char>, depth: nat)
    ensures
        resolve_spec(m, raw, depth) matches Some(ks) ==> no_duplicates(ks),
    decreases depth,
{
    if let Some(w) = normalize_spec(raw) {
        lemma_distinct_unique(first_similar(m, shorten_spec(w), 0));
        lemma_distinct_unique(first_direct(m, sort_by_length(split_delimiters(w)), 0));
        if depth > 0 {
            lemma_resolve_unique(m, uncase_spec(raw), (depth - 1) as nat);
        }
    }
}

/// On a lemma cycle `a -> b -> a`, lemmatizing `a` stops, at `a` or `b`.
pub proof fn lemma_lemmatize_cycle(m: StorageModel, a: Seq<char>, b: Seq<char>)
    requires
        a != b,
        first_match(m.lemmas, a, 0) == Some(b),
        first_match(m.lemmas, b, 0) == Some(a),
    ensures
        lemmatize_spec(m, a) == a || lemmatize_spec(m, a) == b,
{
    assert(m.lemmas.len() > 0);
    let v = seq![a];
    assert(!v.contains(b)) by {
        if v.contains(b) {
            let k = choose|k: int| 0 <= k < v.len() && v[k] == b;
            assert(v[k] == a);
        }
    }
    assert(v.push(b)[0] == a);
    assert(v.push(b).contains(a));
    assert(lemma_walk(m, b, v.push(b), (m.lemmas.len() - 1) as nat) == (b, true));
    assert(lemma_walk(m, a, v, m.lemmas.len()) == (b, true));
}


proof fn lemma_first_match_is_target(rows: Seq<(Seq<char>, Seq<char>)>, k: Seq<char>, i: int)
    requires
        first_match(rows, k, i) is Some,
    ensures
        rows.map_values(|r: (Seq<char>, Seq<char>)| r.1).contains(first_match(rows, k, i)->0),
    decreases rows.len() - i,
{
    let ts = rows.map_values(|r: (Seq<char>, Seq<char>)| r.1);
    if rows[i].0 == k {
        assert(ts[i] == rows[i].1);
    } else {
        lemma_first_match_is_target(rows, k, i + 1);
    }
}

proof fn lemma_walk_complete(m: StorageModel, cur: Seq<char>, visited: Seq<Seq<char>>, fuel: nat)
    requires
        visited.len() >= 1,
        visited.no_duplicates(),
        forall|q: int| 1 <= q < visited.len() ==> m.lemmas.map_values(|r: (Seq<char>, Seq<char>)| r.1).contains(
            #[trigger] visited[q],
        ),
        visited.len() - 1 + fuel == m.lemmas.len(),
    ensures
        !lemma_walk(m, cur, visited, fuel).1 ==> first_match(m.lemmas, lemma_walk(m, cur, visited, fuel).0, 0) is None,
    decreases fuel,
{
    let ts = m.lemmas.map_values(|r: (Seq<char>, Seq<char>)| r.1);
    if let Some(t) = first_match(m.lemmas, cur, 0) {
        if !visited.contains(t) {
            lemma_first_match_is_target(m.lemmas, cur, 0);
            let grown = visited.push(t);
            assert(grown.no_duplicates()) by {
                assert forall|a: int, b: int| 0 <= a < b < grown.len() implies grown[a] != grown[b] by {
                    if b == visited.len() {
                        assert(visited.contains(visited[a]));
                    }
                }
            }
            if fuel == 0 {
                let tail = grown.subrange(1, grown.len() as int);
                assert(tail.no_duplicates());
                tail.unique_seq_to_set();
                assert(tail.to_set().subset_of(ts.to_set())) by {
                    assert forall|x: Seq<char>| tail.to_set().contains(x) implies ts.to_set().contains(x) by {
                        let q = choose|q: int| 0 <= q < tail.len() && tail[q] == x;
                        assert(grown[q + 1] == x);
                        if q + 1 < visited.len() {
                            assert(ts.contains(visited[q + 1]));
                        }
                    }
                }
                lemma_len_subset(tail.to_set(), ts.to_set());
                ts.lemma_cardinality_of_set();
                assert(false);
            } else {
                lemma_walk_complete(m, t, grown, (fuel - 1) as nat);
            }
        }
    }
}

/// The lemma walk never stops for want of steps: where it does not end on a
/// cycle, it ends at a value that has no lemma target.
pub proof fn lemma_lemma_walk_completes(m: StorageModel, w: Seq<char>)
    ensures
        !lemma_walk(m, w, seq![w], m.lemmas.len()).1 ==> first_match(
            m.lemmas,
            lemma_walk(m, w, seq![w], m.lemmas.len()).0,
            0,
        ) is None,
{
    lemma_walk_complete(m, w, seq![w], m.lemmas.len());
}


proof fn lemma_insert_position(p: Seq<Seq<char>>, x: Seq<char>, j: int)
    requires
        0 <= j <= p.len(),
        forall|a: int, b: int| 0 <= a < b < p.len() ==> p[a].len() >= p[b].len(),
    ensures
        j <= insert_position(p, x, j) <= p.len(),
        forall|k: int| j <= k < insert_position(p, x, j) ==> p[k].len() >= x.len(),
        insert_position(p, x, j) < p.len() ==> p[insert_position(p, x, j)].len() < x.len(),
    decreases p.len() - j,
{
    if j < p.len() && p[j].len() >= x.len() {
        lemma_insert_position(p, x, j + 1);
    }
}

/// Sorting by length orders the pieces by decreasing length and keeps
/// exactly the pieces it was given.
pub proof fn lemma_sort_by_length(fs: Seq<Seq<char>>)
    ensures
        forall|a: int, b: int|
            0 <= a < b < sort_by_length(fs).len() ==> sort_by_length(fs)[a].len() >= sort_by_length(fs)[b].len(),
        sort_by_length(fs).to_multiset() == fs.to_multiset(),
    decreases fs.len(),
{
    broadcast use vstd::seq_lib::group_to_multiset_ensures;

    if fs.len() > 0 {
        let p = sort_by_length(fs.drop_last());
        let x = fs.last();
        lemma_sort_by_length(fs.drop_last());
        let pos = insert_position(p, x, 0);
        lemma_insert_position(p, x, 0);
        let t = p.insert(pos, x);
        assert forall|a: int, b: int| 0 <= a < b < t.len() implies t[a].len() >= t[b].len() by {
            if b < pos {
            } else if b == pos {
                assert(t[a] == p[a]);
            } else if a < pos {
                assert(t[b] == p[b - 1]);
                assert(p[pos].len() < x.len());
                assert(p[a].len() >= x.len());
            } else if a == pos {
                assert(t[b] == p[b - 1]);
                assert(p[pos].len() < x.len());
            } else {
                assert(t[a] == p[a - 1] && t[b] == p[b - 1]);
            }
        }
        lemma_insert_multiset(p, pos, x);
        assert(fs.drop_last().push(x) =~= fs);
    }
}


proof fn lemma_replace_absent(s: Seq<char>, c: char, to: Seq<char>)
    requires
        !s.contains(c),
    ensures
        replace_char(s, c, to) == s,
    decreases s.len(),
{
    if s.len() > 0 {
        assert(!s.drop_last().contains(c)) by {
            if s.drop_last().contains(c) {
                let j = choose|j: int| 0 <= j < s.drop_last().len() && s.drop_last()[j] == c;
                assert(s[j] == c);
            }
        }
        lemma_replace_absent(s.drop_last(), c, to);
        assert(s[s.len() - 1] == s.last());
        assert(s.drop_last().push(s.last()) =~= s);
    }
}

proof fn lemma_no_variant_hits(m: StorageModel, w: Seq<char>, n: int)
    requires
        0 <= n <= 12,
        !w.contains(','),
        !w.contains('\''),
        !w.contains('='),
        !w.contains(' '),
    ensures
        variant_hits_upto(m, w, n) == Seq::<Seq<char>>::empty(),
    decreases n,
{
    if n > 0 {
        lemma_no_variant_hits(m, w, n - 1);
        let k = n - 1;
        lemma_replace_absent(w, mutation_source(k / 3), mutation_target(k % 3));
        assert(variant_hits_upto(m, w, n) =~= Seq::<Seq<char>>::empty());
    }
}

/// A query in capitals whose lower-case form is an alias of a headword
/// resolves to that headword alone: with `run` a headword, `runs` none,
/// and the one alias record `runs -> run`, resolving `RUNS` answers `run`.
pub proof fn lemma_resolve_alias_of_capitals(m: StorageModel, depth: nat)
    requires
        has_entry(m, seq!['r', 'u', 'n']),
        !has_entry(m, seq!['r', 'u', 'n', 's']),
        m.aliases == seq![(seq!['r', 'u', 'n', 's'], seq!['r', 'u', 'n'])],
    ensures
        resolve_spec(m, seq!['R', 'U', 'N', 'S'], depth) == Some(seq![seq!['r', 'u', 'n']]),
{
    let raw = seq!['R', 'U', 'N', 'S'];
    let w = seq!['r', 'u', 'n', 's'];
    let run = seq!['r', 'u', 'n'];
    assert(fold_width(raw) =~= raw);
    assert(lowered(raw) == ascii_lower(raw));
    assert(ascii_lower(raw) =~= w);
    assert(!w.contains(LONG_VOWEL_MARK)) by {
        if w.contains(LONG_VOWEL_MARK) {
            let j = choose|j: int| 0 <= j < w.len() && w[j] == LONG_VOWEL_MARK;
        }
    }
    lemma_remove_absent(w, LONG_VOWEL_MARK);
    assert(normalize_spec(raw) == Some(w));
    assert(!w.contains(',') && !w.contains('\'') && !w.contains('=') && !w.contains(' ')) by {
        if w.contains(',') || w.contains('\'') || w.contains('=') || w.contains(' ') {
            let j = choose|j: int| 0 <= j < w.len() && (w[j] == ',' || w[j] == '\'' || w[j] == '=' || w[j] == ' ');
        }
    }
    lemma_no_variant_hits(m, w, 12);
    // the alias targets of `runs`
    assert(m.aliases.drop_last() =~= Seq::<(Seq<char>, Seq<char>)>::empty());
    assert(m.aliases.last() == (w, run));
    assert(targets_of(m.aliases.drop_last(), w) == Seq::<Seq<char>>::empty());
    assert(targets_of(m.aliases, w) =~= seq![run]);
    assert(seq![run].drop_last() =~= Seq::<Seq<char>>::empty());
    assert(run.len() != w.len());
    assert(run != w);
    assert(seq![run].last() == run);
    assert(without(Seq::<Seq<char>>::empty(), w) == Seq::<Seq<char>>::empty());
    assert(without(seq![run], w) =~= seq![run]);
    assert(distinct(Seq::<Seq<char>>::empty()) == Seq::<Seq<char>>::empty());
    assert(!Seq::<Seq<char>>::empty().contains(run));
    assert(distinct(seq![run]) =~= seq![run]);
    lemma_found_append(m, seq![w], seq![run]);
    assert(seq![w].drop_last() =~= Seq::<Seq<char>>::empty());
    assert(seq![w].last() == w);
    assert(found(m, Seq::<Seq<char>>::empty()) == Seq::<Seq<char>>::empty());
    assert(found(m, seq![w]) =~= Seq::<Seq<char>>::empty());
    assert(found(m, seq![run]) =~= seq![run]);
    assert(direct_spec(m, w) =~= seq![run]);
    assert(similar_spec(m, w) =~= seq![run]);
    // the only phrase prefix is `runs` itself
    assert(word_ends(w, 4, 4) =~= Seq::<int>::empty());
    assert(!is_word_end(w, 3) && !is_word_end(w, 2) && !is_word_end(w, 1));
    assert(word_ends(w, 3, 4) =~= seq![4int]);
    assert(word_ends(w, 2, 4) =~= seq![4int]);
    assert(word_ends(w, 1, 4) =~= seq![4int]);
    assert(word_ends(w, 0, 4) =~= seq![4int]);
    assert(word_start(w, 0) == 0);
    assert(w.subrange(0, 4) =~= w);
    assert(shorten_spec(w).len() == 1);
    assert(shorten_spec(w)[0] == w.subrange(word_start(w, 0), 4));
    assert(shorten_spec(w) =~= seq![w]);
    assert(first_similar(m, seq![w], 0) == seq![run]);
    assert(distinct(seq![run]) =~= seq![run]);
}


proof fn lemma_replace_single(s: Seq<char>, c: char, d: char)
    ensures
        replace_char(s, c, seq![d]) =~= s.map_values(|x: char| if x == c { d } else { x }),
    decreases s.len(),
{
    if s.len() > 0 {
        lemma_replace_single(s.drop_last(), c, d);
        assert(s.drop_last().map_values(|x: char| if x == c { d } else { x }).push(if s.last() == c { d } else { s.last() })
            =~= s.map_values(|x: char| if x == c { d } else { x }));
    }
}

proof fn lemma_replace_concat(s: Seq<char>, t: Seq<char>, c: char, to: Seq<char>)
    ensures
        replace_char(s + t, c, to) == replace_char(s, c, to) + replace_char(t, c, to),
    decreases t.len(),
{
    if t.len() == 0 {
        assert(s + t =~= s);
        assert(replace_char(s, c, to) + replace_char(t, c, to) =~= replace_char(s, c, to));
    } else {
        assert((s + t).drop_last() =~= s + t.drop_last());
        assert((s + t).last() == t.last());
        lemma_replace_concat(s, t.drop_last(), c, to);
        assert(replace_char(s + t, c, to) =~= replace_char(s, c, to) + replace_char(t, c, to));
    }
}

proof fn lemma_stems_keep_out(w: Seq<char>, n: int, c: char)
    requires
        !w.contains(c),
        c != 'y' && c != 'n' && c != 'e',
        n <= RULE_COUNT,
    ensures
        forall|i: int| 0 <= i < stems_upto(w, n).len() ==> !(#[trigger] stems_upto(w, n)[i]).contains(c),
    decreases n,
{
    if n > 0 {
        lemma_stems_keep_out(w, n - 1, c);
        let k = n - 1;
        if rule_applies(w, k) {
            let x = apply_rule(w, k);
            let (suffix, to) = suffix_rule(k);
            assert(!to.contains(c)) by {
                if to.contains(c) {
                    let j = choose|j: int| 0 <= j < to.len() && to[j] == c;
                }
            }
            assert(!x.contains(c)) by {
                if x.contains(c) {
                    let j = choose|j: int| 0 <= j < x.len() && x[j] == c;
                    let keep = w.len() - suffix.len();
                    if j < keep {
                        assert(w[j] == c);
                    } else {
                        assert(to[j - keep] == c);
                    }
                }
            }
            let p = stems_upto(w, n - 1);
            assert(stems_upto(w, n) == p + seq![x]);
            assert forall|i: int| 0 <= i < stems_upto(w, n).len() implies !(#[trigger] stems_upto(w, n)[i]).contains(c) by {
                if i < p.len() {
                    assert(stems_upto(w, n)[i] == p[i]);
                }
            }
        } else {
            assert(stems_upto(w, n) =~= stems_upto(w, n - 1));
        }
    }
}

proof fn lemma_found_none(m: StorageModel, ks: Seq<Seq<char>>)
    requires
        forall|i: int| 0 <= i < ks.len() ==> !has_entry(m, #[trigger] ks[i]),
    ensures
        found(m, ks) == Seq::<Seq<char>>::empty(),
    decreases ks.len(),
{
    if ks.len() > 0 {
        assert(!has_entry(m, ks[ks.len() - 1]));
        assert forall|i: int| 0 <= i < ks.drop_last().len() implies !has_entry(m, #[trigger] ks.drop_last()[i]) by {
            assert(ks.drop_last()[i] == ks[i]);
        }
        lemma_found_none(m, ks.drop_last());
        assert(found(m, ks) =~= Seq::<Seq<char>>::empty());
    }
}

/// With `co-worker` the only headword and no alias records, the direct
/// lookup of a word without hyphens finds nothing.
proof fn lemma_direct_misses_unhyphenated(m: StorageModel, w: Seq<char>)
    requires
        m.entries.len() == 1,
        m.entries[0].0 == seq!['c', 'o', '-', 'w', 'o', 'r', 'k', 'e', 'r'],
        m.aliases.len() == 0,
        !w.contains('-'),
    ensures
        direct_spec(m, w) == Seq::<Seq<char>>::empty(),
{
    let cw = seq!['c', 'o', '-', 'w', 'o', 'r', 'k', 'e', 'r'];
    assert(cw.contains('-')) by {
        assert(cw[2] == '-');
    }
    assert forall|x: Seq<char>| !x.contains('-') implies !has_entry(m, x) by {
        if has_entry(m, x) {
            let i = choose|i: int| 0 <= i < m.entries.len() && (#[trigger] m.entries[i]).0 == x;
            assert(i == 0);
        }
    }
    assert(targets_of(m.aliases, w) == Seq::<Seq<char>>::empty());
    assert(without(Seq::<Seq<char>>::empty(), w) == Seq::<Seq<char>>::empty());
    assert(distinct(Seq::<Seq<char>>::empty()) == Seq::<Seq<char>>::empty());
    assert(seq![w] + Seq::<Seq<char>>::empty() =~= seq![w]);
    lemma_found_none(m, seq![w]);
    lemma_stems_keep_out(w, RULE_COUNT as int, '-');
    lemma_found_none(m, stem_spec(w));
}

/// With `co-worker` the only headword and no alias records, the
/// similarity-variant lookup of `co worker` answers `co-worker` alone: the
/// direct lookup misses and only the space-to-hyphen variant hits.
pub proof fn lemma_similar_finds_hyphenated(m: StorageModel)
    requires
        m.entries.len() == 1,
        m.entries[0].0 == seq!['c', 'o', '-', 'w', 'o', 'r', 'k', 'e', 'r'],
        m.aliases.len() == 0,
    ensures
        similar_spec(m, seq!['c', 'o', ' ', 'w', 'o', 'r', 'k', 'e', 'r']) == seq![
            seq!['c', 'o', '-', 'w', 'o', 'r', 'k', 'e', 'r'],
        ],
{
    let w = seq!['c', 'o', ' ', 'w', 'o', 'r', 'k', 'e', 'r'];
    let cw = seq!['c', 'o', '-', 'w', 'o', 'r', 'k', 'e', 'r'];
    let joined = seq!['c', 'o', 'w', 'o', 'r', 'k', 'e', 'r'];
    let head = seq!['c', 'o'];
    let tail = seq!['w', 'o', 'r', 'k', 'e', 'r'];
    assert(w =~= head + seq![' '] + tail);
    assert(!w.contains('-')) by {
        if w.contains('-') {
            let j = choose|j: int| 0 <= j < w.len() && w[j] == '-';
        }
    }
    assert(!joined.contains('-')) by {
        if joined.contains('-') {
            let j = choose|j: int| 0 <= j < joined.len() && joined[j] == '-';
        }
    }
    assert(!w.contains(',') && !w.contains('\'') && !w.contains('=')) by {
        if w.contains(',') || w.contains('\'') || w.contains('=') {
            let j = choose|j: int| 0 <= j < w.len() && (w[j] == ',' || w[j] == '\'' || w[j] == '=');
        }
    }
    assert(!head.contains(' ') && !tail.contains(' ')) by {
        if head.contains(' ') {
            let j = choose|j: int| 0 <= j < head.len() && head[j] == ' ';
        }
        if tail.contains(' ') {
            let j = choose|j: int| 0 <= j < tail.len() && tail[j] == ' ';
        }
    }
    lemma_direct_misses_unhyphenated(m, w);
    lemma_direct_misses_unhyphenated(m, joined);
    // the hyphen variant
    lemma_replace_single(w, ' ', '-');
    assert(replace_char(w, ' ', seq!['-']) =~= cw);
    assert(direct_spec(m, cw) =~= seq![cw]) by {
        assert(has_entry(m, cw)) by {
            assert(m.entries[0].0 == cw);
        }
        assert(targets_of(m.aliases, cw) == Seq::<Seq<char>>::empty());
        assert(without(Seq::<Seq<char>>::empty(), cw) == Seq::<Seq<char>>::empty());
        assert(distinct(Seq::<Seq<char>>::empty()) == Seq::<Seq<char>>::empty());
        assert(seq![cw] + Seq::<Seq<char>>::empty() =~= seq![cw]);
        assert(seq![cw].drop_last() =~= Seq::<Seq<char>>::empty());
        assert(found(m, Seq::<Seq<char>>::empty()) == Seq::<Seq<char>>::empty());
        assert(found(m, seq![cw]) =~= seq![cw]);
    }
    // the space variant leaves the word as it is
    lemma_replace_single(w, ' ', ' ');
    assert(replace_char(w, ' ', seq![' ']) =~= w);
    // the joined variant
    lemma_replace_concat(head + seq![' '], tail, ' ', Seq::empty());
    lemma_replace_concat(head, seq![' '], ' ', Seq::empty());
    lemma_replace_absent(head, ' ', Seq::empty());
    lemma_replace_absent(tail, ' ', Seq::empty());
    assert(seq![' '].drop_last() =~= Seq::<char>::empty());
    assert(replace_char(Seq::<char>::empty(), ' ', Seq::<char>::empty()) == Seq::<char>::empty());
    assert(replace_char(seq![' '], ' ', Seq::empty()) =~= Seq::<char>::empty());
    assert(replace_char(w, ' ', Seq::empty()) =~= joined);
    assert(joined != w) by {
        assert(joined.len() != w.len());
    }
    // the other separators are absent
    lemma_replace_absent(w, ',', seq!['-']);
    lemma_replace_absent(w, ',', seq![' ']);
    lemma_replace_absent(w, ',', Seq::empty());
    lemma_replace_absent(w, '\'', seq!['-']);
    lemma_replace_absent(w, '\'', seq![' ']);
    lemma_replace_absent(w, '\'', Seq::empty());
    lemma_replace_absent(w, '=', seq!['-']);
    lemma_replace_absent(w, '=', seq![' ']);
    lemma_replace_absent(w, '=', Seq::empty());
    assert(variant_hits(m, w, 0) == Seq::<Seq<char>>::empty());
    assert(variant_hits(m, w, 1) == Seq::<Seq<char>>::empty());
    assert(variant_hits(m, w, 2) == Seq::<Seq<char>>::empty());
    assert(variant_hits(m, w, 3) == Seq::<Seq<char>>::empty());
    assert(variant_hits(m, w, 4) == Seq::<Seq<char>>::empty());
    assert(variant_hits(m, w, 5) == Seq::<Seq<char>>::empty());
    assert(variant_hits(m, w, 6) == Seq::<Seq<char>>::empty());
    assert(variant_hits(m, w, 7) == Seq::<Seq<char>>::empty());
    assert(variant_hits(m, w, 8) == Seq::<Seq<char>>::empty());
    assert(cw != w) by {
        assert(cw[2] != w[2]);
    }
    assert(variant_hits(m, w, 9) == seq![cw]);
    assert(variant_hits(m, w, 10) == Seq::<Seq<char>>::empty());
    assert(variant_hits(m, w, 11) == Seq::<Seq<char>>::empty());
    assert(variant_hits_upto(m, w, 9) =~= Seq::<Seq<char>>::empty()) by {
        reveal_with_fuel(variant_hits_upto, 10);
    }
    assert(variant_hits_upto(m, w, 10) =~= seq![cw]);
    assert(variant_hits_upto(m, w, 11) =~= seq![cw]);
    assert(variant_hits_upto(m, w, 12) =~= seq![cw]);
    assert(similar_spec(m, w) =~= seq![cw]);
}

/// With `co-worker` the only headword and no alias records, resolving
/// `co worker` answers `co-worker` alone.
pub proof fn lemma_resolve_finds_hyphenated(m: StorageModel, depth: nat)
    requires
        m.entries.len() == 1,
        m.entries[0].0 == seq!['c', 'o', '-', 'w', 'o', 'r', 'k', 'e', 'r'],
        m.aliases.len() == 0,
    ensures
        resolve_spec(m, seq!['c', 'o', ' ', 'w', 'o', 'r', 'k', 'e', 'r'], depth) == Some(
            seq![seq!['c', 'o', '-', 'w', 'o', 'r', 'k', 'e', 'r']],
        ),
{
    let w = seq!['c', 'o', ' ', 'w', 'o', 'r', 'k', 'e', 'r'];
    let cw = seq!['c', 'o', '-', 'w', 'o', 'r', 'k', 'e', 'r'];
    assert(fold_width(w) =~= w);
    assert(lowered(w) == ascii_lower(w));
    assert(ascii_lower(w) =~= w);
    assert(!w.contains(LONG_VOWEL_MARK)) by {
        if w.contains(LONG_VOWEL_MARK) {
            let j = choose|j: int| 0 <= j < w.len() && w[j] == LONG_VOWEL_MARK;
        }
    }
    lemma_remove_absent(w, LONG_VOWEL_MARK);
    assert(normalize_spec(w) == Some(w));
    lemma_similar_finds_hyphenated(m);
    assert(is_word_end(w, 9));
    lemma_last_word_end_first(w, 0);
    assert(word_start(w, 0) == 0);
    let cs = shorten_spec(w);
    assert(cs[0] =~= w);
    assert(first_similar(m, cs, 0) == seq![cw]);
    assert(distinct(Seq::<Seq<char>>::empty()) == Seq::<Seq<char>>::empty());
    assert(seq![cw].drop_last() =~= Seq::<Seq<char>>::empty());
    assert(distinct(seq![cw]) =~= seq![cw]);
}

} // verus!
