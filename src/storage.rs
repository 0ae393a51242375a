//! In-memory dictionary storage: entries by headword, and the alias, lemma
//! and level relations.
use vstd::prelude::*;
use crate::model::{Alias, Definition, Entry, EntryView, Lemmatization, Stat, Text};
use crate::text::chars_of;
use crate::normalize::{fix_word, lower_of, normalize_spec, unicode_lowercase};

verus! {

/// What a storage holds, as mathematical values.
pub ghost struct StorageModel {
    pub entries: Seq<EntryView>,
    pub aliases: Seq<(Seq<char>, Seq<char>)>,
    pub lemmas: Seq<(Seq<char>, Seq<char>)>,
    pub levels: Seq<(Seq<char>, u8)>,
}

/// Some entry has headword `k`.
pub open spec fn has_entry(m: StorageModel, k: Seq<char>) -> bool {
    exists|i: int| 0 <= i < m.entries.len() && (#[trigger] m.entries[i]).0 == k
}

/// The targets of the rows whose source is `k`, in row order.
pub open spec fn targets_of(rows: Seq<(Seq<char>, Seq<char>)>, k: Seq<char>) -> Seq<Seq<char>>
    decreases rows.len(),
{
    if rows.len() == 0 {
        Seq::empty()
    } else {
        targets_of(rows.drop_last(), k) + if rows.last().0 == k {
            seq![rows.last().1]
        } else {
            Seq::empty()
        }
    }
}

/// The value of the first row at or after `i` whose key is `k`.
pub open spec fn first_match<T>(rows: Seq<(Seq<char>, T)>, k: Seq<char>, i: int) -> Option<T>
    decreases rows.len() - i,
{
    if i < 0 || i >= rows.len() {
        None
    } else if rows[i].0 == k {
        Some(rows[i].1)
    } else {
        first_match(rows, k, i + 1)
    }
}

/// A headword usable as a correction target: no space, hyphen or apostrophe.
pub open spec fn is_single_word(k: Seq<char>) -> bool {
    !k.contains(' ') && !k.contains('-') && !k.contains('\'')
}

/// The headwords of `es` that are single words, in order.
pub open spec fn single_words(es: Seq<EntryView>) -> Seq<Seq<char>>
    decreases es.len(),
{
    if es.len() == 0 {
        Seq::empty()
    } else {
        single_words(es.drop_last()) + if is_single_word(es.last().0) {
            seq![es.last().0]
        } else {
            Seq::empty()
        }
    }
}

pub open spec fn opt_view(o: Option<String>) -> Option<Seq<char>> {
    match o {
        Some(s) => Some(s@),
        None => None,
    }
}

/// Headwords are unique, and so are the keys of levels.
pub open spec fn model_wf(m: StorageModel) -> bool {
    &&& forall|i: int, j: int|
        0 <= i < j < m.entries.len() ==> (#[trigger] m.entries[i]).0 != (#[trigger] m.entries[j]).0
    &&& forall|i: int, j: int|
        0 <= i < j < m.levels.len() ==> (#[trigger] m.levels[i]).0 != (#[trigger] m.levels[j]).0
}

/// The key-value relations that queries are resolved against.
pub struct Storage {
    entries: Vec<Entry>,
    aliases: Vec<Alias>,
    lemmatizations: Vec<Lemmatization>,
    levels: Vec<(String, u8)>,
}

impl View for Storage {
    type V = StorageModel;

    closed spec fn view(&self) -> StorageModel {
        StorageModel {
            entries: self.entries@.map_values(|e: Entry| e@),
            aliases: self.aliases@.map_values(|a: Alias| (a.key@, a.target@)),
            lemmas: self.lemmatizations@.map_values(|l: Lemmatization| (l.source@, l.target@)),
            levels: self.levels@.map_values(|l: (String, u8)| (l.0@, l.1)),
        }
    }
}

fn next_id(len: usize) -> (r: i32)
    ensures
        len < 0x7fff_ffff ==> r == len + 1,
{
    if len < 0x7fff_ffff {
        (len + 1) as i32
    } else {
        i32::MAX
    }
}

impl Storage {
    pub open spec fn wf(&self) -> bool {
        model_wf(self@)
    }

    /// An empty storage.
    pub fn new() -> (r: Storage)
        ensures
            r.wf(),
            r@.entries.len() == 0,
            r@.aliases.len() == 0,
            r@.lemmas.len() == 0,
            r@.levels.len() == 0,
    {
        Storage { entries: Vec::new(), aliases: Vec::new(), lemmatizations: Vec::new(), levels: Vec::new() }
    }

    /// Adds a definition under the lower-cased form of `key`: appended to the
    /// entry of that headword, or a new entry where there is none.
    pub fn define(&mut self, key: &str, content: Vec<Text>)
        requires
            old(self).wf(),
        ensures
            final(self).wf(),
            final(self)@.aliases == old(self)@.aliases,
            final(self)@.lemmas == old(self)@.lemmas,
            final(self)@.levels == old(self)@.levels,
            !has_entry(old(self)@, lower_of(key@)) ==> final(self)@.entries == old(self)@.entries.push(
                (lower_of(key@), seq![(key@, content@)]),
            ),
            forall|i: int|
                0 <= i < old(self)@.entries.len() && (#[trigger] old(self)@.entries[i]).0 == lower_of(key@)
                    ==> final(self)@.entries == old(self)@.entries.update(
                    i,
                    (lower_of(key@), old(self)@.entries[i].1.push((key@, content@))),
                ),
    {
        let lkey = unicode_lowercase(key);
        let def = Definition { key: key.to_owned(), content };
        let ghost dv = def@;
        let mut i: usize = 0;
        while i < self.entries.len()
            invariant
                i <= self.entries@.len(),
                self == old(self),
                old(self).wf(),
                dv == def@,
                dv == (key@, content@),
                lkey@ == lower_of(key@),
                forall|k: int| 0 <= k < i ==> (#[trigger] self@.entries[k]).0 != lkey@,
            decreases self.entries@.len() - i,
        {
            if self.entries[i].key == lkey {
                let mut e = self.entries[i].duplicate();
                let ghost olds = self@;
                assert(self.entries@[i as int].key@ == lkey@);
                assert(olds.entries[i as int] == self.entries@[i as int]@);
                let ghost before = e.definitions@;
                e.definitions.push(def);
                assert(e@.1 =~= olds.entries[i as int].1.push(dv)) by {
                    assert(e.definitions@ == before.push(def));
                    assert(before.map_values(|d: Definition| d@) == olds.entries[i as int].1);
                    assert forall|k: int| 0 <= k < before.len() implies (#[trigger] before[k])@
                        == olds.entries[i as int].1[k] by {
                        assert(before.map_values(|d: Definition| d@)[k] == before[k]@);
                    }
                }
                self.entries.set(i, e);
                proof {
                    assert(self@.entries =~= olds.entries.update(i as int, (lkey@, olds.entries[i as int].1.push(dv))));
                    assert(old(self)@.entries[i as int].0 == lower_of(key@));
                    assert forall|a: int, b: int| 0 <= a < b < self@.entries.len()
                        implies (#[trigger] self@.entries[a]).0 != (#[trigger] self@.entries[b]).0 by {
                        assert(olds.entries[a].0 != olds.entries[b].0);
                    }
                    assert forall|j: int| 0 <= j < olds.entries.len() && (#[trigger] olds.entries[j]).0 == lower_of(key@)
                        implies self@.entries == olds.entries.update(j, (lower_of(key@), olds.entries[j].1.push(dv))) by {
                        if j != i {
                            assert(olds.entries[j].0 != olds.entries[i as int].0);
                        }
                    }
                    assert(self@.aliases =~= olds.aliases);
                    assert(self@.lemmas =~= olds.lemmas);
                    assert(self@.levels =~= olds.levels);
                }
                return;
            }
            i += 1;
        }
        let ghost olds = self@;
        let mut defs: Vec<Definition> = Vec::new();
        defs.push(def);
        assert(defs@.map_values(|d: Definition| d@) =~= seq![dv]);
        self.entries.push(Entry { key: lkey, definitions: defs });
        proof {
            assert(self@.entries =~= olds.entries.push((lower_of(key@), seq![dv])));
            assert(self@.aliases =~= olds.aliases);
            assert(self@.lemmas =~= olds.lemmas);
            assert(self@.levels =~= olds.levels);
            assert forall|a: int, b: int| 0 <= a < b < self@.entries.len()
                implies (#[trigger] self@.entries[a]).0 != (#[trigger] self@.entries[b]).0 by {
                if b < olds.entries.len() {
                    assert(olds.entries[a].0 != olds.entries[b].0);
                } else {
                    assert(olds.entries[a].0 != lkey@);
                }
            }
        }
    }

    /// Records `from` as another spelling of `to`, and with `for_lemmatization`
    /// also as an inflected form of it; both are normalised first, and nothing
    /// is recorded where either is empty or the two are equal.
    pub fn alias(&mut self, from: &str, to: &str, for_lemmatization: bool)
        requires
            old(self).wf(),
        ensures
            final(self).wf(),
            final(self)@.entries == old(self)@.entries,
            final(self)@.levels == old(self)@.levels,
            ({
                let f = normalize_spec(from@);
                let t = normalize_spec(to@);
                if f is Some && t is Some && f->0 != t->0 {
                    &&& final(self)@.aliases == old(self)@.aliases.push((f->0, t->0))
                    &&& final(self)@.lemmas == if for_lemmatization {
                        old(self)@.lemmas.push((f->0, t->0))
                    } else {
                        old(self)@.lemmas
                    }
                } else {
                    &&& final(self)@.aliases == old(self)@.aliases
                    &&& final(self)@.lemmas == old(self)@.lemmas
                }
            }),
    {
        let ghost olds = self@;
        let f = fix_word(from);
        let t = fix_word(to);
        if let (Some(f), Some(t)) = (f, t) {
            if f == t {
                return;
            }
            if for_lemmatization {
                let id = next_id(self.lemmatizations.len());
                self.lemmatizations.push(Lemmatization { id, source: f.clone(), target: t.clone() });
            }
            let id = next_id(self.aliases.len());
            self.aliases.push(Alias { id, key: f, target: t });
            proof {
                assert(self@.entries =~= olds.entries);
                assert(self@.levels =~= olds.levels);
                assert(self@.aliases =~= olds.aliases.push((normalize_spec(from@)->0, normalize_spec(to@)->0)));
                if for_lemmatization {
                    assert(self@.lemmas =~= olds.lemmas.push((normalize_spec(from@)->0, normalize_spec(to@)->0)));
                } else {
                    assert(self@.lemmas =~= olds.lemmas);
                }
            }
        }
    }

    /// The entry whose headword is exactly `key`.
    pub fn lookup_entry(&self, key: &str) -> (r: Option<Entry>)
        requires
            self.wf(),
        ensures
            r is Some <==> has_entry(self@, key@),
            r matches Some(e) ==> e@.0 == key@ && self@.entries.contains(e@),
    {
        let owned = key.to_owned();
        let mut i: usize = 0;
        while i < self.entries.len()
            invariant
                i <= self.entries@.len(),
                owned@ == key@,
                forall|k: int| 0 <= k < i ==> (#[trigger] self@.entries[k]).0 != key@,
            decreases self.entries@.len() - i,
        {
            if self.entries[i].key == owned {
                let e = self.entries[i].duplicate();
                assert(self@.entries[i as int] == self.entries@[i as int]@);
                return Some(e);
            }
            i += 1;
        }
        None
    }

    /// The alias targets recorded for `key`, in record order.
    pub fn lookup_alias(&self, key: &str) -> (r: Vec<String>)
        ensures
            r.deep_view() == targets_of(self@.aliases, key@),
    {
        let owned = key.to_owned();
        let mut out: Vec<String> = Vec::new();
        let mut i: usize = 0;
        while i < self.aliases.len()
            invariant
                i <= self.aliases@.len(),
                owned@ == key@,
                out.deep_view() == targets_of(self@.aliases.subrange(0, i as int), key@),
            decreases self.aliases@.len() - i,
        {
            proof {
                assert(self@.aliases.subrange(0, i + 1).drop_last() =~= self@.aliases.subrange(0, i as int));
                assert(self@.aliases[i as int] == (self.aliases@[i as int].key@, self.aliases@[i as int].target@));
            }
            if self.aliases[i].key == owned {
                out.push(self.aliases[i].target.clone());
            }
            i += 1;
            assert(out.deep_view() =~= targets_of(self@.aliases.subrange(0, i as int), key@));
        }
        assert(self@.aliases.subrange(0, i as int) =~= self@.aliases);
        out
    }

    /// The lemma target of the first lemmatization record for `key`.
    pub fn lookup_lemma(&self, key: &str) -> (r: Option<String>)
        ensures
            opt_view(r) == first_match(self@.lemmas, key@, 0),
    {
        let owned = key.to_owned();
        let mut i: usize = 0;
        while i < self.lemmatizations.len()
            invariant
                i <= self.lemmatizations@.len(),
                owned@ == key@,
                first_match(self@.lemmas, key@, 0) == first_match(self@.lemmas, key@, i as int),
            decreases self.lemmatizations@.len() - i,
        {
            assert(self@.lemmas[i as int] == (self.lemmatizations@[i as int].source@,
                self.lemmatizations@[i as int].target@));
            if self.lemmatizations[i].source == owned {
                return Some(self.lemmatizations[i].target.clone());
            }
            i += 1;
        }
        None
    }

    /// The level recorded for `key`.
    pub fn lookup_level(&self, key: &str) -> (r: Option<u8>)
        ensures
            r == first_match(self@.levels, key@, 0),
    {
        let owned = key.to_owned();
        let mut i: usize = 0;
        while i < self.levels.len()
            invariant
                i <= self.levels@.len(),
                owned@ == key@,
                first_match(self@.levels, key@, 0) == first_match(self@.levels, key@, i as int),
            decreases self.levels@.len() - i,
        {
            assert(self@.levels[i as int] == (self.levels@[i as int].0@, self.levels@[i as int].1));
            if self.levels[i].0 == owned {
                return Some(self.levels[i].1);
            }
            i += 1;
        }
        None
    }

    /// The headwords that hold no space, hyphen or apostrophe, in entry order.
    pub fn single_word_keys(&self) -> (r: Vec<String>)
        ensures
            r.deep_view() == single_words(self@.entries),
    {
        let mut out: Vec<String> = Vec::new();
        let mut i: usize = 0;
        while i < self.entries.len()
            invariant
                i <= self.entries@.len(),
                out.deep_view() == single_words(self@.entries.subrange(0, i as int)),
            decreases self.entries@.len() - i,
        {
            proof {
                assert(self@.entries.subrange(0, i + 1).drop_last() =~= self@.entries.subrange(0, i as int));
                assert(self@.entries[i as int].0 == self.entries@[i as int].key@);
            }
            let v = chars_of(self.entries[i].key.as_str());
            let mut single = true;
            let mut j: usize = 0;
            while j < v.len()
                invariant
                    j <= v@.len(),
                    single == (forall|k: int| 0 <= k < j ==> #[trigger] v@[k] != ' ' && v@[k] != '-'
                        && v@[k] != '\''),
                decreases v@.len() - j,
            {
                if v[j] == ' ' || v[j] == '-' || v[j] == '\'' {
                    single = false;
                }
                j += 1;
            }
            proof {
                let key = v@;
                if single {
                    assert(!key.contains(' ') && !key.contains('-') && !key.contains('\''));
                } else {
                    let k = choose|k: int| 0 <= k < key.len() && !(key[k] != ' ' && key[k] != '-'
                        && key[k] != '\'');
                    assert(key.contains(key[k]));
                }
            }
            if single {
                out.push(self.entries[i].key.clone());
            }
            i += 1;
            assert(out.deep_view() =~= single_words(self@.entries.subrange(0, i as int)));
        }
        assert(self@.entries.subrange(0, i as int) =~= self@.entries);
        out
    }

    /// Every headword, in entry order.
    pub fn keys(&self) -> (r: Vec<String>)
        ensures
            r.deep_view() == self@.entries.map_values(|e: EntryView| e.0),
    {
        let mut out: Vec<String> = Vec::new();
        let mut i: usize = 0;
        while i < self.entries.len()
            invariant
                i <= self.entries@.len(),
                out.deep_view() == self@.entries.subrange(0, i as int).map_values(|e: EntryView| e.0),
            decreases self.entries@.len() - i,
        {
            let ghost before = out.deep_view();
            out.push(self.entries[i].key.clone());
            assert(self@.entries[i as int].0 == self.entries@[i as int].key@);
            assert(out.deep_view() =~= before.push(self@.entries[i as int].0));
            i += 1;
            assert(out.deep_view() =~= self@.entries.subrange(0, i as int).map_values(|e: EntryView| e.0));
        }
        assert(self@.entries.subrange(0, i as int) =~= self@.entries);
        out
    }

    /// The number of lemmatization records.
    pub fn lemma_count(&self) -> (r: usize)
        ensures
            r == self@.lemmas.len(),
    {
        self.lemmatizations.len()
    }

    /// The number of headwords and of alias records.
    pub fn stat(&self) -> (r: Stat)
        ensures
            r.words == self@.entries.len(),
            r.aliases == self@.aliases.len(),
    {
        Stat { aliases: self.aliases.len(), words: self.entries.len() }
    }

    /// Records `from` as an inflected form of `to`, without an alias record;
    /// both are normalised first, and nothing is recorded where either is
    /// empty or the two are equal.
    pub fn lemma(&mut self, from: &str, to: &str)
        requires
            old(self).wf(),
        ensures
            final(self).wf(),
            final(self)@.entries == old(self)@.entries,
            final(self)@.aliases == old(self)@.aliases,
            final(self)@.levels == old(self)@.levels,
            ({
                let f = normalize_spec(from@);
                let t = normalize_spec(to@);
                if f is Some && t is Some && f->0 != t->0 {
                    final(self)@.lemmas == old(self)@.lemmas.push((f->0, t->0))
                } else {
                    final(self)@.lemmas == old(self)@.lemmas
                }
            }),
    {
        let ghost olds = self@;
        let f = fix_word(from);
        let t = fix_word(to);
        if let (Some(f), Some(t)) = (f, t) {
            if f == t {
                return;
            }
            let id = next_id(self.lemmatizations.len());
            self.lemmatizations.push(Lemmatization { id, source: f, target: t });
            proof {
                assert(self@.entries =~= olds.entries);
                assert(self@.levels =~= olds.levels);
                assert(self@.aliases =~= olds.aliases);
                assert(self@.lemmas =~= olds.lemmas.push((normalize_spec(from@)->0, normalize_spec(to@)->0)));
            }
        }
    }

    /// Sets the level of `key`, replacing any earlier one.
    pub fn levelize(&mut self, level: u8, key: &str)
        requires
            old(self).wf(),
        ensures
            final(self).wf(),
            final(self)@.entries == old(self)@.entries,
            final(self)@.aliases == old(self)@.aliases,
            final(self)@.lemmas == old(self)@.lemmas,
            first_match(old(self)@.levels, key@, 0) is None ==> final(self)@.levels == old(self)@.levels.push(
                (key@, level),
            ),
            forall|i: int|
                0 <= i < old(self)@.levels.len() && (#[trigger] old(self)@.levels[i]).0 == key@
                    ==> final(self)@.levels == old(self)@.levels.update(i, (key@, level)),
    {
        let ghost olds = self@;
        let owned = key.to_owned();
        let mut i: usize = 0;
        while i < self.levels.len()
            invariant
                i <= self.levels@.len(),
                self == old(self),
                olds == self@,
                old(self).wf(),
                owned@ == key@,
                forall|k: int| 0 <= k < i ==> (#[trigger] self@.levels[k]).0 != key@,
                first_match(olds.levels, key@, 0) == first_match(olds.levels, key@, i as int),
            decreases self.levels@.len() - i,
        {
            if self.levels[i].0 == owned {
                self.levels.set(i, (owned, level));
                proof {
                    assert(self@.levels =~= olds.levels.update(i as int, (key@, level)));
                    assert forall|a: int, b: int| 0 <= a < b < self@.levels.len()
                        implies (#[trigger] self@.levels[a]).0 != (#[trigger] self@.levels[b]).0 by {
                        assert(olds.levels[a].0 != olds.levels[b].0);
                    }
                    assert forall|j: int| 0 <= j < olds.levels.len() && (#[trigger] olds.levels[j]).0 == key@
                        implies self@.levels == olds.levels.update(j, (key@, level)) by {
                        if j != i {
                            assert(olds.levels[j].0 != olds.levels[i as int].0);
                        }
                    }
                    assert(self@.entries =~= olds.entries);
                    assert(self@.aliases =~= olds.aliases);
                    assert(self@.lemmas =~= olds.lemmas);
                }
                return;
            }
            i += 1;
        }
        self.levels.push((owned, level));
        proof {
            assert(self@.levels =~= olds.levels.push((key@, level)));
            assert(self@.entries =~= olds.entries);
            assert(self@.aliases =~= olds.aliases);
            assert(self@.lemmas =~= olds.lemmas);
            assert forall|a: int, b: int| 0 <= a < b < self@.levels.len()
                implies (#[trigger] self@.levels[a]).0 != (#[trigger] self@.levels[b]).0 by {
                if b < olds.levels.len() {
                    assert(olds.levels[a].0 != olds.levels[b].0);
                } else {
                    assert(olds.levels[a].0 != key@);
                }
            }
        }
    }
}

} // verus!
