use eitaro::{fix_word, rank, stem, uncase, Corrector, Dictionary, Entry, MergeBuffer, Storage, Text};

fn definition(text: &str) -> Vec<Text> {
    vec![Text::Definition(text.to_owned())]
}

fn keys(entries: &Option<Vec<Entry>>) -> Vec<String> {
    match entries {
        Some(es) => es.iter().map(|e| e.key.clone()).collect(),
        None => vec![],
    }
}

fn strings(v: &[&str]) -> Vec<String> {
    v.iter().map(|s| s.to_string()).collect()
}

#[test]
fn normalize_folds_width_case_and_long_vowel_mark() {
    assert_eq!(fix_word("ＲＵＮ"), Some("run".to_owned()));
    assert_eq!(fix_word("Run"), Some("run".to_owned()));
    assert_eq!(fix_word("ラーメン"), Some("ラメン".to_owned()));
    assert_eq!(fix_word("ÀB"), Some("àb".to_owned()));
    assert_eq!(fix_word(""), None);
    assert_eq!(fix_word("ー"), None);
}

#[test]
fn normalize_twice_is_normalize_once() {
    for s in ["ＲＵＮ", "Hello World", "ラーメン", "ÀB", "co-Worker"] {
        let once = fix_word(s).unwrap();
        assert_eq!(fix_word(&once), Some(once.clone()));
    }
}

#[test]
fn uncase_splits_camel_case_and_underscores() {
    assert_eq!(uncase("FooBar"), "foo bar");
    assert_eq!(uncase("foo_bar"), "foo bar");
    assert_eq!(uncase("plain"), "plain");
}

#[test]
fn stem_uses_the_suffix_table() {
    assert!(stem("running").contains(&"run".to_owned()));
    assert_eq!(stem("running"), strings(&["run", "runn"]));
    assert_eq!(stem("cat"), Vec::<String>::new());
    assert_eq!(stem("tied"), strings(&["ty", "ti", "tie"]));
    assert_eq!(stem("cats"), strings(&["cat"]));
}

#[test]
fn resolve_follows_alias_after_normalizing() {
    let mut storage = Storage::new();
    storage.define("run", definition("to move fast"));
    storage.alias("runs", "run", false);
    let dic = Dictionary::new(storage);
    let found = dic.get_smart("RUNS");
    assert_eq!(keys(&found), strings(&["run"]));
    assert_eq!(found.unwrap()[0].definitions[0].content, definition("to move fast"));
}

#[test]
fn resolve_tries_separator_variants() {
    let mut storage = Storage::new();
    storage.define("co-worker", definition("colleague"));
    let dic = Dictionary::new(storage);
    assert_eq!(keys(&dic.get_smart("co worker")), strings(&["co-worker"]));
}

#[test]
fn resolve_removes_duplicate_entries() {
    let mut storage = Storage::new();
    storage.define("co-worker", definition("colleague"));
    storage.alias("coworker", "co-worker", false);
    let dic = Dictionary::new(storage);
    assert_eq!(keys(&dic.get_smart("co worker")), strings(&["co-worker"]));
}

#[test]
fn resolve_keeps_a_direct_hit() {
    let mut storage = Storage::new();
    storage.define("cat", definition("neko"));
    storage.define("cats", definition("plural"));
    let dic = Dictionary::new(storage);
    assert_eq!(keys(&dic.get_smart("Cats")), strings(&["cats"]));
    assert_eq!(keys(&dic.get_smart("cat")), strings(&["cat"]));
}

#[test]
fn resolve_shortens_phrases() {
    let mut storage = Storage::new();
    storage.define("the cat", definition("a cat"));
    let dic = Dictionary::new(storage);
    assert_eq!(keys(&dic.get_smart("the cat of hell")), strings(&["the cat"]));
}

#[test]
fn resolve_desnakes_camel_case() {
    let mut storage = Storage::new();
    storage.define("foo bar", definition("foo"));
    let dic = Dictionary::new(storage);
    assert_eq!(keys(&dic.get_smart("FooBar")), strings(&["foo bar"]));
}

#[test]
fn resolve_falls_back_to_longest_fragment() {
    let mut storage = Storage::new();
    storage.define("worker", definition("one who works"));
    storage.define("co", definition("together"));
    let dic = Dictionary::new(storage);
    assert_eq!(keys(&dic.get_smart("xx#worker")), strings(&["worker"]));
}

#[test]
fn resolve_falls_back_to_stems() {
    let mut storage = Storage::new();
    storage.define("run", definition("to move fast"));
    let dic = Dictionary::new(storage);
    assert_eq!(keys(&dic.get_smart("running")), strings(&["run"]));
}

#[test]
fn resolve_without_result() {
    let mut storage = Storage::new();
    storage.define("run", definition("to move fast"));
    let dic = Dictionary::new(storage);
    assert!(dic.get_smart("zzz").is_none());
    assert!(dic.get_smart("").is_none());
}

#[test]
fn direct_lookup_lists_word_then_aliases() {
    let mut storage = Storage::new();
    storage.define("colour", definition("british"));
    storage.define("color", definition("american"));
    storage.alias("colour", "color", false);
    storage.alias("colour", "color", false);
    let dic = Dictionary::new(storage);
    assert_eq!(keys(&dic.get("colour")), strings(&["colour", "color"]));
    assert!(dic.get("colr").is_none());
}

#[test]
fn define_lowercases_the_headword_and_merges_definitions() {
    let mut storage = Storage::new();
    storage.define("Run", definition("first"));
    storage.define("run", definition("second"));
    assert_eq!(storage.stat().words, 1);
    let dic = Dictionary::new(storage);
    let found = dic.get("run").unwrap();
    assert_eq!(found.len(), 1);
    assert_eq!(found[0].definitions.len(), 2);
    assert_eq!(found[0].definitions[0].key, "Run");
}

#[test]
fn alias_to_itself_is_not_recorded() {
    let mut storage = Storage::new();
    storage.alias("Run", "run", false);
    assert_eq!(storage.stat().aliases, 0);
    storage.alias("runs", "run", false);
    assert_eq!(storage.stat().aliases, 1);
}

#[test]
fn lemmatize_stops_on_a_cycle() {
    let mut storage = Storage::new();
    storage.alias("a", "b", true);
    storage.alias("b", "a", true);
    let dic = Dictionary::new(storage);
    let lemma = dic.lemmatize("a");
    assert!(lemma == "a" || lemma == "b");
    assert_eq!(lemma, "b");
}

#[test]
fn lemmatize_follows_chain_and_stems() {
    let mut storage = Storage::new();
    storage.define("go", definition("move"));
    storage.alias("went", "go", true);
    storage.define("walk", definition("move on foot"));
    let dic = Dictionary::new(storage);
    assert_eq!(dic.lemmatize("went"), "go");
    assert_eq!(dic.lemmatize("walked"), "walk");
    assert_eq!(dic.lemmatize("xyzzy"), "xyzzy");
}

#[test]
fn level_falls_back_to_the_lemma() {
    let mut storage = Storage::new();
    storage.define("go", definition("move"));
    storage.alias("went", "go", true);
    storage.levelize(1, "go");
    storage.levelize(3, "go");
    let dic = Dictionary::new(storage);
    assert_eq!(dic.get_level("go"), Some(3));
    assert_eq!(dic.get_level("went"), Some(3));
    assert_eq!(dic.get_level("nothing"), None);
}

#[test]
fn corrector_rejects_non_ascii_letters() {
    let corrector = Corrector::new(strings(&["cafe", "cat"]));
    assert_eq!(corrector.correct("café"), Vec::<String>::new());
    assert_eq!(corrector.correct("c4t"), Vec::<String>::new());
}

#[test]
fn corrector_stays_within_two_edits() {
    let corrector = Corrector::new(strings(&["cat"]));
    assert_eq!(corrector.correct("cwt"), strings(&["cat"]));
    assert_eq!(corrector.correct("CWT"), strings(&["cat"]));
    assert_eq!(corrector.correct("xyz"), Vec::<String>::new());
    assert_eq!(corrector.correct("ca"), strings(&["cat"]));
}

#[test]
fn corrector_ranks_by_similarity() {
    let corrector = Corrector::new(strings(&["cut", "cart", "cat", "cat"]));
    assert_eq!(corrector.correct("cat"), strings(&["cat", "cart", "cut"]));
}

#[test]
fn corrector_returns_at_most_ten() {
    let keys: Vec<String> = "abcdefghijkl".chars().map(|c| format!("{}at", c)).collect();
    let corrector = Corrector::new(keys);
    assert_eq!(corrector.correct("zat").len(), 10);
}

#[test]
fn dictionary_corrects_with_single_word_headwords() {
    let mut storage = Storage::new();
    storage.define("cat", definition("neko"));
    storage.define("ca t", definition("spaced"));
    storage.define("c-at", definition("hyphenated"));
    let mut dic = Dictionary::new(storage);
    assert_eq!(dic.correct("cwt"), strings(&["cat"]));
    assert_eq!(dic.correct("cwt"), strings(&["cat"]));
    assert_eq!(dic.keys(), strings(&["cat", "ca t", "c-at"]));
}

#[test]
fn merge_buffer_groups_values_by_key() {
    let mut buffer = MergeBuffer::default();
    assert_eq!(buffer.insert("a", "1"), None);
    assert_eq!(buffer.insert("a", "2"), None);
    assert_eq!(buffer.insert("b", "3"), Some(("a".to_owned(), strings(&["1", "2"]))));
    assert_eq!(buffer.flush(), Some(("b".to_owned(), strings(&["3"]))));
    assert_eq!(buffer.flush(), None);
}

#[test]
fn rank_orders_by_score_and_keeps_ties_in_order() {
    let scored = vec![(1u64, "a".to_owned()), (3, "b".to_owned()), (3, "c".to_owned()), (2, "d".to_owned())];
    assert_eq!(rank(&scored), strings(&["b", "c", "d", "a"]));
    let many: Vec<(u64, String)> = (0..12u64).map(|i| (i, format!("w{}", i))).collect();
    assert_eq!(
        rank(&many),
        strings(&["w11", "w10", "w9", "w8", "w7", "w6", "w5", "w4", "w3", "w2"])
    );
    assert_eq!(rank(&vec![]), Vec::<String>::new());
}

#[test]
fn search_text_covers_prose_fragments_only() {
    assert_eq!(Text::Note("n".to_owned()).text_for_search(), Some("n"));
    assert_eq!(Text::Definition("d".to_owned()).text_for_search(), Some("d"));
    assert_eq!(Text::Tag("t".to_owned()).text_for_search(), None);
    assert_eq!(Text::Countability('C').text_for_search(), None);
}

#[test]
fn storage_lookups_report_exact_records() {
    let mut storage = Storage::new();
    storage.alias("went", "go", true);
    storage.alias("gone", "go", false);
    storage.levelize(2, "go");
    assert_eq!(storage.lookup_lemma("went"), Some("go".to_owned()));
    assert_eq!(storage.lookup_lemma("gone"), None);
    assert_eq!(storage.lookup_alias("went"), strings(&["go"]));
    assert_eq!(storage.lookup_alias("gone"), strings(&["go"]));
    assert_eq!(storage.lookup_level("go"), Some(2));
    assert_eq!(storage.lookup_level("went"), None);
    assert!(storage.lookup_entry("go").is_none());
    assert_eq!(storage.stat().aliases, 2);
}

#[test]
fn lemma_records_add_no_alias() {
    let mut storage = Storage::new();
    storage.lemma("Went", "go");
    storage.lemma("go", "GO");
    assert_eq!(storage.lookup_lemma("went"), Some("go".to_owned()));
    assert_eq!(storage.lookup_alias("went"), Vec::<String>::new());
    assert_eq!(storage.stat().aliases, 0);
    assert_eq!(storage.lookup_lemma("go"), None);
}

#[test]
fn resolve_finds_phrase_split_by_tab() {
    let mut storage = Storage::new();
    storage.define("ice", definition("frozen water"));
    let dic = Dictionary::new(storage);
    assert_eq!(keys(&dic.get_smart("ice\tcream")), strings(&["ice"]));
}

#[test]
fn resolve_desnakes_underscored_query() {
    let mut storage = Storage::new();
    storage.define("ice cream", definition("dessert"));
    let dic = Dictionary::new(storage);
    assert_eq!(keys(&dic.get_smart("ice_cream")), strings(&["ice cream"]));
    assert_eq!(keys(&dic.get_smart("IceCream")), strings(&["ice cream"]));
}
