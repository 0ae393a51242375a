use eitaro::{extract_patterns, scan_words, shorten, WordType};
use eitaro::WordType::{English, Katakana};

#[test]
fn test_scan_words() {
    assert_eq!(scan_words(English, "  foo キャット  bar 猫"), vec!["foo", "bar"]);
    assert_eq!(scan_words(English, "  foo キャット  bar "), vec!["foo", "bar"]);
    assert_eq!(scan_words(English, " foo、キャット・bar=猫  "), vec!["foo", "bar"]);
    assert_eq!(scan_words(English, " foo-bar "), vec!["foo-bar"]);
    assert_eq!(scan_words(English, "【変化】動 drives | driving | drove | driven"), vec!["drives", "driving", "drove", "driven"]);
    assert_eq!(scan_words(English, "【変化】動 foo bar | food bar | foolish bar"), vec!["foo bar", "food bar", "foolish bar"]);
    assert_eq!(scan_words(English, "【変化】 複 affairs、【文節】..."), vec!["affairs"]);

    assert_eq!(scan_words(Katakana, "アカムパニ、アカンパニ、アコンパニ、"), vec!["アカムパニ", "アカンパニ", "アコンパニ"]);
    assert_eq!(scan_words(Katakana, " foo-bar "), Vec::<&str>::new());

    assert_eq!(scan_words(English, " f(o)o キャット bar 猫"), vec!["fo", "foo", "bar"]);
}

fn ps(s: &str) -> Vec<String> {
    let mut result = vec![];
    extract_patterns(s, &mut result);
    result
}

#[test]
fn test_patterns() {
    assert_eq!(ps("ana(a)l nathrakh"), vec!["anal nathrakh".to_owned(), "anaal nathrakh".to_owned()]);
    assert_eq!(
        ps("ab(c)de(f)g"),
        vec![
        "abdeg".to_owned(),
        "abdefg".to_owned(),
        "abcdeg".to_owned(),
        "abcdefg".to_owned()]);
}

#[test]
fn test_shortens() {
    assert_eq!(
        shorten("the cat of hell"),
        vec![
        "the cat of hell".to_owned(),
        "the cat of".to_owned(),
        "the cat".to_owned(),
        "the".to_owned()
        ]);

    assert_eq!(
        shorten("   the cat of hell"),
        vec![
        "the cat of hell".to_owned(),
        "the cat of".to_owned(),
        "the cat".to_owned(),
        "the".to_owned()
        ]);

    assert_eq!(
        shorten(" the cat of hell    "),
        vec![
        "the cat of hell".to_owned(),
        "the cat of".to_owned(),
        "the cat".to_owned(),
        "the".to_owned()
        ]);

    assert_eq!(
        shorten(" the cat   of hell    "),
        vec![
        "the cat   of hell".to_owned(),
        "the cat   of".to_owned(),
        "the cat".to_owned(),
        "the".to_owned()
        ]);
}

#[test]
fn patterns_without_closing_parenthesis_cut_at_the_opening_one() {
    assert_eq!(ps("ab(cd"), vec!["ab"]);
    assert_eq!(ps("plain"), vec!["plain"]);
}

#[test]
fn scan_words_of_empty_text() {
    assert_eq!(scan_words(WordType::English, ""), Vec::<String>::new());
    assert_eq!(scan_words(WordType::English, "   "), Vec::<String>::new());
}

#[test]
fn shorten_of_blank_text_is_empty() {
    assert_eq!(shorten("   "), Vec::<&str>::new());
    assert_eq!(shorten(""), Vec::<&str>::new());
}

#[test]
fn shorten_cuts_at_any_white_space() {
    assert_eq!(shorten("a\tb"), vec!["a\tb", "a"]);
    assert_eq!(shorten("\u{3000}the\u{3000}cat\n"), vec!["the\u{3000}cat", "the"]);
}
