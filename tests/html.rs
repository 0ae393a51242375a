use eitaro::{lookup, Dictionary, Storage, Text};

#[test]
fn lookup_renders_entries_as_html() {
    let mut storage = Storage::new();
    storage.define("run", vec![Text::Definition("to <run>".to_owned()), Text::Countability('C')]);
    storage.define("run", vec![Text::Word("ran".to_owned())]);
    let dic = Dictionary::new(storage);
    let html = lookup(&dic, "  run \n").unwrap();
    assert_eq!(
        html,
        "<h1 class=\"eitaro-term\">run</h1>\n<ol>\n  <li><span class=\"eitaro-definition eitaro-def-definition\">to &#60;run&#62;</span> <span class=\"eitaro-definition eitaro-def-countability\">C</span>  </li>\n  <li><span class=\"eitaro-definition eitaro-def-key\">ran</span>  </li>\n</ol>\n"
    );
}

#[test]
fn lookup_of_unknown_word_is_nothing() {
    let mut storage = Storage::new();
    storage.define("run", vec![Text::Note("n".to_owned())]);
    let dic = Dictionary::new(storage);
    assert_eq!(lookup(&dic, "walk"), None);
    assert_eq!(lookup(&dic, "   "), None);
}

#[test]
fn lookup_escapes_every_special_character() {
    let mut storage = Storage::new();
    storage.define("q", vec![Text::Note("a\"b&c'd<e>f".to_owned())]);
    let dic = Dictionary::new(storage);
    let html = lookup(&dic, "q").unwrap();
    assert!(html.contains(">a&#34;b&#38;c&#39;d&#60;e&#62;f</span>"));
}
