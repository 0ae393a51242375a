//! HTML rendering of resolved entries.
use vstd::prelude::*;
use vstd::string::*;
use crate::dictionary::{all_stored, keys_of, resolve_spec, Dictionary, DESNAKE_DEPTH};
use crate::normalize::{is_white_space, white_space};
use crate::model::{Definition, Entry, EntryView, Text};
use crate::storage::StorageModel;
use crate::text::{chars_of, string_of};

verus! {

/// A character as HTML text: each of `"`, `&`, `'`, `<` and `>` becomes its
/// decimal character reference, any other character stays.
pub open spec fn escape_char(c: char) -> Seq<char> {
    if c == '"' {
        seq!['&', '#', '3', '4', ';']
    } else if c == '&' {
        seq!['&', '#', '3', '8', ';']
    } else if c == '\'' {
        seq!['&', '#', '3', '9', ';']
    } else if c == '<' {
        seq!['&', '#', '6', '0', ';']
    } else if c == '>' {
        seq!['&', '#', '6', '2', ';']
    } else {
        seq![c]
    }
}

/// A string as HTML text, character by character.
pub open spec fn html_escaped(s: Seq<char>) -> Seq<char>
    decreases s.len(),
{
    if s.len() == 0 {
        Seq::empty()
    } else {
        html_escaped(s.drop_last()) + escape_char(s.last())
    }
}

/// Relies on `askama_escape::escape` with the `Html` escaper: it replaces
/// each of `"`, `&`, `'`, `<` and `>` by its decimal character reference and
/// keeps every other character.
#[verifier::external_body]
fn escape_html(s: &str) -> (r: String)
    ensures
        r@ == html_escaped(s@),
{
    askama_escape::escape(s, askama_escape::Html).to_string()
}

/// The class suffix of a fragment's span.
pub open spec fn text_class(t: Text) -> Seq<char> {
    match t {
        Text::Annot(_) => "annotation"@,
        Text::Class(_) => "class"@,
        Text::Countability(_) => "countability"@,
        Text::Definition(_) => "definition"@,
        Text::Error(_) => "error"@,
        Text::Etymology(_) => "etymology"@,
        Text::Example(_) => "example"@,
        Text::Information(_) => "information"@,
        Text::Note(_) => "note"@,
        Text::Tag(_) => "tag"@,
        Text::Word(_) => "key"@,
    }
}

/// The text a fragment shows.
pub open spec fn text_body(t: Text) -> Seq<char> {
    match t {
        Text::Countability(c) => seq![c],
        Text::Annot(s) => s@,
        Text::Class(s) => s@,
        Text::Definition(s) => s@,
        Text::Error(s) => s@,
        Text::Etymology(s) => s@,
        Text::Example(s) => s@,
        Text::Information(s) => s@,
        Text::Note(s) => s@,
        Text::Tag(s) => s@,
        Text::Word(s) => s@,
    }
}

pub open spec fn span(t: Text) -> Seq<char> {
    "<span class=\"eitaro-definition eitaro-def-"@ + text_class(t) + "\">"@ + html_escaped(text_body(t))
        + "</span>"@
}

/// The spans of a definition's fragments, separated by single spaces.
pub open spec fn render_content(ts: Seq<Text>) -> Seq<char>
    decreases ts.len(),
{
    if ts.len() == 0 {
        Seq::empty()
    } else {
        render_content(ts.drop_last()) + (if ts.len() > 1 { " "@ } else { Seq::empty() }) + span(ts.last())
    }
}

pub open spec fn render_definitions(ds: Seq<(Seq<char>, Seq<Text>)>) -> Seq<char>
    decreases ds.len(),
{
    if ds.len() == 0 {
        Seq::empty()
    } else {
        render_definitions(ds.drop_last()) + "  <li>"@ + render_content(ds.last().1) + "  </li>\n"@
    }
}

/// An entry as a heading and an ordered list of its definitions.
pub open spec fn render_entry(e: EntryView) -> Seq<char> {
    "<h1 class=\"eitaro-term\">"@ + html_escaped(e.0) + "</h1>\n"@ + "<ol>\n"@ + render_definitions(e.1)
        + "</ol>\n"@
}

pub open spec fn render_entries(es: Seq<EntryView>) -> Seq<char>
    decreases es.len(),
{
    if es.len() == 0 {
        Seq::empty()
    } else {
        render_entries(es.drop_last()) + render_entry(es.last())
    }
}

/// The stored entry whose headword is `k`.
pub open spec fn stored_entry(m: StorageModel, k: Seq<char>) -> EntryView {
    m.entries[choose|i: int| 0 <= i < m.entries.len() && (#[trigger] m.entries[i]).0 == k]
}

/// The first index at or after `i` that is not white space, or the length.
pub open spec fn trim_start_at(s: Seq<char>, i: int) -> int
    decreases s.len() - i,
{
    if i < 0 || i >= s.len() {
        s.len() as int
    } else if is_white_space(s[i]) {
        trim_start_at(s, i + 1)
    } else {
        i
    }
}

/// The index after the last character before `j` that is not white space, or zero.
pub open spec fn trim_end_at(s: Seq<char>, j: int) -> int
    decreases j,
{
    if j <= 0 || j > s.len() {
        0
    } else if is_white_space(s[j - 1]) {
        trim_end_at(s, j - 1)
    } else {
        j
    }
}

/// `s` without leading and trailing white space.
pub open spec fn trimmed(s: Seq<char>) -> Seq<char> {
    let a = trim_start_at(s, 0);
    let b = trim_end_at(s, s.len() as int);
    if a < b {
        s.subrange(a, b)
    } else {
        Seq::empty()
    }
}

fn trim(s: &str) -> (r: String)
    ensures
        r@ == trimmed(s@),
{
    let v = chars_of(s);
    let mut a: usize = 0;
    while a < v.len() && white_space(v[a])
        invariant
            v@ == s@,
            a <= v@.len(),
            trim_start_at(s@, 0) == trim_start_at(s@, a as int),
        decreases v@.len() - a,
    {
        a += 1;
    }
    let mut b: usize = v.len();
    while b > 0 && white_space(v[b - 1])
        invariant
            v@ == s@,
            b <= v@.len(),
            trim_end_at(s@, s@.len() as int) == trim_end_at(s@, b as int),
        decreases b,
    {
        b -= 1;
    }
    let mut out: Vec<char> = Vec::new();
    if a < b {
        let mut i = a;
        while i < b
            invariant
                a <= i <= b <= v@.len(),
                out@ == v@.subrange(a as int, i as int),
            decreases b - i,
        {
            out.push(v[i]);
            i += 1;
            assert(out@ =~= v@.subrange(a as int, i as int));
        }
    } else {
        assert(out@ =~= Seq::<char>::empty());
    }
    string_of(&out)
}

fn push_span(out: &mut String, t: &Text)
    ensures
        final(out)@ == old(out)@ + span(*t),
{
    out.append("<span class=\"eitaro-definition eitaro-def-");
    let (class, body) = match t {
        Text::Annot(s) => ("annotation", s.clone()),
        Text::Class(s) => ("class", s.clone()),
        Text::Countability(c) => {
            let v = vec![*c];
            assert(v@ =~= seq![*c]);
            ("countability", string_of(&v))
        },
        Text::Definition(s) => ("definition", s.clone()),
        Text::Error(s) => ("error", s.clone()),
        Text::Etymology(s) => ("etymology", s.clone()),
        Text::Example(s) => ("example", s.clone()),
        Text::Information(s) => ("information", s.clone()),
        Text::Note(s) => ("note", s.clone()),
        Text::Tag(s) => ("tag", s.clone()),
        Text::Word(s) => ("key", s.clone()),
    };
    assert(class@ == text_class(*t));
    assert(body@ == text_body(*t));
    out.append(class);
    out.append("\">");
    let escaped = escape_html(body.as_str());
    out.append(escaped.as_str());
    out.append("</span>");
}

fn push_entry(out: &mut String, e: &Entry)
    ensures
        final(out)@ == old(out)@ + render_entry(e@),
{
    out.append("<h1 class=\"eitaro-term\">");
    let key = escape_html(e.key.as_str());
    out.append(key.as_str());
    out.append("</h1>\n");
    out.append("<ol>\n");
    let ghost head = out@;
    let mut i: usize = 0;
    while i < e.definitions.len()
        invariant
            i <= e.definitions@.len(),
            out@ == head + render_definitions(e@.1.subrange(0, i as int)),
        decreases e.definitions@.len() - i,
    {
        let d: &Definition = &e.definitions[i];
        assert(e@.1.subrange(0, i + 1).drop_last() =~= e@.1.subrange(0, i as int));
        assert(e@.1[i as int] == d@);
        out.append("  <li>");
        let ghost li = out@;
        let mut j: usize = 0;
        while j < d.content.len()
            invariant
                j <= d.content@.len(),
                out@ == li + render_content(d.content@.subrange(0, j as int)),
            decreases d.content@.len() - j,
        {
            assert(d.content@.subrange(0, j + 1).drop_last() =~= d.content@.subrange(0, j as int));
            if j > 0 {
                out.append(" ");
            }
            push_span(out, &d.content[j]);
            j += 1;
        }
        assert(d.content@.subrange(0, j as int) =~= d.content@);
        out.append("  </li>\n");
        i += 1;
    }
    assert(e@.1.subrange(0, i as int) =~= e@.1);
    out.append("</ol>\n");
}

/// The HTML of `entries`, one heading and list after another.
pub fn render(entries: &Vec<Entry>) -> (r: String)
    ensures
        r@ == render_entries(entries@.map_values(|e: Entry| e@)),
{
    let mut out = String::new();
    let mut i: usize = 0;
    while i < entries.len()
        invariant
            i <= entries@.len(),
            out@ == render_entries(entries@.subrange(0, i as int).map_values(|e: Entry| e@)),
        decreases entries@.len() - i,
    {
        let ghost pre = entries@.subrange(0, i as int).map_values(|e: Entry| e@);
        assert(entries@.subrange(0, i + 1).map_values(|e: Entry| e@).drop_last() =~= pre);
        push_entry(&mut out, &entries[i]);
        i += 1;
    }
    assert(entries@.subrange(0, i as int) =~= entries@);
    out
}

/// Resolves `word` without its surrounding white space and renders the
/// entries found as HTML; nothing where no entry is found.
pub fn lookup(dictionary: &Dictionary, word: &str) -> (r: Option<String>)
    requires
        dictionary.wf(),
    ensures
        r is None <==> resolve_spec(dictionary@, trimmed(word@), DESNAKE_DEPTH as nat) is None,
        r matches Some(h) ==> h@ == render_entries(
            resolve_spec(dictionary@, trimmed(word@), DESNAKE_DEPTH as nat)->0.map_values(|k: Seq<char>| stored_entry(dictionary@, k)),
        ),
{
    let query = trim(word);
    match dictionary.get_smart(query.as_str()) {
        None => None,
        Some(found) => {
            proof {
                let m = dictionary@;
                dictionary.lemma_wf_model();
                let ks = keys_of(found@);
                assert(found@.map_values(|e: Entry| e@) =~= ks.map_values(|k: Seq<char>| stored_entry(m, k))) by {
                    assert forall|i: int| 0 <= i < found@.len() implies found@[i]@ == stored_entry(m, ks[i]) by {
                        assert(all_stored(m, found@));
                        assert(m.entries.contains(found@[i]@));
                        let j = choose|j: int| 0 <= j < m.entries.len() && m.entries[j] == found@[i]@;
                        assert(m.entries[j].0 == ks[i]);
                        let c = choose|c: int| 0 <= c < m.entries.len() && (#[trigger] m.entries[c]).0 == ks[i];
                        assert(c == j);
                    }
                }
            }
            Some(render(&found))
        },
    }
}

} // verus!
