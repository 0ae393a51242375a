//! Dictionary entries and the records of the alias and lemma relations.
use vstd::prelude::*;

verus! {

/// One semantically distinct fragment of a definition's text.
#[derive(Clone, Debug, PartialEq)]
pub enum Text {
    Annot(String),
    Class(String),
    Countability(char),
    Definition(String),
    Error(String),
    Etymology(String),
    Example(String),
    Information(String),
    Note(String),
    Tag(String),
    Word(String),
}

/// One definitional block: the spelling used at import, and its content.
#[derive(Clone, Debug, PartialEq)]
pub struct Definition {
    pub key: String,
    pub content: Vec<Text>,
}

/// A headword and all of its definitional blocks.
#[derive(Clone, Debug, PartialEq)]
pub struct Entry {
    pub key: String,
    pub definitions: Vec<Definition>,
}

/// An alias record: `key` is another spelling of `target`.
#[derive(Clone, Debug, PartialEq)]
pub struct Alias {
    pub id: i32,
    pub key: String,
    pub target: String,
}

/// A lemmatization record: `source` is an inflected form of `target`.
#[derive(Clone, Debug, PartialEq)]
pub struct Lemmatization {
    pub id: i32,
    pub source: String,
    pub target: String,
}

/// Counts of a built dictionary.
#[derive(Clone, Copy, Debug, PartialEq)]
pub struct Stat {
    pub aliases: usize,
    pub words: usize,
}

pub type DefinitionView = (Seq<char>, Seq<Text>);

pub type EntryView = (Seq<char>, Seq<DefinitionView>);

impl View for Definition {
    type V = DefinitionView;

    open spec fn view(&self) -> DefinitionView {
        (self.key@, self.content@)
    }
}

impl View for Entry {
    type V = EntryView;

    open spec fn view(&self) -> EntryView {
        (self.key@, self.definitions@.map_values(|d: Definition| d@))
    }
}

impl Text {
    /// A copy of this fragment.
    pub fn duplicate(&self) -> (r: Text)
        ensures
            r == *self,
    {
        match self {
            Text::Annot(s) => Text::Annot(s.clone()),
            Text::Class(s) => Text::Class(s.clone()),
            Text::Countability(c) => Text::Countability(*c),
            Text::Definition(s) => Text::Definition(s.clone()),
            Text::Error(s) => Text::Error(s.clone()),
            Text::Etymology(s) => Text::Etymology(s.clone()),
            Text::Example(s) => Text::Example(s.clone()),
            Text::Information(s) => Text::Information(s.clone()),
            Text::Note(s) => Text::Note(s.clone()),
            Text::Tag(s) => Text::Tag(s.clone()),
            Text::Word(s) => Text::Word(s.clone()),
        }
    }
}

/// The text of a fragment that full-text search looks at: that of
/// annotations, definitions, examples, information and notes.
pub open spec fn search_text(t: Text) -> Option<Seq<char>> {
    match t {
        Text::Annot(s) => Some(s@),
        Text::Definition(s) => Some(s@),
        Text::Example(s) => Some(s@),
        Text::Information(s) => Some(s@),
        Text::Note(s) => Some(s@),
        _ => None,
    }
}

impl Text {
    /// The text of this fragment that full-text search looks at, if any.
    pub fn text_for_search(&self) -> (r: Option<&str>)
        ensures
            r matches Some(s) ==> search_text(*self) == Some(s@),
            r is None ==> search_text(*self) is None,
    {
        match self {
            Text::Annot(s) | Text::Definition(s) | Text::Example(s) | Text::Information(s) | Text::Note(s) => Some(
                s.as_str(),
            ),
            Text::Class(_) | Text::Countability(_) | Text::Error(_) | Text::Etymology(_) | Text::Tag(_) | Text::Word(
                _,
            ) => None,
        }
    }
}

impl Definition {
    /// A copy of this definition.
    pub fn duplicate(&self) -> (r: Definition)
        ensures
            r@ == self@,
    {
        let mut content: Vec<Text> = Vec::new();
        let mut i: usize = 0;
        while i < self.content.len()
            invariant
                i <= self.content@.len(),
                content@ == self.content@.subrange(0, i as int),
            decreases self.content@.len() - i,
        {
            content.push(self.content[i].duplicate());
            i += 1;
        }
        assert(content@ =~= self.content@);
        Definition { key: self.key.clone(), content }
    }
}

impl Entry {
    /// A copy of this entry.
    pub fn duplicate(&self) -> (r: Entry)
        ensures
            r@ == self@,
    {
        let mut definitions: Vec<Definition> = Vec::new();
        let mut i: usize = 0;
        while i < self.definitions.len()
            invariant
                i <= self.definitions@.len(),
                definitions@.len() == i,
                forall|k: int| 0 <= k < i ==> (#[trigger] definitions@[k])@ == self.definitions@[k]@,
            decreases self.definitions@.len() - i,
        {
            definitions.push(self.definitions[i].duplicate());
            i += 1;
        }
        let r = Entry { key: self.key.clone(), definitions };
        assert(r@.1 =~= self@.1);
        r
    }
}

} // verus!
