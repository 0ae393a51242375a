//! Grouping of consecutive values written under the same key.
use vstd::prelude::*;

verus! {

/// A key and the values gathered for it, as a mathematical value.
pub type BatchView = (Seq<char>, Seq<Seq<char>>);

pub open spec fn batch_view(o: Option<(String, Vec<String>)>) -> Option<BatchView> {
    match o {
        Some((k, vs)) => Some((k@, vs.deep_view())),
        None => None,
    }
}

/// Values gathered for the key being written; handed out when the key
/// changes or on flush.
pub struct MergeBuffer {
    buffered: Option<String>,
    entries: Vec<String>,
}

impl View for MergeBuffer {
    type V = (Option<Seq<char>>, Seq<Seq<char>>);

    closed spec fn view(&self) -> (Option<Seq<char>>, Seq<Seq<char>>) {
        (
            match self.buffered {
                Some(k) => Some(k@),
                None => None,
            },
            self.entries.deep_view(),
        )
    }
}

impl Default for MergeBuffer {
    fn default() -> (r: MergeBuffer)
        ensures
            r@ == (None::<Seq<char>>, Seq::<Seq<char>>::empty()),
    {
        let r = MergeBuffer { buffered: None, entries: Vec::new() };
        assert(r.entries.deep_view() =~= Seq::<Seq<char>>::empty());
        r
    }
}

impl MergeBuffer {
    /// Without a key, no values are held.
    pub open spec fn wf(&self) -> bool {
        self@.0 is None ==> self@.1.len() == 0
    }

    /// Adds `value` under `key`. Where `key` differs from the key being
    /// gathered, that key and its values are handed out first.
    pub fn insert(&mut self, key: &str, value: &str) -> (r: Option<(String, Vec<String>)>)
        requires
            old(self).wf(),
        ensures
            final(self).wf(),
            old(self)@.0 == Some(key@) ==> r is None && final(self)@ == (Some(key@), old(self)@.1.push(value@)),
            old(self)@.0 != Some(key@) ==> final(self)@ == (Some(key@), seq![value@]) && batch_view(r) == match old(self)@.0 {
                Some(k) => Some((k, old(self)@.1)),
                None => None::<BatchView>,
            },
    {
        let owned = key.to_owned();
        let same = match &self.buffered {
            Some(b) => *b == owned,
            None => false,
        };
        if same {
            let ghost before = self.entries.deep_view();
            self.entries.push(value.to_owned());
            assert(self.entries.deep_view() =~= before.push(value@));
            return None;
        }
        let result = self.flush();
        self.buffered = Some(owned);
        let ghost before = self.entries.deep_view();
        self.entries.push(value.to_owned());
        assert(self.entries.deep_view() =~= before.push(value@));
        assert(self.entries.deep_view() =~= seq![value@]);
        result
    }

    /// Hands out the key being gathered and its values, leaving the buffer empty.
    pub fn flush(&mut self) -> (r: Option<(String, Vec<String>)>)
        requires
            old(self).wf(),
        ensures
            final(self).wf(),
            old(self)@.0 is Some ==> final(self)@ == (None::<Seq<char>>, Seq::<Seq<char>>::empty())
                && batch_view(r) == Some((old(self)@.0->0, old(self)@.1)),
            old(self)@.0 is None ==> r is None && final(self)@ == old(self)@,
    {
        match self.buffered.take() {
            Some(buffered) => {
                let mut result: Vec<String> = Vec::new();
                std::mem::swap(&mut self.entries, &mut result);
                assert(self.entries.deep_view() =~= Seq::<Seq<char>>::empty());
                Some((buffered, result))
            },
            None => None,
        }
    }
}

} // verus!
