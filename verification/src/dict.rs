//! The dictionary collaborator: lookup of all known words that begin a text.

use vstd::prelude::*;

verus! {

/// One dictionary candidate at a text position: the word's simplified form
/// and its numbered reading.
pub struct Candidate {
    pub word: String,
    pub reading: String,
}

impl View for Candidate {
    type V = (Seq<char>, Seq<char>);

    open spec fn view(&self) -> (Seq<char>, Seq<char>) {
        (self.word@, self.reading@)
    }
}

/// The dictionary's candidates for a text: every entry whose simplified form
/// begins the text, as pairs of simplified form and numbered reading, in the
/// dictionary's lookup order (shortest form first).
pub uninterp spec fn dict_lookup(text: Seq<char>) -> Seq<(Seq<char>, Seq<char>)>;

/// Relies on `haoxue_dict::DICTIONARY.lookup_entries` (reading each entry out
/// with `DictEntry::simplified` and `DictEntry::pinyin`): the dictionary is
/// fixed data embedded in the crate; every entry it yields for a text has a
/// simplified form that is a non-empty prefix of that text; entries come in
/// nondecreasing order of their form's length, because candidates are found
/// by looking up ever longer prefixes; and every reading in the embedded
/// data renders to a non-empty string (no pinyin field is blank or a bare
/// tone number).
#[verifier::external_body]
pub(crate) fn lookup_candidates(text: &str) -> (r: Vec<Candidate>)
    ensures
        r@.map_values(|c: Candidate| c@) == dict_lookup(text@),
        forall|i: int|
            0 <= i < r@.len() ==> (#[trigger] r@[i]).word@.len() >= 1
                && r@[i].word@.is_prefix_of(text@),
        forall|i: int, j: int|
            0 <= i <= j < r@.len() ==> (#[trigger] r@[i]).word@.len() <= (
            #[trigger] r@[j]).word@.len(),
        forall|i: int|
            0 <= i < r@.len() ==> crate::pinyin::pretty_of((#[trigger] r@[i]).reading@).len() >= 1,
{
    haoxue_dict::DICTIONARY
        .lookup_entries(text)
        .map(
            |e| Candidate {
                word: e.simplified().to_string(),
                reading: e.pinyin().to_string(),
            },
        )
        .collect()
}

} // verus!
