//! Fuzzy lookup of a known text by n-gram similarity, through ngrammatic.
use vstd::prelude::*;
use ngrammatic::{Corpus, CorpusBuilder, IdentityKeyTransformer};

verus! {

/// An ngrammatic corpus of texts, compared by bigrams, with texts used as
/// they are for keys.
#[verifier::external_body]
pub struct TextIndex {
    corpus: Corpus<IdentityKeyTransformer>,
}

/// The texts an index holds.
pub uninterp spec fn index_texts(c: TextIndex) -> Set<Seq<char>>;

/// Relies on `CorpusBuilder::default().finish()`: a corpus with no texts.
#[verifier::external_body]
pub(crate) fn new_index() -> (r: TextIndex)
    ensures
        index_texts(r) == Set::<Seq<char>>::empty(),
{
    TextIndex { corpus: CorpusBuilder::default().finish() }
}

/// Relies on `Corpus::add_text`: the text is added as it is; adding it
/// again changes nothing.
#[verifier::external_body]
pub(crate) fn add_text(c: &mut TextIndex, text: &str)
    ensures
        index_texts(*final(c)) == index_texts(*old(c)).insert(text@),
{
    c.corpus.add_text(text)
}

/// A text with one space added on each side, as the corpus pads it.
pub open spec fn padded(s: Seq<char>) -> Seq<char> {
    seq![' '] + s + seq![' ']
}

/// `g` is one of the two-character windows of the padded text.
pub open spec fn has_bigram(s: Seq<char>, g: Seq<char>) -> bool {
    exists|i: int| 0 <= i && i + 2 <= padded(s).len() && #[trigger] padded(s).subrange(i, i + 2) == g
}

/// The padded texts have a two-character window in common.
pub open spec fn share_bigram(a: Seq<char>, b: Seq<char>) -> bool {
    exists|g: Seq<char>| #[trigger] has_bigram(a, g) && has_bigram(b, g)
}

/// Relies on `Corpus::search` with a zero similarity threshold and one
/// result: every text of the corpus that shares a bigram with `query` is a
/// match (similarity is never below zero), and the most similar match comes
/// first. Among equally similar texts the pick is not fixed.
#[verifier::external_body]
pub(crate) fn best_match(c: &TextIndex, query: &str) -> (r: Option<String>)
    ensures
        r matches Some(t) ==> index_texts(*c).contains(t@),
        index_texts(*c) == Set::<Seq<char>>::empty() ==> r is None,
        (exists|t: Seq<char>| #[trigger] index_texts(*c).contains(t) && share_bigram(t, query@)) ==> r is Some,
{
    c.corpus.search(query, Default::default(), 1).first().map(|m| m.text.clone())
}

/// The candidate that resembles `query` most, for suggesting a correction:
/// always one of the candidates, and one whenever there are any. When no
/// candidate shares a bigram with `query`, the first candidate is given.
pub fn closest_text(candidates: &Vec<String>, query: &str) -> (r: Option<String>)
    ensures
        r matches Some(t) ==> exists|i: int| 0 <= i < candidates@.len() && (#[trigger] candidates@[i])@ == t@,
        candidates@.len() == 0 <==> r is None,
{
    let mut index = new_index();
    let mut i: usize = 0;
    while i < candidates.len()
        invariant
            i <= candidates@.len(),
            i == 0 ==> index_texts(index) == Set::<Seq<char>>::empty(),
            forall|t: Seq<char>| #[trigger] index_texts(index).contains(t) ==> exists|j: int|
                0 <= j < i && (#[trigger] candidates@[j])@ == t,
        decreases candidates@.len() - i,
    {
        add_text(&mut index, candidates[i].as_str());
        proof {
            assert(candidates@[i as int]@ == candidates@[i as int]@);
        }
        i = i + 1;
    }
    match best_match(&index, query) {
        Some(t) => Some(t),
        None => {
            if candidates.len() == 0 {
                None
            } else {
                proof {
                    assert(candidates@[0]@ == candidates@[0]@);
                }
                Some(candidates[0].clone())
            }
        },
    }
}

} // verus!
