//! Turning text into token ids and ids back into tokens.

use vstd::prelude::*;
use crate::order::is_sorted_set_of;
use crate::splitter::{filtered_pieces, split_pieces, str_views, Splitter};
use crate::vocab::{lemma_token_of_id, lemma_vocabulary_layout, unk_token, vocabulary_of, Vocab};

verus! {

/// The ids of a list, as integers.
pub open spec fn int_views(ids: Seq<usize>) -> Seq<int> {
    ids.map_values(|i: usize| i as int)
}

/// A vocabulary together with the splitter that cuts text into its tokens.
pub struct Tokenizer {
    vocab: Vocab,
    splitter: Splitter,
}

impl Tokenizer {
    /// The vocabulary.
    pub closed spec fn vocab(&self) -> Vocab {
        self.vocab
    }

    /// The splitter's delimiters.
    pub closed spec fn delimiters(&self) -> Seq<Seq<char>> {
        self.splitter.delimiters()
    }

    /// The vocabulary is well formed, as every vocabulary is.
    pub open spec fn wf(&self) -> bool {
        self.vocab().wf()
    }

    /// The ids of the tokens of `text`.
    pub open spec fn encoding(&self, text: Seq<char>) -> Seq<int> {
        filtered_pieces(self.delimiters(), text).map_values(|t: Seq<char>| self.vocab().id_of(t))
    }

    /// The tokens with the ids `ids`.
    pub open spec fn decoding(&self, ids: Seq<int>) -> Seq<Seq<char>> {
        ids.map_values(|i: int| self.vocab().tokens()[i])
    }

    /// Builds the vocabulary of the tokens of `corpus` and keeps `splitter`
    /// for later texts.
    pub fn from_corpus(corpus: &str, splitter: Splitter) -> (t: Self)
        requires
            split_pieces(splitter.delimiters(), corpus@) is Some,
        ensures
            t.wf(),
            t.delimiters() == splitter.delimiters(),
            exists|p: Seq<Seq<char>>|
                is_sorted_set_of(p, filtered_pieces(splitter.delimiters(), corpus@))
                    && t.vocab().tokens() == vocabulary_of(p),
    {
        let vocab = Vocab::from_corpus(corpus, &splitter);
        Tokenizer { vocab, splitter }
    }

    /// The id of each token of `text`; a token outside the vocabulary gets
    /// the id of the unknown-token marker.
    pub fn encode(&self, text: &str) -> (ids: Vec<usize>)
        requires
            split_pieces(self.delimiters(), text@) is Some,
        ensures
            int_views(ids@) == self.encoding(text@),
    {
        proof {
            use_type_invariant(&self.vocab);
        }
        let pieces = self.splitter.split_filter(text);
        let ghost f = filtered_pieces(self.delimiters(), text@);
        let mut ids: Vec<usize> = Vec::new();
        let mut i: usize = 0;
        while i < pieces.len()
            invariant
                self.wf(),
                f == str_views(pieces@),
                f == filtered_pieces(self.delimiters(), text@),
                i <= pieces.len(),
                int_views(ids@) == self.encoding(text@).take(i as int),
            decreases pieces.len() - i,
        {
            let id = self.vocab.get_id(pieces[i]);
            let ghost before = ids@;
            ids.push(id);
            proof {
                assert(f[i as int] == pieces@[i as int]@);
                assert(self.encoding(text@)[i as int] == self.vocab().id_of(f[i as int]));
                assert(int_views(ids@) =~= int_views(before).push(id as int));
                assert(int_views(ids@) =~= self.encoding(text@).take(i + 1));
            }
            i = i + 1;
        }
        assert(int_views(ids@) =~= self.encoding(text@));
        ids
    }

    /// The token with each of the ids `ids`.
    pub fn decode(&self, ids: &[usize]) -> (tokens: Vec<&str>)
        requires
            forall|i: int| 0 <= i < ids@.len() ==> #[trigger] ids@[i] < self.vocab().tokens().len(),
        ensures
            str_views(tokens@) == self.decoding(int_views(ids@)),
    {
        proof {
            use_type_invariant(&self.vocab);
        }
        let mut out: Vec<&str> = Vec::new();
        let mut i: usize = 0;
        while i < ids.len()
            invariant
                forall|i: int| 0 <= i < ids@.len() ==> #[trigger] ids@[i] < self.vocab().tokens().len(),
                i <= ids@.len(),
                str_views(out@) == self.decoding(int_views(ids@)).take(i as int),
            decreases ids@.len() - i,
        {
            let id = ids[i];
            assert(id < self.vocab().tokens().len());
            match self.vocab.get_token(id) {
                Some(t) => {
                    let ghost before = out@;
                    out.push(t);
                    proof {
                        assert(self.decoding(int_views(ids@))[i as int] == self.vocab().tokens()[id as int]);
                        assert(str_views(out@) =~= str_views(before).push(t@));
                        assert(str_views(out@) =~= self.decoding(int_views(ids@)).take(i + 1));
                    }
                },
                None => {
                    assert(false);
                },
            }
            i = i + 1;
        }
        assert(str_views(out@) =~= self.decoding(int_views(ids@)));
        out
    }
}

/// What decoding gives back of an encoding: every id that `encode` yields
/// is one that `decode` accepts, and decoding the ids of a text gives back
/// its tokens, each token outside the vocabulary replaced by the
/// unknown-token marker.
pub proof fn lemma_decode_encode(t: Tokenizer, text: Seq<char>)
    requires
        t.wf(),
    ensures
        forall|i: int|
            0 <= i < t.encoding(text).len() ==> #[trigger] t.encoding(text)[i] < t.vocab().tokens().len(),
        t.decoding(t.encoding(text)) == filtered_pieces(t.delimiters(), text).map_values(
            |p: Seq<char>|
                if t.vocab().tokens().contains(p) {
                    p
                } else {
                    unk_token()
                },
        ),
{
    let f = filtered_pieces(t.delimiters(), text);
    let e = t.encoding(text);
    assert forall|i: int| 0 <= i < e.len() implies #[trigger] e[i] < t.vocab().tokens().len() by {
        lemma_token_of_id(t.vocab(), f[i]);
    }
    let expected = f.map_values(
        |p: Seq<char>|
            if t.vocab().tokens().contains(p) {
                p
            } else {
                unk_token()
            },
    );
    assert forall|i: int| 0 <= i < e.len() implies #[trigger] t.decoding(e)[i] == expected[i] by {
        lemma_token_of_id(t.vocab(), f[i]);
    }
    assert(t.decoding(e) =~= expected);
}

/// A tokenizer knows every token of the corpus it was built from: decoding
/// the ids of the corpus gives back exactly the corpus's tokens.
pub proof fn lemma_corpus_roundtrip(t: Tokenizer, corpus: Seq<char>, p: Seq<Seq<char>>)
    requires
        t.wf(),
        is_sorted_set_of(p, filtered_pieces(t.delimiters(), corpus)),
        t.vocab().tokens() == vocabulary_of(p),
    ensures
        t.decoding(t.encoding(corpus)) == filtered_pieces(t.delimiters(), corpus),
{
    let f = filtered_pieces(t.delimiters(), corpus);
    lemma_decode_encode(t, corpus);
    lemma_vocabulary_layout(p);
    assert forall|i: int| 0 <= i < f.len() implies t.vocab().tokens().contains(#[trigger] f[i]) by {
        assert(f.to_set().contains(f[i]));
        assert(p.to_set().contains(f[i]));
        let k = choose|k: int| 0 <= k < p.len() && p[k] == f[i];
        assert(vocabulary_of(p).take(p.len() as int)[k] == f[i]);
        assert(t.vocab().tokens()[k] == f[i]);
    }
    assert(t.decoding(t.encoding(corpus)) =~= f);
}

} // verus!
