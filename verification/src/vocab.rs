//! The vocabulary: the distinct tokens of a corpus in ascending order, then
//! the end-of-text and unknown-token markers, each with its position as id.

use vstd::prelude::*;
use indexmap::IndexSet;
use crate::external::{
    index_set_get_index, index_set_get_index_of, index_set_insert, index_set_items, index_set_new,
    sorted_strings, unique_strings,
};
use crate::order::{
    first_occurrences, is_sorted_set_of, lemma_first_occurrences_distinct,
    lemma_first_occurrences_of_distinct, lemma_first_occurrences_to_set,
    lemma_sorted_distinct_strictly, lemma_strictly_sorted_distinct, strictly_sorted,
};
use crate::splitter::{filtered_pieces, split_pieces, str_views, string_views, Splitter};

verus! {

broadcast use vstd::seq_lib::group_to_multiset_ensures;

/// The marker token appended for the end of a text.
pub open spec fn eot_token() -> Seq<char> {
    "<|endoftext|>"@
}

/// The marker token that stands for any token outside the vocabulary.
pub open spec fn unk_token() -> Seq<char> {
    "<|unk|>"@
}

/// The tokens of the vocabulary built on the sorted distinct tokens `p`:
/// `p`, then each marker that is not already among them.
pub open spec fn vocabulary_of(p: Seq<Seq<char>>) -> Seq<Seq<char>> {
    first_occurrences(p + seq![eot_token(), unk_token()])
}

/// The distinct tokens of `tokens`, each once, in ascending order.
pub fn sorted_distinct_tokens(tokens: Vec<&str>) -> (out: Vec<String>)
    ensures
        is_sorted_set_of(string_views(out@), str_views(tokens@)),
{
    let mut owned: Vec<String> = Vec::new();
    let mut i: usize = 0;
    while i < tokens.len()
        invariant
            i <= tokens.len(),
            string_views(owned@) == str_views(tokens@).take(i as int),
        decreases tokens.len() - i,
    {
        let t: String = tokens[i].to_owned();
        let ghost before = owned@;
        owned.push(t);
        proof {
            assert(string_views(owned@) =~= string_views(before).push(t@));
            assert(str_views(tokens@).take(i + 1) =~= str_views(tokens@).take(i as int).push(
                tokens@[i as int]@,
            ));
        }
        i = i + 1;
    }
    assert(str_views(tokens@).take(tokens.len() as int) =~= str_views(tokens@));
    let ghost ts = str_views(tokens@);

    let unique = unique_strings(owned);
    let ghost uv = string_views(unique@);
    let sorted = sorted_strings(unique);
    let ghost sv = string_views(sorted@);
    proof {
        lemma_first_occurrences_distinct(ts);
        lemma_first_occurrences_to_set(ts);
        uv.lemma_multiset_has_no_duplicates();
        assert forall|x: Seq<char>| sv.to_multiset().contains(x) implies sv.to_multiset().count(
            x,
        ) == 1 by {
            assert(uv.to_multiset().contains(x));
        }
        sv.lemma_multiset_has_no_duplicates_conv();
        lemma_sorted_distinct_strictly(sv);
        assert forall|x: Seq<char>| sv.to_set().contains(x) <==> uv.to_set().contains(x) by {
            assert(sv.contains(x) <==> sv.to_multiset().count(x) > 0);
            assert(uv.contains(x) <==> uv.to_multiset().count(x) > 0);
        }
        assert(sv.to_set() =~= uv.to_set());
        assert(is_sorted_set_of(sv, ts));
    }

    sorted
}

/// The tokens of a list of numbered tokens.
pub open spec fn numbered_views(v: Seq<(String, usize)>) -> Seq<Seq<char>> {
    v.map_values(|e: (String, usize)| e.0@)
}

/// The distinct tokens of `text`, in ascending order, each with its
/// position in that order.
pub fn numbered_tokens(splitter: &Splitter, text: &str) -> (out: Vec<(String, usize)>)
    requires
        split_pieces(splitter.delimiters(), text@) is Some,
    ensures
        is_sorted_set_of(
            numbered_views(out@),
            filtered_pieces(splitter.delimiters(), text@),
        ),
        forall|i: int| 0 <= i < out@.len() ==> #[trigger] out@[i].1 == i,
{
    let sorted = sorted_distinct_tokens(splitter.split_filter(text));
    let ghost sv = string_views(sorted@);
    let mut out: Vec<(String, usize)> = Vec::new();
    let mut i: usize = 0;
    while i < sorted.len()
        invariant
            sv == string_views(sorted@),
            i <= sorted.len(),
            numbered_views(out@) == sv.take(i as int),
            forall|k: int| 0 <= k < out@.len() ==> #[trigger] out@[k].1 == k,
        decreases sorted.len() - i,
    {
        let t = sorted[i].clone();
        let ghost before = out@;
        out.push((t, i));
        proof {
            assert(out@ =~= before.push((t, i)));
            assert(t@ == sv[i as int]);
            assert(numbered_views(out@) =~= numbered_views(before).push(t@));
            assert(numbered_views(out@) =~= sv.take(i + 1));
        }
        i = i + 1;
    }
    assert(sv.take(sorted.len() as int) =~= sv);
    out
}

/// A bijection between tokens and ids.
pub struct Vocab {
    mapping: IndexSet<String>,
    unk_id: usize,
}

impl Vocab {
    /// The tokens, in the order of their ids.
    pub closed spec fn tokens(&self) -> Seq<Seq<char>> {
        index_set_items(self.mapping)
    }

    /// The id of the unknown-token marker.
    pub closed spec fn unk_id(&self) -> int {
        self.unk_id as int
    }

    /// The tokens are distinct and the unknown-token marker is among them;
    /// every vocabulary keeps this.
    #[verifier::type_invariant]
    pub open spec fn wf(&self) -> bool {
        &&& self.tokens().no_duplicates()
        &&& 0 <= self.unk_id() < self.tokens().len()
        &&& self.tokens()[self.unk_id()] == unk_token()
    }

    /// The id of `token`: its position where it is in the vocabulary, the id
    /// of the unknown-token marker where it is not.
    pub open spec fn id_of(&self, token: Seq<char>) -> int {
        if self.tokens().contains(token) {
            self.tokens().index_of(token)
        } else {
            self.unk_id()
        }
    }

    /// Builds the vocabulary of `tokens`: the distinct tokens in ascending
    /// order, then the end-of-text and unknown-token markers.
    pub fn from_tokens(tokens: Vec<&str>) -> (v: Vocab)
        ensures
            v.wf(),
            exists|p: Seq<Seq<char>>|
                is_sorted_set_of(p, str_views(tokens@)) && v.tokens() == vocabulary_of(p),
    {
        let sorted = sorted_distinct_tokens(tokens);
        let ghost ts = str_views(tokens@);
        let ghost sv = string_views(sorted@);
        let mut mapping = index_set_new();
        let mut k: usize = 0;
        assert(sv.take(0) =~= Seq::<Seq<char>>::empty());
        while k < sorted.len()
            invariant
                sv == string_views(sorted@),
                k <= sorted.len(),
                index_set_items(mapping) == first_occurrences(sv.take(k as int)),
            decreases sorted.len() - k,
        {
            let t = sorted[k].clone();
            proof {
                assert(sv.take(k + 1).drop_last() =~= sv.take(k as int));
                assert(sv.take(k + 1).last() == t@);
            }
            index_set_insert(&mut mapping, t);
            k = k + 1;
        }
        proof {
            assert(sv.take(sorted.len() as int) =~= sv);
            lemma_strictly_sorted_distinct(sv);
            lemma_first_occurrences_of_distinct(sv);
        }
        let ghost with_eot = sv.push(eot_token());
        let ghost whole = sv + seq![eot_token(), unk_token()];
        proof {
            assert(with_eot.drop_last() =~= sv);
            assert(with_eot.last() == eot_token());
            assert(whole =~= with_eot.push(unk_token()));
            assert(whole.drop_last() =~= with_eot);
        }
        index_set_insert(&mut mapping, String::from_str("<|endoftext|>"));
        assert(index_set_items(mapping) == first_occurrences(with_eot));
        index_set_insert(&mut mapping, String::from_str("<|unk|>"));
        assert(index_set_items(mapping) == first_occurrences(whole));
        proof {
            lemma_first_occurrences_distinct(whole);
            assert(index_set_items(mapping).contains(unk_token())) by {
                if !first_occurrences(with_eot).contains(unk_token()) {
                    assert(index_set_items(mapping).last() == unk_token());
                }
            }
            assert(is_sorted_set_of(sv, ts) && index_set_items(mapping) == vocabulary_of(sv));
        }
        let unk_id = index_set_get_index_of(&mapping, "<|unk|>").unwrap();
        Vocab { mapping, unk_id }
    }

    /// Builds the vocabulary of the tokens that `splitter.split_filter`
    /// yields for `corpus`.
    pub fn from_corpus(corpus: &str, splitter: &Splitter) -> (v: Vocab)
        requires
            split_pieces(splitter.delimiters(), corpus@) is Some,
        ensures
            v.wf(),
            exists|p: Seq<Seq<char>>|
                is_sorted_set_of(p, filtered_pieces(splitter.delimiters(), corpus@)) && v.tokens()
                    == vocabulary_of(p),
    {
        Self::from_tokens(splitter.split_filter(corpus))
    }

    /// The token with id `id`, or `None` where there is none.
    pub fn get_token(&self, id: usize) -> (t: Option<&str>)
        ensures
            match t {
                Some(s) => id < self.tokens().len() && s@ == self.tokens()[id as int],
                None => id >= self.tokens().len(),
            },
    {
        match index_set_get_index(&self.mapping, id) {
            Some(s) => Some(s.as_str()),
            None => None,
        }
    }

    /// The id of `token`, or the id of the unknown-token marker where the
    /// token is not in the vocabulary.
    pub fn get_id(&self, token: &str) -> (id: usize)
        ensures
            id == self.id_of(token@),
    {
        proof {
            use_type_invariant(self);
        }
        match index_set_get_index_of(&self.mapping, token) {
            Some(i) => {
                proof {
                    let j = self.tokens().index_of(token@);
                    assert(self.tokens()[i as int] == token@);
                    assert(self.tokens().contains(token@));
                    assert(self.tokens()[j] == token@);
                }
                i
            },
            None => self.unk_id,
        }
    }
}

/// Looking up the id of a token and then the token with that id gives back
/// the token where it is in the vocabulary, and the unknown-token marker
/// where it is not; the id is always one that the vocabulary has.
pub proof fn lemma_token_of_id(v: Vocab, token: Seq<char>)
    requires
        v.wf(),
    ensures
        0 <= v.id_of(token) < v.tokens().len(),
        v.tokens()[v.id_of(token)] == if v.tokens().contains(token) {
            token
        } else {
            unk_token()
        },
{
}

/// Every id names a different token: looking up the token with an id and
/// then the id of that token gives back the id.
pub proof fn lemma_id_of_token(v: Vocab, id: int)
    requires
        v.wf(),
        0 <= id < v.tokens().len(),
    ensures
        v.id_of(v.tokens()[id]) == id,
{
    let t = v.tokens()[id];
    assert(v.tokens().contains(t));
    let j = v.tokens().index_of(t);
    assert(v.tokens()[j] == t);
}

/// The layout of a vocabulary built on the sorted distinct tokens `p`: the
/// tokens of `p` take the first ids, in ascending order; both markers come
/// after them unless `p` holds them already; no token occurs twice.
pub proof fn lemma_vocabulary_layout(p: Seq<Seq<char>>)
    requires
        strictly_sorted(p),
    ensures
        vocabulary_of(p).no_duplicates(),
        p.len() <= vocabulary_of(p).len() <= p.len() + 2,
        vocabulary_of(p).take(p.len() as int) == p,
        vocabulary_of(p).contains(eot_token()),
        vocabulary_of(p).contains(unk_token()),
        !p.contains(eot_token()) ==> vocabulary_of(p)[p.len() as int] == eot_token(),
        !p.contains(unk_token()) ==> vocabulary_of(p).last() == unk_token(),
{
    lemma_strictly_sorted_distinct(p);
    lemma_first_occurrences_of_distinct(p);
    let with_eot = p.push(eot_token());
    let whole = p + seq![eot_token(), unk_token()];
    assert(with_eot.drop_last() =~= p);
    assert(whole =~= with_eot.push(unk_token()));
    assert(whole.drop_last() =~= with_eot);
    lemma_first_occurrences_distinct(whole);
    let a = first_occurrences(with_eot);
    assert(a.take(p.len() as int) =~= p);
    assert(a.contains(eot_token())) by {
        if !p.contains(eot_token()) {
            assert(a[p.len() as int] == eot_token());
        }
    }
    let w = vocabulary_of(p);
    assert(w.take(p.len() as int) =~= p);
    assert(w.contains(eot_token())) by {
        let i = choose|i: int| 0 <= i < a.len() && a[i] == eot_token();
        assert(w[i] == eot_token());
    }
    assert(w.contains(unk_token())) by {
        if !a.contains(unk_token()) {
            assert(w[w.len() - 1] == unk_token());
        }
    }
    assert(!p.contains(unk_token()) ==> w.last() == unk_token()) by {
        if !p.contains(unk_token()) && a.contains(unk_token()) {
            let i = choose|i: int| 0 <= i < a.len() && a[i] == unk_token();
            assert(i >= p.len());
            assert(a[p.len() as int] == eot_token());
        }
    }
}

} // verus!
