//! Splitting text into tokens and delimiters.

use vstd::prelude::*;
use crate::text::{chars_of, is_whitespace, lemma_trimmed_idempotent, trim, trimmed};

verus! {

/// Whether the delimiter `d` occurs in `r` starting at character position `k`.
pub open spec fn matches_at(r: Seq<char>, k: int, d: Seq<char>) -> bool {
    &&& 0 <= k
    &&& k + d.len() <= r.len()
    &&& forall|i: int| 0 <= i < d.len() ==> r[k + i] == #[trigger] d[i]
}

/// `(k, j)` is the earliest match in `r`: delimiter `j` occurs at character
/// position `k`, no delimiter occurs at an earlier position, and no delimiter
/// listed before `j` occurs at `k`.
pub open spec fn is_first_match(delims: Seq<Seq<char>>, r: Seq<char>, k: int, j: int) -> bool {
    &&& 0 <= k < r.len()
    &&& 0 <= j < delims.len()
    &&& matches_at(r, k, delims[j])
    &&& forall|k2: int, j2: int|
        0 <= k2 < k && 0 <= j2 < delims.len() ==> !#[trigger] matches_at(r, k2, delims[j2])
    &&& forall|j2: int| 0 <= j2 < j ==> !#[trigger] matches_at(r, k, delims[j2])
}

/// The pieces that splitting `r` at `delims` yields: for each earliest match,
/// the text before it and then the delimiter itself, until `r` is used up.
/// `None` where the splitting never comes to an end: when a non-empty rest of
/// the text holds no delimiter (the rest would be yielded again and again),
/// or when the earliest match is an empty delimiter at the very start.
pub open spec fn split_pieces(delims: Seq<Seq<char>>, r: Seq<char>) -> Option<Seq<Seq<char>>>
    decreases r.len(),
{
    if r.len() == 0 {
        Some(Seq::empty())
    } else if exists|k: int, j: int| is_first_match(delims, r, k, j) {
        let (k, j) = choose|k: int, j: int| is_first_match(delims, r, k, j);
        let end = k + delims[j].len();
        if end <= 0 {
            None
        } else {
            match split_pieces(delims, r.skip(end)) {
                Some(rest) => Some(seq![r.take(k), delims[j]] + rest),
                None => None,
            }
        }
    } else {
        None
    }
}

/// The trimmed pieces, with those that trimming leaves empty left out.
pub open spec fn keep_trimmed(pieces: Seq<Seq<char>>) -> Seq<Seq<char>>
    decreases pieces.len(),
{
    if pieces.len() == 0 {
        Seq::empty()
    } else {
        let rest = keep_trimmed(pieces.drop_last());
        let t = trimmed(pieces.last());
        if t.len() == 0 {
            rest
        } else {
            rest.push(t)
        }
    }
}

/// Each piece, trimmed of surrounding whitespace.
pub open spec fn trims(pieces: Seq<Seq<char>>) -> Seq<Seq<char>> {
    pieces.map_values(|p: Seq<char>| trimmed(p))
}

/// The non-empty sequences of `s`, each of them, in their order.
pub open spec fn non_empty(s: Seq<Seq<char>>) -> Seq<Seq<char>> {
    s.filter(|t: Seq<char>| t.len() > 0)
}

/// What `split_filter` yields for `text`, where splitting comes to an end.
pub open spec fn filtered_pieces(delims: Seq<Seq<char>>, text: Seq<char>) -> Seq<Seq<char>> {
    keep_trimmed(split_pieces(delims, text).unwrap())
}

/// The character sequences of a list of string slices.
pub open spec fn str_views(v: Seq<&str>) -> Seq<Seq<char>> {
    v.map_values(|s: &str| s@)
}

/// The character sequences of a list of strings.
pub open spec fn string_views(v: Seq<String>) -> Seq<Seq<char>> {
    v.map_values(|s: String| s@)
}

/// The delimiters of the default splitter: each of the characters
/// `,.:;?_!"()'` and the space, then the two-character delimiter `--`.
pub open spec fn default_delimiters() -> Seq<Seq<char>> {
    seq![
        seq![','],
        seq!['.'],
        seq![':'],
        seq![';'],
        seq!['?'],
        seq!['_'],
        seq!['!'],
        seq!['"'],
        seq!['('],
        seq![')'],
        seq!['\''],
        seq![' '],
        seq!['-', '-'],
    ]
}

/// Splits text at a list of delimiters, keeping the delimiters.
pub struct Splitter {
    delimiters: Vec<String>,
}

proof fn lemma_first_match_unique(delims: Seq<Seq<char>>, r: Seq<char>, k1: int, j1: int, k2: int, j2: int)
    requires
        is_first_match(delims, r, k1, j1),
        is_first_match(delims, r, k2, j2),
    ensures
        k1 == k2 && j1 == j2,
{
    if k1 < k2 {
        assert(!matches_at(r, k1, delims[j1]));
    } else if k2 < k1 {
        assert(!matches_at(r, k2, delims[j2]));
    } else if j1 < j2 {
        assert(!matches_at(r, k2, delims[j1]));
    } else if j2 < j1 {
        assert(!matches_at(r, k1, delims[j2]));
    }
}

/// Whether `d` occurs in `cs@.skip(pos)` at position `k`.
fn matches_at_exec(cs: &Vec<char>, pos: usize, k: usize, d: &Vec<char>) -> (b: bool)
    requires
        pos <= cs.len(),
    ensures
        b == matches_at(cs@.skip(pos as int), k as int, d@),
{
    let ghost r = cs@.skip(pos as int);
    let n = cs.len();
    if k > n - pos || d.len() > n - pos - k {
        return false;
    }
    let mut i: usize = 0;
    while i < d.len()
        invariant
            r == cs@.skip(pos as int),
            n == cs.len(),
            pos + k + d.len() <= n,
            i <= d.len(),
            forall|i2: int| 0 <= i2 < i ==> r[k + i2] == #[trigger] d@[i2],
        decreases d.len() - i,
    {
        if cs[pos + k + i] != d[i] {
            assert(r[k + i] != d@[i as int]);
            return false;
        }
        i = i + 1;
    }
    true
}

/// Finds the earliest match in `cs@.skip(pos)`; its position is relative to `pos`.
fn find_first_match(cs: &Vec<char>, pos: usize, delims: &Vec<Vec<char>>, Ghost(ds): Ghost<Seq<Seq<char>>>) -> (res: Option<(usize, usize)>)
    requires
        pos <= cs.len(),
        delims@.len() == ds.len(),
        forall|j: int| 0 <= j < ds.len() ==> #[trigger] delims@[j]@ == ds[j],
    ensures
        match res {
            Some((k, j)) => is_first_match(ds, cs@.skip(pos as int), k as int, j as int),
            None => forall|k: int, j: int|
                0 <= k < cs@.skip(pos as int).len() && 0 <= j < ds.len() ==> !#[trigger] matches_at(
                    cs@.skip(pos as int),
                    k,
                    ds[j],
                ),
        },
{
    let ghost r = cs@.skip(pos as int);
    let len = cs.len() - pos;
    let mut k: usize = 0;
    while k < len
        invariant
            r == cs@.skip(pos as int),
            len == r.len(),
            pos <= cs.len(),
            k <= len,
            delims@.len() == ds.len(),
            forall|j: int| 0 <= j < ds.len() ==> #[trigger] delims@[j]@ == ds[j],
            forall|k2: int, j2: int|
                0 <= k2 < k && 0 <= j2 < ds.len() ==> !#[trigger] matches_at(r, k2, ds[j2]),
        decreases len - k,
    {
        let mut j: usize = 0;
        while j < delims.len()
            invariant
                r == cs@.skip(pos as int),
                len == r.len(),
                pos <= cs.len(),
                k < len,
                j <= ds.len(),
                delims@.len() == ds.len(),
                forall|j: int| 0 <= j < ds.len() ==> #[trigger] delims@[j]@ == ds[j],
                forall|k2: int, j2: int|
                    0 <= k2 < k && 0 <= j2 < ds.len() ==> !#[trigger] matches_at(r, k2, ds[j2]),
                forall|j2: int| 0 <= j2 < j ==> !#[trigger] matches_at(r, k as int, ds[j2]),
            decreases ds.len() - j,
        {
            let m = matches_at_exec(cs, pos, k, &delims[j]);
            assert(delims@[j as int]@ == ds[j as int]);
            if m {
                return Some((k, j));
            }
            j = j + 1;
        }
        k = k + 1;
    }
    None
}

impl Splitter {
    /// The delimiters, in the order in which they are tried.
    pub closed spec fn delimiters(&self) -> Seq<Seq<char>> {
        string_views(self.delimiters@)
    }

    /// Creates a splitter with the given delimiters.
    pub fn new(delimiters: Vec<String>) -> (s: Self)
        ensures
            s.delimiters() == string_views(delimiters@),
    {
        Splitter { delimiters }
    }

    /// The delimiters as character vectors.
    fn delimiter_chars(&self) -> (out: Vec<Vec<char>>)
        ensures
            out@.len() == self.delimiters().len(),
            forall|j: int| 0 <= j < out@.len() ==> #[trigger] out@[j]@ == self.delimiters()[j],
    {
        let mut out: Vec<Vec<char>> = Vec::new();
        let mut j: usize = 0;
        while j < self.delimiters.len()
            invariant
                j <= self.delimiters@.len(),
                out@.len() == j,
                forall|i: int| 0 <= i < j ==> #[trigger] out@[i]@ == self.delimiters()[i],
            decreases self.delimiters@.len() - j,
        {
            out.push(chars_of(self.delimiters[j].as_str()));
            j = j + 1;
        }
        out
    }

    /// Whether splitting `text` comes to an end, which `split`,
    /// `split_filter` and what builds on them ask of their text.
    pub fn ends_on(&self, text: &str) -> (b: bool)
        ensures
            b == split_pieces(self.delimiters(), text@) is Some,
    {
        let ghost ds = self.delimiters();
        let delims = self.delimiter_chars();
        let cs = chars_of(text);
        let n = cs.len();
        let mut pos: usize = 0;
        assert(text@.skip(0) =~= text@);
        while pos < n
            invariant
                ds == self.delimiters(),
                delims@.len() == ds.len(),
                forall|j: int| 0 <= j < ds.len() ==> #[trigger] delims@[j]@ == ds[j],
                cs@ == text@,
                n == cs.len(),
                pos <= n,
                split_pieces(ds, text@) is Some <==> split_pieces(ds, text@.skip(pos as int)) is Some,
            decreases n - pos,
        {
            let ghost r = text@.skip(pos as int);
            match find_first_match(&cs, pos, &delims, Ghost(ds)) {
                None => {
                    assert(!exists|k: int, j: int| is_first_match(ds, r, k, j));
                    return false;
                },
                Some((k, j)) => {
                    let ghost (k0, j0) = choose|k: int, j: int| is_first_match(ds, r, k, j);
                    proof {
                        lemma_first_match_unique(ds, r, k as int, j as int, k0, j0);
                    }
                    let end = k + delims[j].len();
                    if end == 0 {
                        return false;
                    }
                    assert(r.skip(end as int) =~= text@.skip((pos + end) as int));
                    pos = pos + end;
                },
            }
        }
        assert(text@.skip(n as int) =~= Seq::<char>::empty());
        true
    }

    /// Splits `text` into the text between delimiters and the delimiters
    /// themselves: at the earliest position where a delimiter occurs (the
    /// first listed one where several do), the text before it and the
    /// delimiter are yielded, and splitting goes on after the delimiter.
    pub fn split<'b>(&self, text: &'b str) -> (pieces: Vec<&'b str>)
        requires
            split_pieces(self.delimiters(), text@) is Some,
        ensures
            str_views(pieces@) == split_pieces(self.delimiters(), text@).unwrap(),
    {
        let ghost ds = self.delimiters();
        let delims = self.delimiter_chars();
        let cs = chars_of(text);
        let n = cs.len();
        let mut pos: usize = 0;
        let mut pieces: Vec<&'b str> = Vec::new();
        proof {
            assert(text@.skip(0) =~= text@);
            assert(str_views(pieces@) + split_pieces(ds, text@).unwrap() =~= split_pieces(
                ds,
                text@,
            ).unwrap());
        }
        while pos < n
            invariant
                ds == self.delimiters(),
                delims@.len() == ds.len(),
                forall|j: int| 0 <= j < ds.len() ==> #[trigger] delims@[j]@ == ds[j],
                cs@ == text@,
                n == cs.len(),
                pos <= n,
                split_pieces(ds, text@.skip(pos as int)) is Some,
                split_pieces(ds, text@).unwrap() == str_views(pieces@) + split_pieces(
                    ds,
                    text@.skip(pos as int),
                ).unwrap(),
            decreases n - pos,
        {
            let ghost r = text@.skip(pos as int);
            let found = find_first_match(&cs, pos, &delims, Ghost(ds));
            match found {
                None => {
                    proof {
                        assert(!exists|k: int, j: int| is_first_match(ds, r, k, j));
                        assert(split_pieces(ds, r) is None);
                    }
                    return pieces;
                },
                Some((k, j)) => {
                    let ghost (k0, j0) = choose|k: int, j: int| is_first_match(ds, r, k, j);
                    proof {
                        lemma_first_match_unique(ds, r, k as int, j as int, k0, j0);
                    }
                    let dl = delims[j].len();
                    let end = k + dl;
                    assert(end > 0);
                    let before = text.substring_char(pos, pos + k);
                    let delim = text.substring_char(pos + k, pos + end);
                    let ghost old_pieces = pieces@;
                    let ghost rest = split_pieces(ds, r.skip(end as int)).unwrap();
                    pieces.push(before);
                    pieces.push(delim);
                    proof {
                        assert(before@ =~= r.take(k as int));
                        assert(delim@ =~= ds[j as int]);
                        assert(r.skip(end as int) =~= text@.skip((pos + end) as int));
                        assert(str_views(pieces@) =~= str_views(old_pieces) + seq![
                            r.take(k as int),
                            ds[j as int],
                        ]);
                        assert(split_pieces(ds, r).unwrap() == seq![r.take(k as int), ds[j as int]]
                            + rest);
                        assert(str_views(old_pieces) + (seq![r.take(k as int), ds[j as int]] + rest)
                            =~= str_views(pieces@) + rest);
                    }
                    pos = pos + end;
                },
            }
        }
        proof {
            assert(text@.skip(n as int) =~= Seq::<char>::empty());
            assert(str_views(pieces@) + Seq::<Seq<char>>::empty() =~= str_views(pieces@));
        }
        pieces
    }

    /// Splits `text` as `split` does, trims each piece of surrounding
    /// whitespace, and leaves out the pieces that are then empty.
    pub fn split_filter<'b>(&self, text: &'b str) -> (pieces: Vec<&'b str>)
        requires
            split_pieces(self.delimiters(), text@) is Some,
        ensures
            str_views(pieces@) == filtered_pieces(self.delimiters(), text@),
            str_views(pieces@) == non_empty(trims(split_pieces(self.delimiters(), text@).unwrap())),
    {
        proof {
            lemma_split_filter_keeps_each_token(self.delimiters(), text@);
        }
        let all = self.split(text);
        let ghost whole = str_views(all@);
        let mut out: Vec<&'b str> = Vec::new();
        let mut i: usize = 0;
        while i < all.len()
            invariant
                whole == str_views(all@),
                i <= all.len(),
                str_views(out@) == keep_trimmed(whole.take(i as int)),
            decreases all.len() - i,
        {
            let t = trim(all[i]);
            let ghost old_out = out@;
            proof {
                assert(whole.take(i + 1).drop_last() =~= whole.take(i as int));
                assert(whole.take(i + 1).last() == all@[i as int]@);
            }
            if !t.is_empty() {
                out.push(t);
                proof {
                    assert(str_views(out@) =~= str_views(old_out).push(t@));
                }
            }
            i = i + 1;
        }
        proof {
            assert(whole.take(all.len() as int) =~= whole);
        }
        out
    }
}

/// Makes an owned copy of a string slice.
fn owned_string(s: &str) -> (out: String)
    ensures
        out@ == s@,
{
    String::from_str(s)
}

impl Default for Splitter {
    /// The splitter at the punctuation characters `,.:;?_!"()'`, the space
    /// and `--`, tried in that order.
    fn default() -> (s: Self)
        ensures
            s.delimiters() == default_delimiters(),
            s.delimiters().len() == 13,
            s.delimiters() == seq![
                seq![','],
                seq!['.'],
                seq![':'],
                seq![';'],
                seq!['?'],
                seq!['_'],
                seq!['!'],
                seq!['"'],
                seq!['('],
                seq![')'],
                seq!['\''],
                seq![' '],
                seq!['-', '-'],
            ],
    {
        let mut d: Vec<String> = Vec::new();
        proof {
            reveal_strlit(",");
            reveal_strlit(".");
            reveal_strlit(":");
            reveal_strlit(";");
            reveal_strlit("?");
            reveal_strlit("_");
            reveal_strlit("!");
            reveal_strlit("\"");
            reveal_strlit("(");
            reveal_strlit(")");
            reveal_strlit("'");
            reveal_strlit(" ");
            reveal_strlit("--");
        }
        d.push(owned_string(","));
        d.push(owned_string("."));
        d.push(owned_string(":"));
        d.push(owned_string(";"));
        d.push(owned_string("?"));
        d.push(owned_string("_"));
        d.push(owned_string("!"));
        d.push(owned_string("\""));
        d.push(owned_string("("));
        d.push(owned_string(")"));
        d.push(owned_string("'"));
        d.push(owned_string(" "));
        d.push(owned_string("--"));
        proof {
            let dd = default_delimiters();
            assert(d@[0]@ =~= dd[0]);
            assert(d@[1]@ =~= dd[1]);
            assert(d@[2]@ =~= dd[2]);
            assert(d@[3]@ =~= dd[3]);
            assert(d@[4]@ =~= dd[4]);
            assert(d@[5]@ =~= dd[5]);
            assert(d@[6]@ =~= dd[6]);
            assert(d@[7]@ =~= dd[7]);
            assert(d@[8]@ =~= dd[8]);
            assert(d@[9]@ =~= dd[9]);
            assert(d@[10]@ =~= dd[10]);
            assert(d@[11]@ =~= dd[11]);
            assert(d@[12]@ =~= dd[12]);
        }
        let s = Splitter::new(d);
        assert(s.delimiters() =~= default_delimiters());
        s
    }
}

/// Splitting loses nothing: the pieces, joined in order, give back the text.
pub proof fn lemma_split_lossless(delims: Seq<Seq<char>>, text: Seq<char>)
    requires
        split_pieces(delims, text) is Some,
    ensures
        split_pieces(delims, text).unwrap().flatten() == text,
    decreases text.len(),
{
    if text.len() > 0 {
        let (k, j) = choose|k: int, j: int| is_first_match(delims, text, k, j);
        let d = delims[j];
        let end = k + d.len();
        let rest = split_pieces(delims, text.skip(end)).unwrap();
        lemma_split_lossless(delims, text.skip(end));
        let ps = split_pieces(delims, text).unwrap();
        assert(ps.drop_first() =~= seq![d] + rest);
        assert((seq![d] + rest).drop_first() =~= rest);
        assert(ps.flatten() == text.take(k) + ps.drop_first().flatten());
        assert((seq![d] + rest).flatten() == d + rest.flatten());
        assert(text.take(k) + (d + text.skip(end)) =~= text);
    } else {
        assert(split_pieces(delims, text).unwrap() =~= Seq::<Seq<char>>::empty());
    }
}

/// Splitting alternates text and delimiters: the pieces come in pairs, each
/// second piece is one of the delimiters, and no delimiter starts inside a
/// piece of text.
pub proof fn lemma_split_alternates(delims: Seq<Seq<char>>, text: Seq<char>)
    requires
        split_pieces(delims, text) is Some,
    ensures
        split_pieces(delims, text).unwrap().len() % 2 == 0,
        forall|i: int|
            0 <= i < split_pieces(delims, text).unwrap().len() && i % 2 == 1 ==> delims.contains(
                #[trigger] split_pieces(delims, text).unwrap()[i],
            ),
        forall|i: int, k: int, j: int|
            0 <= i < split_pieces(delims, text).unwrap().len() && i % 2 == 0 && 0 <= k
                < split_pieces(delims, text).unwrap()[i].len() && 0 <= j < delims.len()
                ==> !#[trigger] matches_at(split_pieces(delims, text).unwrap()[i], k, delims[j]),
    decreases text.len(),
{
    let ps = split_pieces(delims, text).unwrap();
    if text.len() > 0 {
        let (k, j) = choose|k: int, j: int| is_first_match(delims, text, k, j);
        let end = k + delims[j].len();
        let rest = split_pieces(delims, text.skip(end)).unwrap();
        lemma_split_alternates(delims, text.skip(end));
        assert(ps == seq![text.take(k), delims[j]] + rest);
        assert forall|i: int| 0 <= i < ps.len() && i % 2 == 1 implies delims.contains(
            #[trigger] ps[i],
        ) by {
            if i == 1 {
                assert(ps[1] == delims[j]);
            } else {
                assert(ps[i] == rest[i - 2]);
                assert(delims.contains(rest[i - 2]));
            }
        }
        assert forall|i: int, k2: int, j2: int|
            0 <= i < ps.len() && i % 2 == 0 && 0 <= k2 < ps[i].len() && 0 <= j2 < delims.len()
            implies !#[trigger] matches_at(ps[i], k2, delims[j2]) by {
            if i == 0 {
                let a = text.take(k);
                assert(ps[0] == a);
                if matches_at(a, k2, delims[j2]) {
                    assert forall|m: int| 0 <= m < delims[j2].len() implies text[k2 + m]
                        == #[trigger] delims[j2][m] by {
                        assert(a[k2 + m] == delims[j2][m]);
                    }
                    assert(matches_at(text, k2, delims[j2]));
                }
            } else {
                assert(ps[i] == rest[i - 2]);
            }
        }
    } else {
        assert(ps =~= Seq::<Seq<char>>::empty());
    }
}

/// Every piece that `split_filter` yields is non-empty, starts and ends with
/// a character that is not whitespace, and is left as it is by trimming.
pub proof fn lemma_filtered_pieces_trimmed(pieces: Seq<Seq<char>>)
    ensures
        forall|i: int|
            0 <= i < keep_trimmed(pieces).len() ==> {
                let p = #[trigger] keep_trimmed(pieces)[i];
                &&& p.len() > 0
                &&& trimmed(p) == p
                &&& !is_whitespace(p[0])
                &&& !is_whitespace(p.last())
            },
    decreases pieces.len(),
{
    if pieces.len() > 0 {
        lemma_filtered_pieces_trimmed(pieces.drop_last());
        lemma_trimmed_idempotent(pieces.last());
        let rest = keep_trimmed(pieces.drop_last());
        let out = keep_trimmed(pieces);
        assert forall|i: int| 0 <= i < out.len() implies {
            let p = #[trigger] out[i];
            &&& p.len() > 0
            &&& trimmed(p) == p
            &&& !is_whitespace(p[0])
            &&& !is_whitespace(p.last())
        } by {
            if i < rest.len() {
                assert(out[i] == rest[i]);
            }
        }
    }
}

/// Trimming and dropping pieces is exactly filtering: the result holds the
/// trim of every piece whose trim is non-empty, each one, in order, and
/// nothing else; repeated tokens are all kept.
pub proof fn lemma_keep_trimmed_is_filter(pieces: Seq<Seq<char>>)
    ensures
        keep_trimmed(pieces) == non_empty(trims(pieces)),
    decreases pieces.len(),
{
    reveal(Seq::filter);
    if pieces.len() > 0 {
        lemma_keep_trimmed_is_filter(pieces.drop_last());
        assert(trims(pieces).drop_last() =~= trims(pieces.drop_last()));
        assert(trims(pieces).last() == trimmed(pieces.last()));
    } else {
        assert(trims(pieces) =~= Seq::<Seq<char>>::empty());
    }
}

/// `split_filter` keeps, in order, the trim of each piece of `split` that
/// is not all whitespace, and only those.
pub proof fn lemma_split_filter_keeps_each_token(delims: Seq<Seq<char>>, text: Seq<char>)
    requires
        split_pieces(delims, text) is Some,
    ensures
        filtered_pieces(delims, text) == non_empty(trims(split_pieces(delims, text).unwrap())),
        filtered_pieces(delims, text).len() <= split_pieces(delims, text).unwrap().len(),
{
    let ps = split_pieces(delims, text).unwrap();
    lemma_keep_trimmed_is_filter(ps);
    trims(ps).lemma_filter_len(|t: Seq<char>| t.len() > 0);
}

proof fn lemma_subrange_matches(r: Seq<char>, k: int, d: Seq<char>)
    requires
        0 <= k,
        k + d.len() <= r.len(),
        r.subrange(k, k + d.len()) == d,
    ensures
        matches_at(r, k, d),
{
    assert forall|i: int| 0 <= i < d.len() implies r[k + i] == #[trigger] d[i] by {
        assert(r.subrange(k, k + d.len())[i] == r[k + i]);
    }
}

/// No piece of text that `split` yields holds a delimiter: no run of
/// consecutive characters of it equals any delimiter, whatever surrounds it.
pub proof fn lemma_text_pieces_hold_no_delimiter(delims: Seq<Seq<char>>, text: Seq<char>)
    requires
        split_pieces(delims, text) is Some,
    ensures
        forall|i: int, k: int, j: int|
            0 <= i < split_pieces(delims, text).unwrap().len() && i % 2 == 0 && 0 <= k
                < split_pieces(delims, text).unwrap()[i].len() && 0 <= j < delims.len() && k
                + delims[j].len() <= split_pieces(delims, text).unwrap()[i].len()
                ==> #[trigger] split_pieces(delims, text).unwrap()[i].subrange(k, k + delims[j].len())
                != delims[j],
{
    let ps = split_pieces(delims, text).unwrap();
    lemma_split_alternates(delims, text);
    assert forall|i: int, k: int, j: int|
        0 <= i < ps.len() && i % 2 == 0 && 0 <= k < ps[i].len() && 0 <= j < delims.len() && k
            + delims[j].len() <= ps[i].len() implies #[trigger] ps[i].subrange(
        k,
        k + delims[j].len(),
    ) != delims[j] by {
        if ps[i].subrange(k, k + delims[j].len()) == delims[j] {
            lemma_subrange_matches(ps[i], k, delims[j]);
            assert(!matches_at(ps[i], k, delims[j]));
        }
    }
}

/// In `rest`, the text `a` followed by the delimiter `d` is an earliest cut:
/// together they are not empty, no delimiter occurs in `rest` at a position
/// inside `a`, and `d` is the first listed delimiter that occurs right after
/// `a`.
pub open spec fn earliest_cut(delims: Seq<Seq<char>>, rest: Seq<char>, a: Seq<char>, d: Seq<char>) -> bool {
    &&& a.len() + d.len() > 0
    &&& forall|k: int, j: int|
        0 <= k < a.len() && 0 <= j < delims.len() && k + delims[j].len() <= rest.len()
            ==> #[trigger] rest.subrange(k, k + delims[j].len()) != delims[j]
    &&& exists|j0: int|
        0 <= j0 < delims.len() && delims[j0] == d && forall|j: int|
            0 <= j < j0 && a.len() + delims[j].len() <= rest.len() ==> #[trigger] rest.subrange(
                a.len() as int,
                (a.len() + delims[j].len()) as int,
            ) != delims[j]
}

/// Each text piece and the delimiter after it are cut at the earliest place
/// in what is left of the text: no delimiter occurs earlier, and no delimiter
/// listed before the chosen one occurs at the same place.
pub proof fn lemma_split_cuts_earliest(delims: Seq<Seq<char>>, text: Seq<char>)
    requires
        split_pieces(delims, text) is Some,
    ensures
        forall|i: int|
            #![trigger split_pieces(delims, text).unwrap().skip(i)]
            0 <= i && i + 1 < split_pieces(delims, text).unwrap().len() && i % 2 == 0
                ==> earliest_cut(
                delims,
                split_pieces(delims, text).unwrap().skip(i).flatten(),
                split_pieces(delims, text).unwrap()[i],
                split_pieces(delims, text).unwrap()[i + 1],
            ),
    decreases text.len(),
{
    let ps = split_pieces(delims, text).unwrap();
    if text.len() > 0 {
        let (k, j) = choose|k: int, j: int| is_first_match(delims, text, k, j);
        let end = k + delims[j].len();
        let rest = split_pieces(delims, text.skip(end)).unwrap();
        lemma_split_cuts_earliest(delims, text.skip(end));
        lemma_split_lossless(delims, text);
        let a = text.take(k);
        let d = delims[j];
        assert(ps == seq![a, d] + rest);
        assert forall|i: int|
            #![trigger ps.skip(i)]
            0 <= i && i + 1 < ps.len() && i % 2 == 0 implies earliest_cut(
            delims,
            ps.skip(i).flatten(),
            ps[i],
            ps[i + 1],
        ) by {
            if i == 0 {
                assert(ps.skip(0) =~= ps);
                assert(ps[0] == a);
                assert(ps[1] == d);
                assert forall|k2: int, j2: int|
                    0 <= k2 < a.len() && 0 <= j2 < delims.len() && k2 + delims[j2].len()
                        <= text.len() implies #[trigger] text.subrange(k2, k2 + delims[j2].len())
                    != delims[j2] by {
                    if text.subrange(k2, k2 + delims[j2].len()) == delims[j2] {
                        lemma_subrange_matches(text, k2, delims[j2]);
                    }
                }
                assert forall|j2: int|
                    0 <= j2 < j && a.len() + delims[j2].len() <= text.len()
                        implies #[trigger] text.subrange(
                    a.len() as int,
                    (a.len() + delims[j2].len()) as int,
                ) != delims[j2] by {
                    if text.subrange(k, k + delims[j2].len()) == delims[j2] {
                        lemma_subrange_matches(text, k, delims[j2]);
                    }
                }
            } else {
                assert(ps.skip(i) =~= rest.skip(i - 2));
                assert(ps[i] == rest[i - 2]);
                assert(ps[i + 1] == rest[i - 1]);
                assert(0 <= i - 2 && i - 2 + 1 < rest.len() && (i - 2) % 2 == 0);
            }
        }
    }
}

} // verus!
