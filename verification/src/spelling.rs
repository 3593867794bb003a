//! Fuzzy-spelling alternative dictionary.
//!
//! For a fixed vocabulary and a maximum edit distance, the table records,
//! for every vocabulary word, the ordered list of vocabulary words within
//! that distance of it, the word itself always first.

use vstd::prelude::*;

verus! {

/// Damerau-Levenshtein edit distance between two character sequences, as
/// fuzzt computes it: a pure function of the two sequences alone.
pub uninterp spec fn damerau(a: Seq<char>, b: Seq<char>) -> nat;

/// Relies on fuzzt::algorithms::damerau_levenshtein: the edit distance
/// (insertions, deletions, substitutions, adjacent transpositions) between
/// two strings, a deterministic function of their characters alone.
#[verifier::external_body]
fn edit_distance(a: &str, b: &str) -> (r: usize)
    ensures
        r as nat == damerau(a@, b@),
{
    fuzzt::algorithms::damerau_levenshtein(a, b)
}

/// The word `w` occurs in `vocab`, first at position `i`.
pub open spec fn found_at(vocab: Seq<Seq<char>>, w: Seq<char>, i: int) -> bool {
    &&& 0 <= i < vocab.len()
    &&& vocab[i] == w
    &&& forall|j: int| 0 <= j < i ==> vocab[j] != w
}

/// The word `w` occurs somewhere in `vocab`.
pub open spec fn in_vocab(vocab: Seq<Seq<char>>, w: Seq<char>) -> bool {
    exists|i: int| 0 <= i < vocab.len() && vocab[i] == w
}

/// The position of the first occurrence of `w` in `vocab`; meaningful only
/// where `w` occurs at all.
pub open spec fn first_index(vocab: Seq<Seq<char>>, w: Seq<char>) -> int
    decreases vocab.len(),
{
    if vocab.len() == 0 {
        0
    } else if vocab[0] == w {
        0
    } else {
        1 + first_index(vocab.drop_first(), w)
    }
}

/// A word that occurs in the vocabulary is found first at `first_index`.
pub proof fn lemma_first_index_found(vocab: Seq<Seq<char>>, w: Seq<char>)
    requires
        in_vocab(vocab, w),
    ensures
        found_at(vocab, w, first_index(vocab, w)),
    decreases vocab.len(),
{
    if vocab.len() > 0 && vocab[0] != w {
        let rest = vocab.drop_first();
        assert(in_vocab(rest, w)) by {
            let i = choose|i: int| 0 <= i < vocab.len() && vocab[i] == w;
            assert(rest[i - 1] == w);
        }
        lemma_first_index_found(rest, w);
        let f = first_index(rest, w);
        assert forall|j: int| 0 <= j < 1 + f implies vocab[j] != w by {
            if j > 0 {
                assert(rest[j - 1] != w);
            }
        }
    }
}

/// Only one position can be the first occurrence of a word.
pub proof fn lemma_found_at_unique(vocab: Seq<Seq<char>>, w: Seq<char>, i1: int, i2: int)
    requires
        found_at(vocab, w, i1),
        found_at(vocab, w, i2),
    ensures
        i1 == i2,
{
}

/// The alternatives drawn from `vocab[..j]` for the word at position `i`:
/// every word other than position `i` itself whose distance to `vocab[i]`
/// is at most `d`, in vocabulary order.
pub open spec fn row_rest(vocab: Seq<Seq<char>>, d: nat, i: int, j: int) -> Seq<Seq<char>>
    decreases j,
{
    if j <= 0 {
        Seq::empty()
    } else {
        let prev = row_rest(vocab, d, i, j - 1);
        if j - 1 == i {
            prev
        } else if damerau(vocab[i], vocab[j - 1]) <= d {
            prev.push(vocab[j - 1])
        } else {
            prev
        }
    }
}

/// The full alternative list for the word at position `i`: the word itself
/// first, then every other vocabulary word within distance `d`.
pub open spec fn row_spec(vocab: Seq<Seq<char>>, d: nat, i: int) -> Seq<Seq<char>> {
    seq![vocab[i]] + row_rest(vocab, d, i, vocab.len() as int)
}

pub struct AlternativeTable {
    vocab: Vec<String>,
    rows: Vec<Vec<String>>,
    max_distance: usize,
}

impl AlternativeTable {
    /// The vocabulary the table was built from.
    pub closed spec fn vocab_view(&self) -> Seq<Seq<char>> {
        self.vocab.deep_view()
    }

    /// The distance bound the table was built with.
    pub closed spec fn distance(&self) -> nat {
        self.max_distance as nat
    }

    /// Every vocabulary word has its row, and each row is exactly the
    /// alternative list that `row_spec` describes.
    pub closed spec fn wf(&self) -> bool {
        &&& self.rows.len() == self.vocab.len()
        &&& forall|i: int|
            0 <= i < self.rows.len() ==> (#[trigger] self.rows[i].deep_view()) == row_spec(
                self.vocab_view(),
                self.distance(),
                i,
            )
    }

    /// Build the table: for every vocabulary word, scan the whole vocabulary
    /// and keep the words within `max_distance`, the word itself first.
    pub fn new(vocab: &Vec<String>, max_distance: usize) -> (r: AlternativeTable)
        ensures
            r.wf(),
            r.vocab_view() == vocab.deep_view(),
            r.distance() == max_distance as nat,
    {
        let ghost vd = vocab.deep_view();
        let n = vocab.len();
        let mut rows: Vec<Vec<String>> = Vec::new();
        for i in 0..n
            invariant
                n == vocab.len(),
                vd == vocab.deep_view(),
                rows.len() == i,
                forall|k: int|
                    0 <= k < i ==> (#[trigger] rows[k].deep_view()) == row_spec(
                        vd,
                        max_distance as nat,
                        k,
                    ),
        {
            let mut row: Vec<String> = Vec::new();
            row.push(vocab[i].clone());
            assert(row.deep_view() =~= seq![vd[i as int]] + row_rest(
                vd,
                max_distance as nat,
                i as int,
                0,
            ));
            for j in 0..n
                invariant
                    n == vocab.len(),
                    vd == vocab.deep_view(),
                    i < n,
                    row.deep_view() =~= seq![vd[i as int]] + row_rest(
                        vd,
                        max_distance as nat,
                        i as int,
                        j as int,
                    ),
            {
                let ghost prev_dv = row.deep_view();
                proof {
                    assert(vd[i as int] == vocab@[i as int]@);
                    assert(vd[j as int] == vocab@[j as int]@);
                }
                if j != i {
                    let dist = edit_distance(vocab[i].as_str(), vocab[j].as_str());
                    assert(dist as nat == damerau(vd[i as int], vd[j as int]));
                    if dist <= max_distance {
                        let w = vocab[j].clone();
                        assert(w@ == vd[j as int]);
                        row.push(w);
                        proof {
                            assert(row.deep_view() =~= prev_dv.push(vd[j as int]));
                            assert(row_rest(vd, max_distance as nat, i as int, j + 1) == row_rest(
                                vd,
                                max_distance as nat,
                                i as int,
                                j as int,
                            ).push(vd[j as int]));
                        }
                    }
                }
                assert(row.deep_view() =~= seq![vd[i as int]] + row_rest(
                    vd,
                    max_distance as nat,
                    i as int,
                    j + 1,
                ));
            }
            rows.push(row);
        }
        let table = AlternativeTable { vocab: vocab.clone(), rows, max_distance };
        proof {
            assert(table.vocab.deep_view() =~= vocab.deep_view());
        }
        table
    }

    /// Look a word up: its alternative list where the word is in the
    /// vocabulary, nothing where it is not.
    pub fn alternatives(&self, s: &str) -> (r: Option<&Vec<String>>)
        requires
            self.wf(),
        ensures
            r is Some <==> in_vocab(self.vocab_view(), s@),
            r is Some ==> r->0.deep_view() == row_spec(
                self.vocab_view(),
                self.distance(),
                first_index(self.vocab_view(), s@),
            ),
    {
        let key = s.to_owned();
        let n = self.vocab.len();
        for i in 0..n
            invariant
                self.wf(),
                n == self.vocab.len(),
                key@ == s@,
                forall|j: int| 0 <= j < i ==> self.vocab_view()[j] != s@,
        {
            if self.vocab[i] == key {
                proof {
                    assert(found_at(self.vocab_view(), s@, i as int));
                    lemma_first_index_found(self.vocab_view(), s@);
                    lemma_found_at_unique(
                        self.vocab_view(),
                        s@,
                        i as int,
                        first_index(self.vocab_view(), s@),
                    );
                }
                return Some(&self.rows[i]);
            }
            assert(self.vocab_view()[i as int] != s@);
        }
        assert(!in_vocab(self.vocab_view(), s@));
        None
    }
}

/// Everything the table promises of one row: the word itself stands first;
/// every other entry is a vocabulary word within distance `d` of it; and
/// every vocabulary word within distance `d` is an entry (exhaustiveness).
pub proof fn lemma_row_membership(vocab: Seq<Seq<char>>, d: nat, i: int)
    requires
        0 <= i < vocab.len(),
    ensures
        row_spec(vocab, d, i).len() >= 1,
        row_spec(vocab, d, i)[0] == vocab[i],
        forall|w: Seq<char>|
            #[trigger] row_spec(vocab, d, i).contains(w) && w != vocab[i] ==> in_vocab(vocab, w)
                && damerau(vocab[i], w) <= d,
        forall|j: int|
            0 <= j < vocab.len() && damerau(vocab[i], vocab[j]) <= d ==> row_spec(
                vocab,
                d,
                i,
            ).contains(#[trigger] vocab[j]),
{
    lemma_row_rest_membership(vocab, d, i, vocab.len() as int);
    let row = row_spec(vocab, d, i);
    let rest = row_rest(vocab, d, i, vocab.len() as int);
    assert(row[0] == vocab[i]);
    assert forall|w: Seq<char>| #[trigger] row.contains(w) && w != vocab[i] implies in_vocab(
        vocab,
        w,
    ) && damerau(vocab[i], w) <= d by {
        let k = choose|k: int| 0 <= k < row.len() && row[k] == w;
        assert(rest[k - 1] == w);
        assert(rest.contains(w));
    }
    assert forall|j: int|
        0 <= j < vocab.len() && damerau(vocab[i], vocab[j]) <= d implies row.contains(
        #[trigger] vocab[j],
    ) by {
        if j == i {
            assert(row[0] == vocab[j]);
        } else {
            assert(rest.contains(vocab[j]));
            let k = choose|k: int| 0 <= k < rest.len() && rest[k] == vocab[j];
            assert(row[k + 1] == vocab[j]);
        }
    }
}

/// Membership in the scanned part of a row: exactly the words at positions
/// other than `i` within distance `d`, drawn from `vocab[..j]`.
proof fn lemma_row_rest_membership(vocab: Seq<Seq<char>>, d: nat, i: int, j: int)
    requires
        0 <= i < vocab.len(),
        0 <= j <= vocab.len(),
    ensures
        forall|w: Seq<char>|
            #[trigger] row_rest(vocab, d, i, j).contains(w) ==> in_vocab(vocab, w) && damerau(
                vocab[i],
                w,
            ) <= d,
        forall|k: int|
            0 <= k < j && k != i && damerau(vocab[i], vocab[k]) <= d ==> row_rest(
                vocab,
                d,
                i,
                j,
            ).contains(#[trigger] vocab[k]),
    decreases j,
{
    if j > 0 {
        lemma_row_rest_membership(vocab, d, i, j - 1);
        let prev = row_rest(vocab, d, i, j - 1);
        let cur = row_rest(vocab, d, i, j);
        assert forall|w: Seq<char>| #[trigger] cur.contains(w) implies in_vocab(vocab, w)
            && damerau(vocab[i], w) <= d by {
            let k = choose|k: int| 0 <= k < cur.len() && cur[k] == w;
            if k < prev.len() {
                assert(prev[k] == w);
                assert(prev.contains(w));
            } else {
                assert(w == vocab[j - 1]);
                assert(0 <= j - 1 < vocab.len() && vocab[j - 1] == w);
            }
        }
        assert forall|k: int|
            0 <= k < j && k != i && damerau(vocab[i], vocab[k]) <= d implies cur.contains(
            #[trigger] vocab[k],
        ) by {
            if k < j - 1 {
                assert(prev.contains(vocab[k]));
                let m = choose|m: int| 0 <= m < prev.len() && prev[m] == vocab[k];
                assert(cur[m] == vocab[k]);
            } else {
                assert(cur[cur.len() - 1] == vocab[j - 1]);
            }
        }
    }
}

} // verus!
