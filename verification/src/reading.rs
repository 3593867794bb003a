//! Different ways that humans might read a list of words that they have
//! written down.
//!
//! A seed phrase is typically written in two columns of equal length,
//! first half in the left column, second half in the right. This module
//! computes the ways in which such a list is misread: columns swapped,
//! rows read across, or both.

use vstd::prelude::*;

verus! {

#[derive(Debug)]
pub enum ReadingError {
    WordsUneven,
}

/// The reading that keeps every position where it is.
pub open spec fn identity_spec(n: nat) -> Seq<u8> {
    Seq::new(n, |i: int| i as u8)
}

/// The reading with the columns in the wrong order: each position moves
/// forward by half the length, wrapping around.
pub open spec fn transpose_spec(v: Seq<u8>) -> Seq<u8> {
    Seq::new(v.len(), |i: int| (((v[i] as int) + (v.len() as int) / 2) % (v.len() as int)) as u8)
}

/// The reading taken row by row: the two halves interleaved.
pub open spec fn rowise_spec(v: Seq<u8>) -> Seq<u8> {
    Seq::new(
        v.len(),
        |i: int|
            if i % 2 == 0 {
                v[i / 2]
            } else {
                v[v.len() / 2 + i / 2]
            },
    )
}

/// One reading after another, as maps of positions: the position `k` of
/// the result is position `q[k]` of `p`.
pub open spec fn compose(p: Seq<u8>, q: Seq<u8>) -> Seq<u8> {
    Seq::new(q.len(), |k: int| p[q[k] as int])
}

/// Produce a reading where the columns are written in the wrong order
/// (second column first, first column second).
pub fn transpose_columns(v: &Vec<u8>) -> (r: Vec<u8>)
    requires
        v@.len() % 2 == 0,
        v@.len() <= 255,
    ensures
        r@ == transpose_spec(v@),
{
    let len = v.len();
    let column_len = (len as u8) / 2;
    let mut res: Vec<u8> = Vec::new();
    for i in 0..len
        invariant
            len == v@.len(),
            len <= 255,
            column_len == (len as int) / 2,
            res@.len() == i,
            forall|j: int| 0 <= j < i ==> res@[j] == transpose_spec(v@)[j],
    {
        let x = v[i];
        let moved = ((x as u16 + column_len as u16) % (len as u16)) as u8;
        proof {
            assert(moved == transpose_spec(v@)[i as int]);
        }
        res.push(moved);
    }
    proof {
        assert(res@ =~= transpose_spec(v@));
    }
    res
}

/// Produce a reading where the columns are written down row-wise.
pub fn read_rowise(v: &Vec<u8>) -> (r: Vec<u8>)
    requires
        v@.len() % 2 == 0,
    ensures
        r@ == rowise_spec(v@),
{
    let len = v.len();
    let column_len = len / 2;
    let mut res: Vec<u8> = Vec::new();
    for k in 0..column_len
        invariant
            len == v@.len(),
            len % 2 == 0,
            column_len == (len as int) / 2,
            res@.len() == 2 * k,
            forall|j: int| 0 <= j < 2 * k ==> res@[j] == rowise_spec(v@)[j],
    {
        let a = v[k];
        let b = v[column_len + k];
        res.push(a);
        res.push(b);
        proof {
            assert(res@[2 * k as int] == rowise_spec(v@)[2 * k as int]);
            assert(res@[2 * k as int + 1] == rowise_spec(v@)[2 * k as int + 1]);
        }
    }
    proof {
        assert(res@ =~= rowise_spec(v@));
    }
    res
}

/// The catalog of plausible misreadings of an even-length list: the
/// order as written, the columns swapped, the rows read across, and the
/// rows read across after a column swap. An odd length has no columns
/// and is refused.
pub fn generate_readings(num_words: u8) -> (r: Result<Vec<Vec<u8>>, ReadingError>)
    ensures
        r is Err <==> num_words % 2 != 0,
        r is Ok ==> {
            let out = r->Ok_0.deep_view();
            let n = num_words as nat;
            &&& out.len() == 4
            &&& out[0] == identity_spec(n)
            &&& out[1] == transpose_spec(identity_spec(n))
            &&& out[2] == rowise_spec(identity_spec(n))
            &&& out[3] == rowise_spec(transpose_spec(identity_spec(n)))
            &&& forall|j: int|
                0 <= j < 4 ==> (#[trigger] out[j]).len() == n && forall|p: int|
                    0 <= p < n ==> (#[trigger] out[j][p]) < num_words
        },
{
    if num_words % 2 != 0 {
        return Err(ReadingError::WordsUneven);
    }
    let ghost n = num_words as nat;
    let mut base: Vec<u8> = Vec::new();
    for i in 0..num_words
        invariant
            base@.len() == i,
            forall|j: int| 0 <= j < i ==> base@[j] == identity_spec(num_words as nat)[j],
    {
        base.push(i);
        proof {
            assert(base@[i as int] == identity_spec(num_words as nat)[i as int]);
        }
    }
    proof {
        assert(base@ =~= identity_spec(n));
    }
    let t = transpose_columns(&base);
    let rw = read_rowise(&base);
    let rwt = read_rowise(&t);
    let mut res: Vec<Vec<u8>> = Vec::new();
    res.push(base);
    res.push(t);
    res.push(rw);
    res.push(rwt);
    proof {
        assert(res.deep_view().len() == 4);
        assert(res.deep_view()[0] == identity_spec(n));
        assert(res.deep_view()[1] == transpose_spec(identity_spec(n)));
        assert(res.deep_view()[2] == rowise_spec(identity_spec(n)));
        assert(res.deep_view()[3] == rowise_spec(transpose_spec(identity_spec(n))));
        let out = res.deep_view();
        assert forall|j: int| 0 <= j < 4 implies (#[trigger] out[j]).len() == n && forall|p: int|
            0 <= p < n ==> (#[trigger] out[j][p]) < num_words by {
            assert forall|p: int| 0 <= p < n implies (#[trigger] out[j][p]) < num_words by {
                lemma_reading_entry_bounds(n, j, p);
            }
        }
    }
    Ok(res)
}

/// Every entry of every catalog reading is a position below `n`.
proof fn lemma_reading_entry_bounds(n: nat, j: int, p: int)
    requires
        n % 2 == 0,
        n <= 255,
        0 <= p < n,
        0 <= j < 4,
    ensures
        j == 0 ==> identity_spec(n)[p] < n,
        j == 1 ==> transpose_spec(identity_spec(n))[p] < n,
        j == 2 ==> rowise_spec(identity_spec(n))[p] < n,
        j == 3 ==> rowise_spec(transpose_spec(identity_spec(n)))[p] < n,
{
    let id = identity_spec(n);
    assert(forall|q: int| 0 <= q < n ==> id[q] == q as u8 && (#[trigger] id[q]) < n);
    let tr = transpose_spec(id);
    assert forall|q: int| 0 <= q < n implies (#[trigger] tr[q]) < n by {
        assert(((id[q] as int) + (n as int) / 2) % (n as int) < n as int) by (nonlinear_arith)
            requires
                n > 0,
        ;
        assert(((id[q] as int) + (n as int) / 2) % (n as int) >= 0) by (nonlinear_arith)
            requires
                n > 0,
                id[q] as int >= 0,
                (n as int) / 2 >= 0,
        ;
    }
    let rw = rowise_spec(id);
    let rwt = rowise_spec(tr);
    if j == 2 {
        if p % 2 == 0 {
            assert(rw[p] == id[p / 2]);
        } else {
            assert(rw[p] == id[n as int / 2 + p / 2]);
        }
    }
    if j == 3 {
        if p % 2 == 0 {
            assert(rwt[p] == tr[p / 2]);
        } else {
            assert(rwt[p] == tr[n as int / 2 + p / 2]);
        }
    }
}

/// The identity reading composed with itself is the identity.
pub proof fn lemma_identity_involution(n: nat)
    requires
        n <= 255,
    ensures
        compose(identity_spec(n), identity_spec(n)) == identity_spec(n),
{
    let id = identity_spec(n);
    assert forall|k: int| 0 <= k < n implies compose(id, id)[k] == id[k] by {
        assert(id[k] == k as u8);
        assert((k as u8) as int == k);
    }
    assert(compose(id, id) =~= id);
}

/// The column swap composed with itself is the identity: moving forward
/// by half the length twice wraps back to the start.
pub proof fn lemma_column_swap_involution(n: nat)
    requires
        n % 2 == 0,
        n <= 255,
    ensures
        compose(transpose_spec(identity_spec(n)), transpose_spec(identity_spec(n)))
            == identity_spec(n),
{
    let id = identity_spec(n);
    let tr = transpose_spec(id);
    let c = (n as int) / 2;
    assert forall|k: int| 0 <= k < n implies compose(tr, tr)[k] == id[k] by {
        assert(id[k] == k as u8);
        assert(tr[k] == ((k + c) % (n as int)) as u8);
        if k < c {
            assert((k + c) % (n as int) == k + c) by {
                vstd::arithmetic::div_mod::lemma_small_mod((k + c) as nat, n);
            }
            assert(tr[k] == (k + c) as u8);
            assert(tr[(k + c) as int] == ((k + c + c) % (n as int)) as u8);
            assert((k + c + c) % (n as int) == k) by {
                vstd::arithmetic::div_mod::lemma_mod_add_multiples_vanish(k, n as int);
                vstd::arithmetic::div_mod::lemma_small_mod(k as nat, n);
            }
        } else {
            assert((k + c) % (n as int) == k - c) by {
                vstd::arithmetic::div_mod::lemma_mod_add_multiples_vanish(k - c, n as int);
                vstd::arithmetic::div_mod::lemma_small_mod((k - c) as nat, n);
            }
            assert(tr[k] == (k - c) as u8);
            assert(tr[(k - c) as int] == ((k - c + c) % (n as int)) as u8);
            assert((k - c + c) % (n as int) == k) by {
                vstd::arithmetic::div_mod::lemma_small_mod(k as nat, n);
            }
        }
    }
    assert(compose(tr, tr) =~= id);
}

/// For any even length of at least four, the four catalog readings are
/// pairwise distinct: they already differ within the first two positions.
pub proof fn lemma_readings_distinct(n: nat)
    requires
        n % 2 == 0,
        4 <= n <= 255,
    ensures
        identity_spec(n) != transpose_spec(identity_spec(n)),
        identity_spec(n) != rowise_spec(identity_spec(n)),
        identity_spec(n) != rowise_spec(transpose_spec(identity_spec(n))),
        transpose_spec(identity_spec(n)) != rowise_spec(identity_spec(n)),
        transpose_spec(identity_spec(n)) != rowise_spec(transpose_spec(identity_spec(n))),
        rowise_spec(identity_spec(n)) != rowise_spec(transpose_spec(identity_spec(n))),
{
    let id = identity_spec(n);
    let tr = transpose_spec(id);
    let rw = rowise_spec(id);
    let rwt = rowise_spec(tr);
    let c = (n as int) / 2;
    assert(id[0] == 0u8 && id[1] == 1u8);
    assert(tr[0] == ((0 + c) % (n as int)) as u8);
    assert(c % (n as int) == c) by {
        vstd::arithmetic::div_mod::lemma_small_mod(c as nat, n);
    }
    assert(tr[0] == c as u8);
    assert((1 + c) % (n as int) == 1 + c) by {
        vstd::arithmetic::div_mod::lemma_small_mod((1 + c) as nat, n);
    }
    assert(tr[1] == (1 + c) as u8);
    assert(rw[0] == id[0] && rw[1] == id[c]);
    assert(rw[1] == c as u8);
    assert(rwt[0] == tr[0] && rwt[1] == tr[c]);
    assert(tr[c] == ((c + c) % (n as int)) as u8);
    assert((c + c) % (n as int) == 0) by {
        vstd::arithmetic::div_mod::lemma_mod_self_0(n as int);
    }
    assert(rwt[1] == 0u8);
    assert(c >= 2);
    assert(id[1] != rw[1]);
    assert(id[0] != tr[0]);
    assert(tr[1] != rwt[1]);
    assert(rw[0] != rwt[0]);
    assert(id[0] != rwt[0]);
    assert(tr[0] != rw[0]);
}

} // verus!
