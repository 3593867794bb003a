//! Lazy mixed-radix enumeration of spelling alternatives.
//!
//! A `Combinator` holds a per-position plan of candidate words. Its
//! iterator walks the Cartesian product of the plan without materializing
//! it: index `k` is decoded into one choice per position by mixed-radix
//! digit decomposition, position by position in increasing order.

use crate::spelling::{first_index, in_vocab, row_spec, AlternativeTable};
use vstd::arithmetic::div_mod::{
    lemma_fundamental_div_mod, lemma_fundamental_div_mod_converse_div,
    lemma_fundamental_div_mod_converse_mod, lemma_multiply_divide_lt,
};
use vstd::prelude::*;

verus! {

/// The per-position radices of a plan: how many candidate words each
/// position offers.
pub open spec fn radices_of(plan: Seq<Seq<Seq<char>>>) -> Seq<nat> {
    Seq::new(plan.len(), |i: int| plan[i].len())
}

/// Product of all radices: the number of distinct combinations.
pub open spec fn product_of(radix: Seq<nat>) -> nat
    decreases radix.len(),
{
    if radix.len() == 0 {
        1
    } else {
        radix[0] * product_of(radix.drop_first())
    }
}

/// Mixed-radix decomposition of `k`: the digit for position `i` is taken
/// modulo `radix[i]`, positions in increasing order.
pub open spec fn decode(k: nat, radix: Seq<nat>) -> Seq<nat>
    decreases radix.len(),
{
    if radix.len() == 0 {
        Seq::empty()
    } else {
        seq![k % radix[0]] + decode(k / radix[0], radix.drop_first())
    }
}

/// Mixed-radix recomposition: the sum of each digit times the running
/// radix of the positions before it.
pub open spec fn encode(digits: Seq<nat>, radix: Seq<nat>) -> nat
    decreases radix.len(),
{
    if radix.len() == 0 {
        0
    } else {
        digits[0] + radix[0] * encode(digits.drop_first(), radix.drop_first())
    }
}

/// Each digit is a valid choice for its position.
pub open spec fn digits_valid(digits: Seq<nat>, radix: Seq<nat>) -> bool {
    &&& digits.len() == radix.len()
    &&& forall|i: int| 0 <= i < radix.len() ==> digits[i] < radix[i]
}

/// The combination at index `k`: for every position, the word the decoded
/// digit selects from that position's candidate list.
pub open spec fn combination_spec(plan: Seq<Seq<Seq<char>>>, k: nat) -> Seq<Seq<char>> {
    Seq::new(plan.len(), |i: int| plan[i][decode(k, radices_of(plan))[i] as int])
}

/// A product over radices that are all at least one is at least one.
pub proof fn lemma_product_pos(radix: Seq<nat>)
    requires
        forall|i: int| 0 <= i < radix.len() ==> radix[i] >= 1,
    ensures
        product_of(radix) >= 1,
    decreases radix.len(),
{
    if radix.len() > 0 {
        lemma_product_pos(radix.drop_first());
        assert(radix[0] * product_of(radix.drop_first()) >= 1) by (nonlinear_arith)
            requires
                radix[0] >= 1,
                product_of(radix.drop_first()) >= 1,
        ;
    }
}

/// Peeling one position off the tail of the radix sequence divides the
/// product by that position's radix.
pub proof fn lemma_product_skip_unfold(radix: Seq<nat>, i: int)
    requires
        0 <= i < radix.len(),
    ensures
        product_of(radix.skip(i)) == radix[i] * product_of(radix.skip(i + 1)),
{
    assert(radix.skip(i).drop_first() =~= radix.skip(i + 1));
    assert(radix.skip(i)[0] == radix[i]);
}

/// Decoding yields one valid digit per position, whatever the index.
pub proof fn lemma_decode_valid(k: nat, radix: Seq<nat>)
    requires
        forall|i: int| 0 <= i < radix.len() ==> radix[i] >= 1,
    ensures
        digits_valid(decode(k, radix), radix),
    decreases radix.len(),
{
    if radix.len() > 0 {
        assert(k % radix[0] < radix[0]) by (nonlinear_arith)
            requires
                radix[0] >= 1,
        ;
        lemma_decode_valid(k / radix[0], radix.drop_first());
        let d = decode(k, radix);
        let rest = decode(k / radix[0], radix.drop_first());
        assert forall|i: int| 0 <= i < radix.len() implies d[i] < radix[i] by {
            if i > 0 {
                assert(d[i] == rest[i - 1]);
                assert(radix.drop_first()[i - 1] == radix[i]);
            }
        }
    }
}

/// Re-encoding the decoded digits of any in-range index gives that index
/// back: the enumeration omits nothing below the product.
pub proof fn lemma_encode_decode(k: nat, radix: Seq<nat>)
    requires
        forall|i: int| 0 <= i < radix.len() ==> radix[i] >= 1,
        k < product_of(radix),
    ensures
        encode(decode(k, radix), radix) == k,
    decreases radix.len(),
{
    if radix.len() == 0 {
        assert(k == 0);
    } else {
        let r0 = radix[0];
        let rest = radix.drop_first();
        lemma_product_pos(rest);
        assert(k < r0 * product_of(rest));
        lemma_multiply_divide_lt(k as int, r0 as int, product_of(rest) as int);
        lemma_encode_decode(k / r0, rest);
        let d = decode(k, radix);
        assert(d.drop_first() =~= decode(k / r0, rest));
        assert(d[0] == k % r0);
        assert(encode(d, radix) == k % r0 + r0 * (k / r0));
        lemma_fundamental_div_mod(k as int, r0 as int);
    }
}

/// Decoding the encoding of any valid digit choice gives those digits
/// back: every combination is reached from exactly one index.
pub proof fn lemma_decode_encode(digits: Seq<nat>, radix: Seq<nat>)
    requires
        digits_valid(digits, radix),
    ensures
        decode(encode(digits, radix), radix) == digits,
    decreases radix.len(),
{
    if radix.len() == 0 {
        assert(decode(encode(digits, radix), radix) =~= digits);
    } else {
        let r0 = radix[0];
        let rest = radix.drop_first();
        let drest = digits.drop_first();
        assert(digits_valid(drest, rest)) by {
            assert forall|i: int| 0 <= i < rest.len() implies drest[i] < rest[i] by {
                assert(drest[i] == digits[i + 1]);
                assert(rest[i] == radix[i + 1]);
            }
        }
        lemma_decode_encode(drest, rest);
        let e = encode(digits, radix);
        assert(e == digits[0] + r0 * encode(drest, rest));
        assert(e == encode(drest, rest) * r0 + digits[0]) by (nonlinear_arith)
            requires
                e == digits[0] + r0 * encode(drest, rest),
        ;
        lemma_fundamental_div_mod_converse_div(
            e as int,
            r0 as int,
            encode(drest, rest) as int,
            digits[0] as int,
        );
        lemma_fundamental_div_mod_converse_mod(
            e as int,
            r0 as int,
            encode(drest, rest) as int,
            digits[0] as int,
        );
        assert(e % r0 == digits[0]);
        assert(e / r0 == encode(drest, rest));
        assert(decode(e, radix) =~= digits);
    }
}

/// Encoding valid digits lands strictly below the product.
pub proof fn lemma_encode_bound(digits: Seq<nat>, radix: Seq<nat>)
    requires
        digits_valid(digits, radix),
    ensures
        encode(digits, radix) < product_of(radix),
    decreases radix.len(),
{
    if radix.len() > 0 {
        let r0 = radix[0];
        let rest = radix.drop_first();
        let drest = digits.drop_first();
        assert(digits_valid(drest, rest)) by {
            assert forall|i: int| 0 <= i < rest.len() implies drest[i] < rest[i] by {
                assert(drest[i] == digits[i + 1]);
                assert(rest[i] == radix[i + 1]);
            }
        }
        lemma_encode_bound(drest, rest);
        assert(digits[0] + r0 * encode(drest, rest) < r0 * product_of(rest)) by (nonlinear_arith)
            requires
                digits[0] < r0,
                encode(drest, rest) < product_of(rest),
        ;
    }
}

/// Distinct in-range indices decode to distinct digit choices: the
/// enumeration repeats nothing.
pub proof fn lemma_decode_injective(radix: Seq<nat>, k1: nat, k2: nat)
    requires
        forall|i: int| 0 <= i < radix.len() ==> radix[i] >= 1,
        k1 < product_of(radix),
        k2 < product_of(radix),
        k1 != k2,
    ensures
        decode(k1, radix) != decode(k2, radix),
{
    lemma_encode_decode(k1, radix);
    lemma_encode_decode(k2, radix);
}

/// Distinct in-range indices yield distinct word lists wherever no
/// position's candidate list repeats a word: the enumeration neither
/// repeats nor skips a combination.
pub proof fn lemma_combinations_distinct(plan: Seq<Seq<Seq<char>>>, k1: nat, k2: nat)
    requires
        forall|i: int| 0 <= i < plan.len() ==> (#[trigger] plan[i]).len() >= 1,
        forall|i: int, a: int, b: int|
            0 <= i < plan.len() && 0 <= a < plan[i].len() && 0 <= b < plan[i].len() && a != b
                ==> (#[trigger] plan[i][a]) != (#[trigger] plan[i][b]),
        k1 < product_of(radices_of(plan)),
        k2 < product_of(radices_of(plan)),
        k1 != k2,
    ensures
        combination_spec(plan, k1) != combination_spec(plan, k2),
{
    let nr = radices_of(plan);
    assert forall|i: int| 0 <= i < nr.len() implies nr[i] >= 1 by {
        assert(plan[i].len() >= 1);
    }
    lemma_decode_valid(k1, nr);
    lemma_decode_valid(k2, nr);
    lemma_decode_injective(nr, k1, k2);
    let d1 = decode(k1, nr);
    let d2 = decode(k2, nr);
    assert(exists|i: int| 0 <= i < d1.len() && d1[i] != d2[i]) by {
        if forall|i: int| 0 <= i < d1.len() ==> d1[i] == d2[i] {
            assert(d1 =~= d2);
        }
    }
    let i = choose|i: int| 0 <= i < d1.len() && d1[i] != d2[i];
    assert(d1[i] < plan[i].len() && d2[i] < plan[i].len());
    assert(plan[i][d1[i] as int] != plan[i][d2[i] as int]);
    assert(combination_spec(plan, k1)[i] != combination_spec(plan, k2)[i]);
}

#[derive(Debug)]
pub enum CombinatorError {
    InvalidSeedWord(usize, String),
}

pub struct Combinator {
    plan: Vec<Vec<String>>,
}

pub struct CombinatorIterator<'a> {
    combinator: &'a Combinator,
    i: u64,
    max: u64,
    radix: Vec<u64>,
}

impl Combinator {
    /// The plan: one candidate word list per input position.
    pub closed spec fn plan_view(&self) -> Seq<Seq<Seq<char>>> {
        self.plan.deep_view()
    }

    /// No position offers an empty candidate list.
    pub closed spec fn wf(&self) -> bool {
        forall|i: int| 0 <= i < self.plan_view().len() ==> (#[trigger] self.plan_view()[i]).len() >= 1
    }

    /// Build the plan for an input phrase: every word is looked up in the
    /// table; the first word absent from the vocabulary fails construction,
    /// identified by position and value.
    pub fn new_from_list(list: &Vec<String>, table: &AlternativeTable) -> (r: Result<
        Combinator,
        CombinatorError,
    >)
        requires
            table.wf(),
        ensures
            match r {
                Ok(c) => {
                    &&& c.wf()
                    &&& c.plan_view().len() == list.len()
                    &&& forall|i: int|
                        0 <= i < list.len() ==> in_vocab(
                            table.vocab_view(),
                            list.deep_view()[i],
                        )
                    &&& forall|i: int|
                        0 <= i < list.len() ==> (#[trigger] c.plan_view()[i]) == row_spec(
                            table.vocab_view(),
                            table.distance(),
                            first_index(table.vocab_view(), list.deep_view()[i]),
                        )
                    &&& forall|i: int|
                        0 <= i < list.len() ==> (#[trigger] c.plan_view()[i])[0]
                            == list.deep_view()[i]
                },
                Err(CombinatorError::InvalidSeedWord(k, w)) => {
                    &&& 0 <= k < list.len()
                    &&& !in_vocab(table.vocab_view(), list.deep_view()[k as int])
                    &&& forall|j: int|
                        0 <= j < k ==> in_vocab(table.vocab_view(), list.deep_view()[j])
                    &&& w@ == list.deep_view()[k as int]
                },
            },
    {
        let ghost vocab = table.vocab_view();
        let ghost ld = list.deep_view();
        let n = list.len();
        let mut plan: Vec<Vec<String>> = Vec::new();
        let mut idx: usize = 0;
        while idx < n
            invariant
                idx <= n,
                table.wf(),
                vocab == table.vocab_view(),
                ld == list.deep_view(),
                n == list.len(),
                plan.len() == idx,
                forall|j: int| 0 <= j < idx ==> in_vocab(vocab, ld[j]),
                forall|j: int|
                    0 <= j < idx ==> (#[trigger] plan.deep_view()[j]) == row_spec(
                        vocab,
                        table.distance(),
                        first_index(vocab, ld[j]),
                    ),
                forall|j: int|
                    0 <= j < idx ==> (#[trigger] plan.deep_view()[j]).len() >= 1
                        && plan.deep_view()[j][0] == ld[j],
            decreases n - idx,
        {
            let word = &list[idx];
            assert(word@ == ld[idx as int]);
            match table.alternatives(word.as_str()) {
                None => {
                    return Err(CombinatorError::InvalidSeedWord(idx, word.clone()));
                },
                Some(row) => {
                    let ghost prev = plan.deep_view();
                    let row_c = row.clone();
                    proof {
                        assert forall|m: int| 0 <= m < row@.len() implies row_c@[m]@
                            == row@[m]@ by {
                            assert(cloned::<String>(row@[m], row_c@[m]));
                        }
                        assert(row_c.deep_view() =~= row.deep_view());
                    }
                    plan.push(row_c);
                    proof {
                        assert(plan.deep_view() =~= prev.push(row_c.deep_view()));
                        let d = table.distance();
                        let k = first_index(vocab, word@);
                        crate::spelling::lemma_first_index_found(vocab, word@);
                        assert(plan.deep_view()[idx as int] == row_spec(vocab, d, k));
                        assert(row_spec(vocab, d, k)[0] == vocab[k]);
                        assert(plan.deep_view()[idx as int][0] == ld[idx as int]);
                    }
                },
            }
            idx = idx + 1;
        }
        let c = Combinator { plan };
        proof {
            assert(c.plan_view().len() == list.len());
        }
        Ok(c)
    }

    /// The number of combinations the plan offers, computed without
    /// enumerating, or nothing where that count does not fit in 64 bits.
    pub fn checked_size(&self) -> (r: Option<u64>)
        requires
            self.wf(),
        ensures
            r is Some <==> product_of(radices_of(self.plan_view())) <= u64::MAX,
            r is Some ==> r->0 as nat == product_of(radices_of(self.plan_view())),
    {
        let ghost nr = radices_of(self.plan_view());
        let ghost total = product_of(nr);
        proof {
            assert forall|j: int| 0 <= j < nr.len() implies nr[j] >= 1 by {
                assert(self.plan_view()[j].len() >= 1);
            }
            assert(nr.skip(0) =~= nr);
        }
        let n = self.plan.len();
        let mut max: u64 = 1;
        for idx in 0..n
            invariant
                self.wf(),
                n == self.plan@.len(),
                nr == radices_of(self.plan_view()),
                total == product_of(nr),
                nr.len() == n,
                forall|j: int| 0 <= j < nr.len() ==> nr[j] >= 1,
                max as nat * product_of(nr.skip(idx as int)) == total,
                max >= 1,
        {
            let depth_len = self.plan[idx].len();
            let depth = depth_len as u64;
            proof {
                assert(self.plan_view()[idx as int].len() == self.plan@[idx as int]@.len());
                assert(depth as nat == nr[idx as int]);
                lemma_product_skip_unfold(nr, idx as int);
                assert forall|j: int|
                    #![trigger nr.skip(idx as int + 1)[j]]
                    0 <= j < nr.skip(idx as int + 1).len() implies nr.skip(idx as int + 1)[j]
                    >= 1 by {
                    assert(nr.skip(idx as int + 1)[j] == nr[idx as int + 1 + j]);
                }
                lemma_product_pos(nr.skip(idx as int + 1));
            }
            let ghost p = product_of(nr.skip(idx as int + 1));
            if max > u64::MAX / depth {
                proof {
                    lemma_fundamental_div_mod(u64::MAX as int, depth as int);
                    assert(max as nat * depth as nat > u64::MAX) by (nonlinear_arith)
                        requires
                            (max as int) > (u64::MAX as int) / (depth as int),
                            u64::MAX as int == (depth as int) * ((u64::MAX as int) / (
                            depth as int)) + (u64::MAX as int) % (depth as int),
                            0 <= (u64::MAX as int) % (depth as int) < depth as int,
                            depth >= 1,
                    ;
                    assert(total > u64::MAX) by (nonlinear_arith)
                        requires
                            max as nat * (depth as nat * p) == total,
                            max as nat * depth as nat > u64::MAX,
                            p >= 1,
                    ;
                }
                return None;
            }
            proof {
                lemma_fundamental_div_mod(u64::MAX as int, depth as int);
                assert(max as nat * depth as nat <= u64::MAX) by (nonlinear_arith)
                    requires
                        (max as int) <= (u64::MAX as int) / (depth as int),
                        u64::MAX as int == (depth as int) * ((u64::MAX as int) / (depth as int)) + (
                        u64::MAX as int) % (depth as int),
                        0 <= (u64::MAX as int) % (depth as int),
                        depth >= 1,
                        max >= 1,
                ;
                assert((max as nat * depth as nat) * p == total && max as nat * depth as nat
                    >= 1) by (nonlinear_arith)
                    requires
                        max as nat * (depth as nat * p) == total,
                        max >= 1,
                        depth >= 1,
                ;
            }
            max = max * depth;
        }
        proof {
            assert(nr.skip(n as int) =~= Seq::<nat>::empty());
            assert(product_of(nr.skip(n as int)) == 1);
            assert(max as nat == total) by (nonlinear_arith)
                requires
                    max as nat * product_of(nr.skip(n as int)) == total,
                    product_of(nr.skip(n as int)) == 1,
            ;
        }
        Some(max)
    }

    /// An iterator over every combination of one candidate per position,
    /// starting at index zero.
    pub fn iter(&self) -> (r: CombinatorIterator)
        requires
            self.wf(),
            product_of(radices_of(self.plan_view())) <= u64::MAX,
        ensures
            r.wf(),
            r.plan_view() == self.plan_view(),
            r.pos() == 0,
            r.size_spec() == product_of(radices_of(self.plan_view())),
    {
        let n = self.plan.len();
        let mut radix: Vec<u64> = Vec::new();
        for i in 0..n
            invariant
                self.wf(),
                n == self.plan.len(),
                radix@.len() == i,
                forall|j: int|
                    0 <= j < i ==> (#[trigger] radix@[j]) as nat == self.plan_view()[j].len()
                        && radix@[j] >= 1,
        {
            assert(self.plan_view()[i as int].len() >= 1);
            assert(self.plan_view()[i as int].len() == self.plan@[i as int]@.len());
            radix.push(self.plan[i].len() as u64);
        }
        CombinatorIterator::new(self, radix)
    }
}

impl<'a> CombinatorIterator<'a> {
    /// The plan being enumerated.
    pub closed spec fn plan_view(&self) -> Seq<Seq<Seq<char>>> {
        self.combinator.plan.deep_view()
    }

    /// The next index to be produced.
    pub closed spec fn pos(&self) -> nat {
        self.i as nat
    }

    /// The total number of combinations.
    pub closed spec fn size_spec(&self) -> nat {
        self.max as nat
    }

    /// The stored radices match the plan, and the stored bound is their
    /// product.
    pub closed spec fn wf(&self) -> bool {
        &&& self.radix@.len() == self.plan_view().len()
        &&& forall|j: int|
            0 <= j < self.radix@.len() ==> (#[trigger] self.radix@[j]) as nat == radices_of(
                self.plan_view(),
            )[j] && self.radix@[j] >= 1
        &&& self.max as nat == product_of(radices_of(self.plan_view()))
        &&& self.i <= self.max
    }

    /// Compute the product of all the choices that could be made, and
    /// start the enumeration at index zero.
    fn new(combinator: &'a Combinator, radix: Vec<u64>) -> (r: Self)
        requires
            radix@.len() == combinator.plan_view().len(),
            forall|j: int|
                0 <= j < radix@.len() ==> (#[trigger] radix@[j]) as nat
                    == combinator.plan_view()[j].len() && radix@[j] >= 1,
            product_of(radices_of(combinator.plan_view())) <= u64::MAX,
        ensures
            r.wf(),
            r.plan_view() == combinator.plan_view(),
            r.pos() == 0,
            r.size_spec() == product_of(radices_of(combinator.plan_view())),
    {
        let ghost nr = radices_of(combinator.plan_view());
        let ghost total = product_of(nr);
        assert(nr.skip(0) =~= nr);
        let n = radix.len();
        let mut max: u64 = 1;
        for idx in 0..n
            invariant
                n == radix@.len(),
                nr == radices_of(combinator.plan_view()),
                total == product_of(nr),
                total <= u64::MAX,
                nr.len() == n,
                forall|j: int|
                    0 <= j < radix@.len() ==> (#[trigger] radix@[j]) as nat == nr[j] && radix@[j]
                        >= 1,
                max as nat * product_of(nr.skip(idx as int)) == total,
        {
            let depth = radix[idx];
            proof {
                lemma_product_skip_unfold(nr, idx as int);
                assert forall|j: int|
                    #![trigger nr.skip(idx as int + 1)[j]]
                    0 <= j < nr.skip(idx as int + 1).len() implies nr.skip(idx as int + 1)[j]
                    >= 1 by {
                    assert(nr.skip(idx as int + 1)[j] == nr[idx as int + 1 + j]);
                    assert(radix@[idx as int + 1 + j] as nat == nr[idx as int + 1 + j]);
                }
                lemma_product_pos(nr.skip(idx as int + 1));
                let m = max as nat;
                let d = depth as nat;
                let p = product_of(nr.skip(idx as int + 1));
                assert((m * d) * p == total && m * d <= total) by (nonlinear_arith)
                    requires
                        m * (d * p) == total,
                        p >= 1,
                        m >= 0,
                        d >= 0,
                ;
            }
            max = max * depth;
        }
        proof {
            assert(nr.skip(n as int) =~= Seq::<nat>::empty());
            assert(product_of(nr.skip(n as int)) == 1);
            assert(max as nat == total) by (nonlinear_arith)
                requires
                    max as nat * product_of(nr.skip(n as int)) == total,
                    product_of(nr.skip(n as int)) == 1,
            ;
        }
        Self { combinator, i: 0, max, radix }
    }

    /// How many combinations the enumeration yields in all, available
    /// without enumerating.
    pub fn size(&self) -> (r: u64)
        requires
            self.wf(),
        ensures
            r as nat == self.size_spec(),
            r as nat == product_of(radices_of(self.plan_view())),
    {
        self.max
    }

    /// The stored total is the product of the radices: what `wf` pins
    /// down, stated for callers outside this module.
    pub proof fn lemma_size(&self)
        requires
            self.wf(),
        ensures
            self.size_spec() == product_of(radices_of(self.plan_view())),
    {
    }

    /// The combination at index `k`, by mixed-radix decomposition: the
    /// digit for each position, taken in increasing order, selects that
    /// position's word. Random access: any index can be decoded without
    /// walking the ones before it.
    pub fn at(&self, k: u64) -> (r: Vec<String>)
        requires
            self.wf(),
            (k as nat) < self.size_spec(),
        ensures
            r.deep_view() == combination_spec(self.plan_view(), k as nat),
    {
        let ghost plan_dv = self.plan_view();
        let ghost nr = radices_of(plan_dv);
        let ghost k0 = k as nat;
        proof {
            assert forall|j: int| 0 <= j < nr.len() implies nr[j] >= 1 by {
                assert(self.radix@[j] as nat == nr[j]);
            }
            lemma_decode_valid(k0, nr);
        }
        let ghost digits = decode(k0, nr);
        let mut k = k;
        let n = self.radix.len();
        let mut out: Vec<String> = Vec::new();
        assert(nr.skip(0) =~= nr);
        assert(digits.skip(0) =~= digits);
        assert(out.deep_view() =~= combination_spec(plan_dv, k0).take(0));
        for idx in 0..n
            invariant
                self.wf(),
                n == self.radix@.len(),
                plan_dv == self.plan_view(),
                nr == radices_of(plan_dv),
                digits == decode(k0, nr),
                digits_valid(digits, nr),
                decode(k as nat, nr.skip(idx as int)) == digits.skip(idx as int),
                out.deep_view() =~= combination_spec(plan_dv, k0).take(idx as int),
        {
            let depth = self.radix[idx];
            let ghost kb = k as nat;
            let ghost tail = decode(kb / nr[idx as int], nr.skip(idx as int + 1));
            proof {
                assert(self.radix@[idx as int] as nat == nr[idx as int]);
                assert(nr.skip(idx as int)[0] == nr[idx as int]);
                assert(nr.skip(idx as int).drop_first() =~= nr.skip(idx as int + 1));
                assert(decode(kb, nr.skip(idx as int)) == seq![kb % nr[idx as int]] + tail);
                assert((seq![kb % nr[idx as int]] + tail)[0] == kb % nr[idx as int]);
                assert((seq![kb % nr[idx as int]] + tail).drop_first() =~= tail);
                assert(digits.skip(idx as int)[0] == digits[idx as int]);
                assert(digits.skip(idx as int).drop_first() =~= digits.skip(idx as int + 1));
                assert(digits[idx as int] == kb % nr[idx as int]);
                assert(digits.skip(idx as int + 1) == tail);
            }
            let choice = k % depth;
            proof {
                assert(choice as nat == digits[idx as int]);
                assert(digits[idx as int] < nr[idx as int]);
                assert(plan_dv[idx as int] == self.combinator.plan@[idx as int].deep_view());
                assert(plan_dv[idx as int].len() == self.combinator.plan@[idx as int]@.len());
                assert((choice as nat) < self.combinator.plan@[idx as int]@.len());
            }
            k = k / depth;
            proof {
                assert(k as nat == kb / nr[idx as int]);
                assert(decode(k as nat, nr.skip(idx as int + 1)) == digits.skip(idx as int + 1));
            }
            let ghost prev = out.deep_view();
            let row_ref = &self.combinator.plan[idx];
            let rl = row_ref.len();
            proof {
                assert(rl == plan_dv[idx as int].len());
                assert((choice as nat) < rl as nat);
                assert((choice as usize) as int == choice as int);
            }
            let w = row_ref[choice as usize].clone();
            proof {
                assert(plan_dv[idx as int][choice as int] == self.combinator.plan@[idx as int]@[
                    choice as int]@);
                assert(w@ == plan_dv[idx as int][digits[idx as int] as int]);
            }
            out.push(w);
            proof {
                assert(out.deep_view() =~= prev.push(w@));
                assert(out.deep_view() =~= combination_spec(plan_dv, k0).take(idx as int + 1));
            }
        }
        proof {
            assert(combination_spec(plan_dv, k0).take(n as int) =~= combination_spec(
                plan_dv,
                k0,
            ));
        }
        out
    }

    /// Produce the combination at the current index and advance, or
    /// nothing once every index has been produced.
    pub fn next(&mut self) -> (r: Option<Vec<String>>)
        requires
            old(self).wf(),
        ensures
            final(self).wf(),
            final(self).plan_view() == old(self).plan_view(),
            final(self).size_spec() == old(self).size_spec(),
            old(self).pos() == old(self).size_spec() ==> r is None && final(self).pos() == old(
                self,
            ).pos(),
            old(self).pos() < old(self).size_spec() ==> {
                &&& r is Some
                &&& final(self).pos() == old(self).pos() + 1
                &&& r->0.deep_view() == combination_spec(old(self).plan_view(), old(self).pos())
            },
    {
        if self.i == self.max {
            return None;
        }
        let out = self.at(self.i);
        self.i = self.i + 1;
        Some(out)
    }
}

} // verus!
