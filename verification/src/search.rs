//! The search driver: the full candidate stream and the decisions taken
//! on each oracle outcome.
//!
//! The stream is the Cartesian product of the combination enumeration
//! with the reading catalog: combinations outermost, readings innermost,
//! every candidate carrying a 1-based sequence number. The oracle itself
//! is outside this crate; the driver hands candidates out and turns each
//! outcome into the action the search takes next.

use crate::combinator::{combination_spec, decode, product_of, radices_of, CombinatorIterator};
use crate::reading::identity_spec;
use vstd::prelude::*;

verus! {

/// A word list reordered by a reading: position `k` of the result is
/// position `p[k]` of the input.
pub open spec fn apply_perm(v: Seq<Seq<char>>, p: Seq<u8>) -> Seq<Seq<char>> {
    Seq::new(p.len(), |k: int| v[p[k] as int])
}

/// The candidate at flat index `k` of the stream: the combination at
/// `k / |readings|`, reordered by the reading at `k % |readings|`.
pub open spec fn candidate_spec(
    plan: Seq<Seq<Seq<char>>>,
    readings: Seq<Seq<u8>>,
    k: int,
) -> Seq<Seq<char>> {
    apply_perm(
        combination_spec(plan, (k / readings.len() as int) as nat),
        readings[k % readings.len() as int],
    )
}

/// Given a nominal reading of a seed phrase, return an alternate reading
/// of the phrase, with the words swapped according to the provided
/// reading order schedule.
pub fn phrase_from_misreading(phrase: &Vec<String>, reading_order: &Vec<u8>) -> (r: Vec<String>)
    requires
        forall|k: int|
            0 <= k < reading_order@.len() ==> (#[trigger] reading_order@[k]) < phrase@.len(),
    ensures
        r.deep_view() == apply_perm(phrase.deep_view(), reading_order@),
{
    let n = reading_order.len();
    let mut r: Vec<String> = Vec::new();
    for k in 0..n
        invariant
            n == reading_order@.len(),
            forall|m: int|
                0 <= m < reading_order@.len() ==> (#[trigger] reading_order@[m]) < phrase@.len(),
            r@.len() == k,
            forall|m: int|
                0 <= m < k ==> (#[trigger] r.deep_view()[m]) == apply_perm(
                    phrase.deep_view(),
                    reading_order@,
                )[m],
    {
        let pos = reading_order[k];
        let w = phrase[pos as usize].clone();
        let ghost prev = r.deep_view();
        proof {
            assert(phrase.deep_view()[pos as int] == phrase@[pos as int]@);
            assert(w@ == phrase.deep_view()[pos as int]);
        }
        r.push(w);
        proof {
            assert(r.deep_view() =~= prev.push(w@));
            assert(r.deep_view()[k as int] == apply_perm(phrase.deep_view(), reading_order@)[
                k as int]);
        }
    }
    proof {
        assert(r.deep_view() =~= apply_perm(phrase.deep_view(), reading_order@));
    }
    r
}

/// Whether per-candidate reporting is wanted; the reporting itself is a
/// closure the caller brings.
pub struct Verbosity {
    verbose: bool,
}

impl Verbosity {
    /// Whether this setting asks for reporting.
    pub closed spec fn is_verbose(&self) -> bool {
        self.verbose
    }

    pub fn verbose(v: bool) -> (r: Verbosity)
        ensures
            r.is_verbose() == v,
    {
        Verbosity { verbose: v }
    }

    /// Run the reporting closure only when reporting is wanted.
    pub fn show<F: FnOnce()>(&self, f: F)
        requires
            self.is_verbose() ==> call_requires(f, ()),
    {
        if self.verbose {
            f()
        }
    }
}

/// What the oracle said of one candidate: a valid phrase with its derived
/// identity, a phrase whose checksum fails, or a failure outside that
/// dichotomy.
pub enum OracleOutcome {
    Valid { key: String },
    InvalidChecksum,
    Fatal,
}

/// What the search does next: stop with a match, note a valid phrase and
/// go on, skip an invalid one, or abort the whole search.
pub enum SearchAction {
    Stop { key: String },
    Note { key: String },
    Skip,
    Abort,
}

/// The decision taken on one oracle outcome: a valid phrase whose
/// identity equals the target stops the search; any other valid phrase
/// is noted; an invalid checksum is skipped; anything else aborts.
pub fn judge(outcome: OracleOutcome, target: &Option<String>) -> (r: SearchAction)
    ensures
        ({
            match outcome {
                OracleOutcome::Valid { key } => match target {
                    Some(t) => if key@ == t@ {
                        r == (SearchAction::Stop { key })
                    } else {
                        r == (SearchAction::Note { key })
                    },
                    None => r == (SearchAction::Note { key }),
                },
                OracleOutcome::InvalidChecksum => r == SearchAction::Skip,
                OracleOutcome::Fatal => r == SearchAction::Abort,
            }
        }),
{
    match outcome {
        OracleOutcome::Valid { key } => match target {
            Some(t) => {
                if *t == key {
                    SearchAction::Stop { key }
                } else {
                    SearchAction::Note { key }
                }
            },
            None => SearchAction::Note { key },
        },
        OracleOutcome::InvalidChecksum => SearchAction::Skip,
        OracleOutcome::Fatal => SearchAction::Abort,
    }
}

/// The flat, numbered candidate stream: combinations outermost, readings
/// innermost. Holding only the enumeration index, it walks the whole
/// space lazily and restarts nowhere.
pub struct SearchDriver<'a> {
    inner: CombinatorIterator<'a>,
    readings: Vec<Vec<u8>>,
    k: u64,
    total: u64,
}

impl<'a> SearchDriver<'a> {
    /// The plan whose combinations are enumerated.
    pub closed spec fn plan_view(&self) -> Seq<Seq<Seq<char>>> {
        self.inner.plan_view()
    }

    /// The reading catalog.
    pub closed spec fn readings_view(&self) -> Seq<Seq<u8>> {
        self.readings.deep_view()
    }

    /// The flat index of the next candidate.
    pub closed spec fn position(&self) -> nat {
        self.k as nat
    }

    /// How many candidates the stream holds in all.
    pub closed spec fn total_spec(&self) -> nat {
        self.total as nat
    }

    /// The enumeration state is consistent: the total is the combination
    /// count times the reading count, and every reading is a full, in-range
    /// position list for the plan.
    pub closed spec fn wf(&self) -> bool {
        &&& self.inner.wf()
        &&& self.readings@.len() >= 1
        &&& self.total as nat == product_of(radices_of(self.plan_view())) * self.readings@.len()
        &&& self.k <= self.total
        &&& forall|j: int|
            0 <= j < self.readings@.len() ==> (#[trigger] self.readings_view()[j]).len()
                == self.plan_view().len()
        &&& forall|j: int, p: int|
            0 <= j < self.readings@.len() && 0 <= p < self.readings_view()[j].len() ==> (
            #[trigger] self.readings_view()[j][p]) < self.plan_view().len()
    }

    /// Compose the combination enumeration with the reading catalog,
    /// starting at the first candidate.
    pub fn new(inner: CombinatorIterator<'a>, readings: Vec<Vec<u8>>) -> (r: SearchDriver<'a>)
        requires
            inner.wf(),
            readings@.len() >= 1,
            product_of(radices_of(inner.plan_view())) * readings@.len() <= u64::MAX,
            forall|j: int|
                0 <= j < readings@.len() ==> (#[trigger] readings.deep_view()[j]).len()
                    == inner.plan_view().len(),
            forall|j: int, p: int|
                0 <= j < readings@.len() && 0 <= p < readings.deep_view()[j].len() ==> (
                #[trigger] readings.deep_view()[j][p]) < inner.plan_view().len(),
        ensures
            r.wf(),
            r.plan_view() == inner.plan_view(),
            r.readings_view() == readings.deep_view(),
            r.position() == 0,
            r.total_spec() == product_of(radices_of(inner.plan_view())) * readings@.len(),
    {
        let size = inner.size();
        let r_len = readings.len() as u64;
        proof {
            assert((size as nat) * (r_len as nat) <= u64::MAX);
        }
        let total = size * r_len;
        SearchDriver { inner, readings, k: 0, total }
    }

    /// The total candidate count, available before any enumeration.
    pub fn total(&self) -> (r: u64)
        requires
            self.wf(),
        ensures
            r as nat == self.total_spec(),
    {
        self.total
    }

    /// Hand out the next candidate with its 1-based sequence number, or
    /// nothing once the space is exhausted.
    pub fn next_candidate(&mut self) -> (r: Option<(u64, Vec<String>)>)
        requires
            old(self).wf(),
        ensures
            final(self).wf(),
            final(self).plan_view() == old(self).plan_view(),
            final(self).readings_view() == old(self).readings_view(),
            final(self).total_spec() == old(self).total_spec(),
            old(self).position() == old(self).total_spec() ==> r is None && final(self).position()
                == old(self).position(),
            old(self).position() < old(self).total_spec() ==> final(self).position() == old(
                self,
            ).position() + 1 && (r matches Some(sc) && sc.0 as nat == old(self).position() + 1
                && sc.1.deep_view() == candidate_spec(
                old(self).plan_view(),
                old(self).readings_view(),
                old(self).position() as int,
            )),
    {
        if self.k == self.total {
            return None;
        }
        let ghost plan = self.plan_view();
        let ghost rds = self.readings_view();
        let ghost k0 = self.k as int;
        let r_len = self.readings.len() as u64;
        let combo_idx = self.k / r_len;
        let reading_idx = (self.k % r_len) as usize;
        proof {
            self.inner.lemma_size();
            let prod = product_of(radices_of(plan));
            assert((self.k as int) < (r_len as int) * (prod as int)) by (nonlinear_arith)
                requires
                    (self.k as nat) < prod * (r_len as nat),
            ;
            vstd::arithmetic::div_mod::lemma_multiply_divide_lt(
                self.k as int,
                r_len as int,
                prod as int,
            );
            assert((combo_idx as nat) < prod);
            assert((self.k as int) % (r_len as int) < r_len as int) by (nonlinear_arith)
                requires
                    r_len >= 1,
            ;
            assert((reading_idx as int) == k0 % (r_len as int));
            assert(rds[reading_idx as int].len() == plan.len());
        }
        let phrase = self.inner.at(combo_idx);
        let reading = &self.readings[reading_idx];
        proof {
            assert(reading.deep_view() == rds[reading_idx as int]);
            assert(reading@ == reading.deep_view());
            assert(phrase.deep_view().len() == plan.len());
            assert(phrase@.len() == phrase.deep_view().len());
            assert forall|m: int| 0 <= m < reading@.len() implies (#[trigger] reading@[m])
                < phrase@.len() by {
                assert(rds[reading_idx as int][m] < plan.len());
            }
        }
        let candidate = phrase_from_misreading(&phrase, reading);
        proof {
            assert(candidate.deep_view() == candidate_spec(plan, rds, k0));
        }
        let seqno = self.k + 1;
        self.k = seqno;
        Some((seqno, candidate))
    }
}

/// Reordering a phrase by one reading and then another is one reordering
/// by their composition.
pub proof fn lemma_apply_compose(v: Seq<Seq<char>>, p: Seq<u8>, q: Seq<u8>)
    requires
        forall|k: int| 0 <= k < q.len() ==> (#[trigger] q[k]) < p.len(),
        forall|k: int| 0 <= k < p.len() ==> (#[trigger] p[k]) < v.len(),
    ensures
        apply_perm(v, crate::reading::compose(p, q)) == apply_perm(apply_perm(v, p), q),
{
    let c = crate::reading::compose(p, q);
    let lhs = apply_perm(v, c);
    let rhs = apply_perm(apply_perm(v, p), q);
    assert forall|k: int| 0 <= k < q.len() implies lhs[k] == rhs[k] by {
        assert(c[k] == p[q[k] as int]);
        assert(rhs[k] == apply_perm(v, p)[q[k] as int]);
    }
    assert(lhs =~= rhs);
}

/// Decoding index zero selects the first digit everywhere.
pub proof fn lemma_decode_zero(radix: Seq<nat>)
    requires
        forall|i: int| 0 <= i < radix.len() ==> radix[i] >= 1,
    ensures
        decode(0, radix).len() == radix.len(),
        forall|i: int| 0 <= i < radix.len() ==> decode(0, radix)[i] == 0,
    decreases radix.len(),
{
    if radix.len() > 0 {
        let r0 = radix[0];
        assert(0 as nat % r0 == 0 && 0 as nat / r0 == 0) by (nonlinear_arith)
            requires
                r0 >= 1,
        ;
        lemma_decode_zero(radix.drop_first());
        let d = decode(0, radix);
        assert forall|i: int| 0 <= i < radix.len() implies d[i] == 0 by {
            if i > 0 {
                assert(d[i] == decode(0, radix.drop_first())[i - 1]);
            }
        }
    }
}

/// The very first candidate of the stream is the input phrase itself:
/// index zero selects every position's own word, and the first reading
/// is the identity.
pub proof fn lemma_first_candidate_is_input(
    plan: Seq<Seq<Seq<char>>>,
    readings: Seq<Seq<u8>>,
    input: Seq<Seq<char>>,
)
    requires
        readings.len() >= 1,
        readings[0] == identity_spec(plan.len()),
        plan.len() == input.len(),
        plan.len() <= 255,
        forall|i: int|
            0 <= i < plan.len() ==> (#[trigger] plan[i]).len() >= 1 && plan[i][0] == input[i],
    ensures
        candidate_spec(plan, readings, 0) == input,
{
    let nr = radices_of(plan);
    assert forall|i: int| 0 <= i < nr.len() implies nr[i] >= 1 by {
        assert(plan[i].len() >= 1);
    }
    lemma_decode_zero(nr);
    assert(0int / readings.len() as int == 0 && 0int % readings.len() as int == 0)
        by (nonlinear_arith)
        requires
            readings.len() >= 1,
    ;
    let combo = combination_spec(plan, 0);
    assert forall|i: int| 0 <= i < plan.len() implies combo[i] == input[i] by {
        assert(decode(0, nr)[i] == 0);
        assert(combo[i] == plan[i][0]);
    }
    let id = identity_spec(plan.len());
    let cand = candidate_spec(plan, readings, 0);
    assert forall|k: int| 0 <= k < plan.len() implies cand[k] == input[k] by {
        assert(id[k] == k as u8);
        assert((k as u8) as int == k);
        assert(cand[k] == combo[k]);
    }
    assert(cand =~= input);
}

} // verus!
