//! How vectors are validated, normalised and scored.
//!
//! A vector is a `Vec<u32>`: the bit patterns of its single-precision
//! components. The library decides everything about a vector from those bits
//! but for two pieces of arithmetic, which the caller supplies as a [`Kernel`].
use crate::bits::{is_single_finite, is_single_zero, single_finite, single_zero};
use crate::error::{Error, ErrorView, Result};
use vstd::prelude::*;

verus! {

/// How the closeness of two vectors is measured.
#[derive(Debug, Clone, Copy, PartialEq, Eq, Structural)]
pub enum Metric {
    Cosine,
    DotProduct,
    Euclidean,
}

/// The floating-point arithmetic behind the metrics.
pub trait Kernel {
    /// Scales a finite vector that is not all zeros to unit length.
    fn normalize(&self, vector: &Vec<u32>) -> Vec<u32>;

    /// The score of a candidate for a query, as the bits of a single; larger is better.
    fn score(&self, metric: Metric, query: &Vec<u32>, candidate: &Vec<u32>) -> u32;
}

/// `output` is a vector that the kernel may return when it normalises `vector`.
pub open spec fn may_normalize<K: Kernel>(kernel: K, vector: Seq<u32>, output: Seq<u32>) -> bool {
    exists|v: Vec<u32>, r: Vec<u32>|
        v@ == vector && r@ == output && #[trigger] call_ensures(K::normalize, (&kernel, &v), r)
}

/// `output` is a score that the kernel may return for `query` and `candidate`.
pub open spec fn may_score<K: Kernel>(
    kernel: K,
    metric: Metric,
    query: Seq<u32>,
    candidate: Seq<u32>,
    output: u32,
) -> bool {
    exists|q: Vec<u32>, c: Vec<u32>|
        q@ == query && c@ == candidate && #[trigger] call_ensures(
            K::score,
            (&kernel, metric, &q, &c),
            output,
        )
}

/// A kernel whose results depend on the vectors alone, and which keeps the
/// number of components.
pub open spec fn lawful<K: Kernel>(kernel: K) -> bool {
    &&& forall|v: Seq<u32>, a: Seq<u32>, b: Seq<u32>|
        #[trigger] may_normalize(kernel, v, a) && #[trigger] may_normalize(kernel, v, b) ==> a == b
    &&& forall|v: Seq<u32>, a: Seq<u32>| #[trigger]
        may_normalize(kernel, v, a) ==> a.len() == v.len()
    &&& forall|m: Metric, q: Seq<u32>, c: Seq<u32>, a: u32, b: u32|
        #[trigger] may_score(kernel, m, q, c, a) && #[trigger] may_score(kernel, m, q, c, b) ==> a
            == b
}

/// The normalised form of a vector: what the kernel returns for it. A vector for
/// which it never returns stands for itself.
pub open spec fn normalized<K: Kernel>(kernel: K, vector: Seq<u32>) -> Seq<u32> {
    if exists|output: Seq<u32>| may_normalize(kernel, vector, output) {
        choose|output: Seq<u32>| may_normalize(kernel, vector, output)
    } else {
        vector
    }
}

/// The score of a candidate for a query.
pub open spec fn scored<K: Kernel>(
    kernel: K,
    metric: Metric,
    query: Seq<u32>,
    candidate: Seq<u32>,
) -> u32 {
    choose|output: u32| may_score(kernel, metric, query, candidate, output)
}

/// A vector without infinities and NaNs.
pub open spec fn all_finite(vector: Seq<u32>) -> bool {
    forall|i: int| 0 <= i < vector.len() ==> single_finite(#[trigger] vector[i])
}

/// A vector of zeros.
pub open spec fn all_zero(vector: Seq<u32>) -> bool {
    forall|i: int| 0 <= i < vector.len() ==> single_zero(#[trigger] vector[i])
}

/// The form in which a vector is stored and compared: as it is, or normalised
/// under the cosine metric, where a vector of zeros has none. (The squared norm
/// of finite singles is always a finite double, and zero only for zeros.)
pub open spec fn prepared<K: Kernel>(
    kernel: K,
    metric: Metric,
    vector: Seq<u32>,
) -> core::result::Result<Seq<u32>, ErrorView> {
    if !all_finite(vector) {
        Err(ErrorView::InvalidVector("components must be finite"@))
    } else if metric != Metric::Cosine {
        Ok(vector)
    } else if all_zero(vector) {
        Err(ErrorView::InvalidVector("cosine similarity requires a finite, non-zero norm"@))
    } else {
        Ok(normalized(kernel, vector))
    }
}

/// Whether every component of a vector is finite.
pub fn is_all_finite(vector: &Vec<u32>) -> (finite: bool)
    ensures
        finite == all_finite(vector@),
{
    let mut i: usize = 0;
    while i < vector.len()
        invariant
            i <= vector.len(),
            forall|j: int| 0 <= j < i ==> single_finite(#[trigger] vector@[j]),
        decreases vector.len() - i,
    {
        if !is_single_finite(vector[i]) {
            assert(!single_finite(vector@[i as int]));
            return false;
        }
        i = i + 1;
    }
    true
}

/// Whether every component of a vector is zero.
pub fn is_all_zero(vector: &Vec<u32>) -> (zero: bool)
    ensures
        zero == all_zero(vector@),
{
    let mut i: usize = 0;
    while i < vector.len()
        invariant
            i <= vector.len(),
            forall|j: int| 0 <= j < i ==> single_zero(#[trigger] vector@[j]),
        decreases vector.len() - i,
    {
        if !is_single_zero(vector[i]) {
            assert(!single_zero(vector@[i as int]));
            return false;
        }
        i = i + 1;
    }
    true
}

impl Metric {
    /// Validates a vector and brings it into the form in which it is stored and compared.
    pub fn prepare<K: Kernel>(self, kernel: &K, vector: Vec<u32>) -> (result: Result<Vec<u32>>)
        requires
            lawful(*kernel),
        ensures
            match prepared(*kernel, self, vector@) {
                Ok(value) => result is Ok && result->Ok_0@ == value && value.len() == vector@.len(),
                Err(error) => result is Err && result->Err_0@ == error,
            },
    {
        if !is_all_finite(&vector) {
            return Err(Error::InvalidVector("components must be finite"));
        }
        if self == Metric::Cosine {
            if is_all_zero(&vector) {
                return Err(
                    Error::InvalidVector("cosine similarity requires a finite, non-zero norm"),
                );
            }
            let output = kernel.normalize(&vector);
            proof {
                assert(call_ensures(K::normalize, (kernel, &vector), output));
                assert(may_normalize(*kernel, vector@, output@));
            }
            return Ok(output);
        }
        Ok(vector)
    }

    /// The score of a candidate for a query; larger is always better.
    pub fn score<K: Kernel>(self, kernel: &K, query: &Vec<u32>, candidate: &Vec<u32>) -> (score:
        u32)
        requires
            lawful(*kernel),
        ensures
            score == scored(*kernel, self, query@, candidate@),
    {
        let score: u32 = kernel.score(self, query, candidate);
        proof {
            assert(call_ensures(K::score, (kernel, self, query, candidate), score));
            assert(may_score(*kernel, self, query@, candidate@, score));
        }
        score
    }
}

/// A prepared vector has as many components as the vector that it was prepared from.
pub proof fn law_preparation_keeps_the_length<K: Kernel>(
    kernel: K,
    metric: Metric,
    vector: Seq<u32>,
)
    requires
        lawful(kernel),
        prepared(kernel, metric, vector) is Ok,
    ensures
        prepared(kernel, metric, vector)->Ok_0.len() == vector.len(),
{
}

/// A vector prepared once is left as it is by a second preparation, wherever
/// normalising a vector that is already normalised changes nothing.
pub proof fn law_preparation_is_idempotent<K: Kernel>(kernel: K, metric: Metric, vector: Seq<u32>)
    requires
        lawful(kernel),
        prepared(kernel, metric, vector) is Ok,
        metric == Metric::Cosine ==> {
            let unit = normalized(kernel, vector);
            all_finite(unit) && !all_zero(unit) && normalized(kernel, unit) == unit
        },
    ensures
        prepared(kernel, metric, prepared(kernel, metric, vector)->Ok_0) == prepared(
            kernel,
            metric,
            vector,
        ),
{
}

/// Only the cosine metric changes a vector, and only it refuses one of zeros; a vector that
/// is not finite is refused under every metric.
pub proof fn law_only_cosine_changes_vectors<K: Kernel>(
    kernel: K,
    metric: Metric,
    vector: Seq<u32>,
)
    ensures
        prepared(kernel, metric, vector) is Ok <==> (forall|i: int|
            0 <= i < vector.len() ==> single_finite(#[trigger] vector[i])) && (metric
            == Metric::Cosine ==> exists|i: int|
            0 <= i < vector.len() && !single_zero(#[trigger] vector[i])),
        metric != Metric::Cosine && prepared(kernel, metric, vector) is Ok ==> prepared(
            kernel,
            metric,
            vector,
        )->Ok_0 == vector,
        metric == Metric::Cosine && prepared(kernel, metric, vector) is Ok ==> prepared(
            kernel,
            metric,
            vector,
        )->Ok_0 == normalized(kernel, vector),
{
}

} // verus!
