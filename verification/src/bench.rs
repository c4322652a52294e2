//! What the benchmarks decide: their settings, and the exact results that recall
//! is measured against.
use crate::bits::{
    format_value, is_single_zero, law_singles_are_ranked_as_numbers, single_finite, single_place,
    single_rank, single_value, single_zero, SINGLE_INFINITY, SINGLE_SIGN,
};
use crate::collection::views;
use crate::metric::Metric;
use crate::parse::{
    law_numerals_are_read_back, law_padded_numerals_are_read_back, law_pieces_make_the_text,
    numeral, parse_size, pieces, split, trim, trimmed,
};
use crate::sort::{arranged, sort, Sortable};
use crate::text::{join, padded, padded_text, same_text, decimal, decimal_text};
use vstd::arithmetic::power::pow;
use vstd::prelude::*;
use vstd::string::*;

verus! {

/// A single that is a NaN.
pub open spec fn single_nan(bits: u32) -> bool {
    bits % SINGLE_SIGN > SINGLE_INFINITY
}

/// Numeric `a == b`: a NaN equals nothing, and the zeros are equal.
pub open spec fn single_equal(a: u32, b: u32) -> bool {
    !single_nan(a) && !single_nan(b) && (a == b || (single_zero(a) && single_zero(b)))
}

/// Numeric `a > b`: false when either is a NaN.
pub open spec fn single_greater(a: u32, b: u32) -> bool {
    &&& !single_nan(a) && !single_nan(b)
    &&& single_rank(a) > single_rank(b)
    &&& !(single_zero(a) && single_zero(b))
}

/// A point of the benchmark and its score.
#[derive(Debug, Clone, Copy, PartialEq, Eq, Structural)]
pub struct Scored {
    pub index: u64,
    pub score: u32,
}

impl View for Scored {
    type V = Scored;

    open spec fn view(&self) -> Scored {
        *self
    }
}

/// A higher score comes first; ties by index.
pub open spec fn ahead(a: Scored, b: Scored) -> bool {
    single_rank(a.score) > single_rank(b.score) || (a.score == b.score && a.index < b.index)
}

impl Sortable for Scored {
    open spec fn at_most(a: Scored, b: Scored) -> bool {
        !ahead(b, a)
    }

    proof fn lemma_total(a: Scored, b: Scored) {
    }

    proof fn lemma_transitive(a: Scored, b: Scored, c: Scored) {
    }

    fn is_at_most(&self, other: &Scored) -> (r: bool) {
        let place: i64 = single_place(self.score);
        let other_place: i64 = single_place(other.score);
        !(other_place > place || (other.score == self.score && other.index < self.index))
    }
}

/// The place of the last of the first entries: the lowest score, of equal ones the
/// highest index.
pub open spec fn worst_of(list: Seq<Scored>, upto: int) -> int
    decreases upto,
{
    if upto <= 1 {
        0
    } else {
        let w = worst_of(list, upto - 1);
        if ahead(list[w], list[upto - 1]) {
            upto - 1
        } else {
            w
        }
    }
}

/// The entries with one more, of which at most `k` are kept. One takes the place of
/// the worst only if its score is greater, or equal with a lower index.
pub open spec fn offered(list: Seq<Scored>, k: nat, entry: Scored) -> Seq<Scored> {
    if list.len() < k {
        list.push(entry)
    } else {
        let w = worst_of(list, list.len() as int);
        let worst = list[w];
        if single_greater(entry.score, worst.score) || (single_equal(entry.score, worst.score)
            && entry.index < worst.index) {
            list.update(w, entry)
        } else {
            list
        }
    }
}

/// The best of the points that have been offered.
pub struct ExactTop {
    k: usize,
    scored: Vec<Scored>,
}

/// How many are kept, and those that are.
pub struct TopView {
    pub k: nat,
    pub scored: Seq<Scored>,
}

impl View for ExactTop {
    type V = TopView;

    closed spec fn view(&self) -> TopView {
        TopView { k: self.k as nat, scored: self.scored@ }
    }
}

/// The name of a point of the benchmark.
pub open spec fn bench_id(index: nat) -> Seq<char> {
    "bench-"@ + if index < 1_000_000_000_000 {
        padded(index, 12)
    } else {
        decimal(index)
    }
}

/// The name of a point of the benchmark.
pub fn name_point(index: u64) -> (name: String)
    ensures
        name@ == bench_id(index as nat),
{
    if index < 1_000_000_000_000 {
        join("bench-", padded_text(index, 12).as_str())
    } else {
        join("bench-", decimal_text(index).as_str())
    }
}

fn is_nan(bits: u32) -> (nan: bool)
    ensures
        nan == single_nan(bits),
{
    bits % SINGLE_SIGN > SINGLE_INFINITY
}

impl ExactTop {
    /// Nothing has been offered yet.
    pub fn new(k: usize) -> (top: ExactTop)
        ensures
            top@ == (TopView { k: k as nat, scored: seq![] }),
    {
        let top = ExactTop { k, scored: Vec::new() };
        assert(top@.scored =~= seq![]);
        top
    }

    /// Offers a point.
    pub fn offer(&mut self, index: u64, score: u32)
        requires
            old(self)@.k > 0,
        ensures
            final(self)@ == (TopView {
                scored: offered(old(self)@.scored, old(self)@.k, Scored { index, score }),
                ..old(self)@
            }),
    {
        let entry = Scored { index, score };
        if self.scored.len() < self.k {
            self.scored.push(entry);
            return ;
        }
        let place: i64 = single_place(score);
        let mut w: usize = 0;
        let mut i: usize = 1;
        while i < self.scored.len()
            invariant
                1 <= i <= self.scored@.len(),
                w == worst_of(self.scored@, i as int),
                w < i,
            decreases self.scored.len() - i,
        {
            let here = self.scored[w];
            let next = self.scored[i];
            let here_place: i64 = single_place(here.score);
            let next_place: i64 = single_place(next.score);
            if here_place > next_place || (here.score == next.score && here.index < next.index) {
                w = i;
            }
            i = i + 1;
        }
        let worst = self.scored[w];
        let numbers: bool = !is_nan(score) && !is_nan(worst.score);
        let zeros: bool = is_single_zero(score) && is_single_zero(worst.score);
        let greater: bool = numbers && place > single_place(worst.score) && !zeros;
        let equal: bool = numbers && (score == worst.score || zeros);
        if greater || (equal && index < worst.index) {
            self.scored[w] = entry;
        }
    }

    /// The names of the points that are kept, best first.
    pub fn ids(self) -> (names: Vec<String>)
        ensures
            exists|sorted: Seq<Scored>| #[trigger]
                arranged(sorted, true) && sorted.to_multiset() == self@.scored.to_multiset()
                    && views(names@) == Seq::new(
                    sorted.len(),
                    |i: int| bench_id(sorted[i].index as nat),
                ),
    {
        let ghost kept = self.scored@;
        let sorted = sort(self.scored, true);
        let mut names: Vec<String> = Vec::new();
        let mut i: usize = 0;
        while i < sorted.len()
            invariant
                i <= sorted@.len(),
                names@.len() == i,
                forall|j: int|
                    0 <= j < i ==> (#[trigger] names@[j])@ == bench_id(sorted@[j].index as nat),
            decreases sorted.len() - i,
        {
            names.push(name_point(sorted[i].index));
            i = i + 1;
        }
        assert(views(names@) =~= Seq::new(
            sorted@.len(),
            |j: int| bench_id(sorted@[j].index as nat),
        ));
        assert(arranged(sorted@, true));
        names
    }
}

/// Scores that are numbers and not zero compare alike in every way.
pub open spec fn plain(score: u32) -> bool {
    !single_nan(score) && !single_zero(score)
}

/// The entries are the `k` best of those seen.
pub open spec fn keeps_best(list: Seq<Scored>, seen: Set<Scored>, k: nat) -> bool {
    &&& list.len() <= k
    &&& forall|i: int| 0 <= i < list.len() ==> seen.contains(#[trigger] list[i])
    &&& forall|s: Scored| #[trigger]
        seen.contains(s) ==> list.contains(s) || (list.len() == k && forall|i: int|
            0 <= i < list.len() ==> ahead(#[trigger] list[i], s))
}

proof fn lemma_worst(list: Seq<Scored>, upto: int)
    requires
        1 <= upto <= list.len(),
    ensures
        0 <= worst_of(list, upto) < upto,
        forall|i: int| 0 <= i < upto ==> !ahead(list[worst_of(list, upto)], #[trigger] list[i]),
    decreases upto,
{
    if upto > 1 {
        lemma_worst(list, upto - 1);
    }
}

/// Whatever has been offered, the entries are the exact best of it, as long as the
/// scores are numbers other than zero and no point is offered twice.
pub proof fn law_offers_keep_the_best(list: Seq<Scored>, seen: Set<Scored>, k: nat, entry: Scored)
    requires
        k > 0,
        keeps_best(list, seen, k),
        plain(entry.score),
        forall|s: Scored| #[trigger]
            seen.contains(s) ==> plain(s.score) && s.index != entry.index,
    ensures
        keeps_best(offered(list, k, entry), seen.insert(entry), k),
{
    let after = offered(list, k, entry);
    let all = seen.insert(entry);
    if list.len() < k {
        assert forall|s: Scored| #[trigger] all.contains(s) implies after.contains(s) || (
        after.len() == k && forall|i: int|
            0 <= i < after.len() ==> ahead(#[trigger] after[i], s)) by {
            if s == entry {
                assert(after[list.len() as int] == s);
            } else {
                let i = choose|i: int| 0 <= i < list.len() && list[i] == s;
                assert(after[i] == s);
            }
        }
    } else {
        let n = list.len() as int;
        let w = worst_of(list, n);
        lemma_worst(list, n);
        let worst = list[w];
        assert(seen.contains(worst));
        assert(after.len() == n);
        if ahead(entry, worst) {
            assert(after == list.update(w, entry));
            assert forall|s: Scored| #[trigger] all.contains(s) implies after.contains(s) || (
            after.len() == k && forall|i: int|
                0 <= i < after.len() ==> ahead(#[trigger] after[i], s)) by {
                if s == entry {
                    assert(after[w] == s);
                } else if list.contains(s) && s != worst {
                    let i = choose|i: int| 0 <= i < n && list[i] == s;
                    assert(after[i] == s);
                } else {
                    assert forall|i: int| 0 <= i < n implies ahead(#[trigger] after[i], s)
                        || after.contains(s) by {
                        if i != w {
                            assert(after[i] == list[i]);
                            assert(!ahead(worst, list[i]));
                            if list[i] == s {
                                assert(after[i] == s);
                            }
                        }
                    }
                }
            }
            assert forall|i: int| 0 <= i < after.len() implies all.contains(
                #[trigger] after[i],
            ) by {
                if i != w {
                    assert(after[i] == list[i]);
                }
            }
        } else {
            assert(after == list);
            assert forall|s: Scored| #[trigger] all.contains(s) implies after.contains(s) || (
            after.len() == k && forall|i: int|
                0 <= i < after.len() ==> ahead(#[trigger] after[i], s)) by {
                if s == entry {
                    assert forall|i: int| 0 <= i < n implies ahead(#[trigger] after[i], s) by {
                        assert(!ahead(worst, list[i]));
                        assert(seen.contains(list[i]));
                    }
                }
            }
        }
    }
}

/// What is wrong with the breadths of a sweep.
#[derive(Debug, Clone, Copy, PartialEq, Eq, Structural)]
pub enum SweepFault {
    NotANumber,
    NotPositive,
}

/// The breadths in a list that is separated by commas.
pub open spec fn sweep_of(parts: Seq<Seq<char>>) -> core::result::Result<Seq<usize>, SweepFault>
    decreases parts.len(),
{
    if parts.len() == 0 {
        Ok(seq![])
    } else {
        match sweep_of(parts.drop_last()) {
            Err(fault) => Err(fault),
            Ok(front) => if numeral(trimmed(parts.last())) matches Some(n) && n <= usize::MAX {
                Ok(front.push(numeral(trimmed(parts.last()))->0 as usize))
            } else {
                Err(SweepFault::NotANumber)
            },
        }
    }
}

/// The breadths of a sweep; without one, a single breadth.
pub open spec fn swept(text: Option<Seq<char>>, default: usize) -> core::result::Result<
    Seq<usize>,
    SweepFault,
> {
    match text {
        None => Ok(seq![default]),
        Some(t) => match sweep_of(pieces(t, ',')) {
            Err(fault) => Err(fault),
            Ok(list) => if list.contains(0) {
                Err(SweepFault::NotPositive)
            } else {
                Ok(list)
            },
        },
    }
}

proof fn lemma_sweep_fault(parts: Seq<Seq<char>>, count: int)
    requires
        0 <= count <= parts.len(),
        sweep_of(parts.subrange(0, count)) is Err,
    ensures
        sweep_of(parts) == sweep_of(parts.subrange(0, count)),
    decreases parts.len() - count,
{
    if count == parts.len() {
        assert(parts.subrange(0, count) =~= parts);
    } else {
        assert(parts.subrange(0, count + 1).drop_last() =~= parts.subrange(0, count));
        lemma_sweep_fault(parts, count + 1);
    }
}

/// The breadths of a sweep; without one, a single breadth.
pub fn ef_search_values(text: Option<&str>, default: usize) -> (result: core::result::Result<
    Vec<usize>,
    SweepFault,
>)
    ensures
        match swept(crate::server::chars_of(text), default) {
            Ok(list) => result is Ok && result->Ok_0@ == list,
            Err(fault) => result == Err::<Vec<usize>, SweepFault>(fault),
        },
{
    let list = match text {
        None => {
            let mut single: Vec<usize> = Vec::new();
            single.push(default);
            assert(single@ =~= seq![default]);
            return Ok(single);
        },
        Some(list) => list,
    };
    let parts = split(list, ',');
    let ghost all = views(parts@);
    let mut values: Vec<usize> = Vec::new();
    let mut zero: bool = false;
    let mut i: usize = 0;
    assert(all.subrange(0, 0) =~= Seq::empty());
    assert(values@ =~= Seq::empty());
    while i < parts.len()
        invariant
            i <= parts@.len(),
            all == views(parts@),
            all == pieces(list@, ','),
            text == Some(list),
            sweep_of(all.subrange(0, i as int)) == Ok::<Seq<usize>, SweepFault>(values@),
            zero == values@.contains(0),
        decreases parts.len() - i,
    {
        let ghost next = all.subrange(0, i + 1);
        let ghost before = values@;
        proof {
            assert(next.drop_last() =~= all.subrange(0, i as int));
            assert(next.last() == parts@[i as int]@);
            if sweep_of(next) is Err {
                lemma_sweep_fault(all, i + 1);
            }
        }
        match parse_size(trim(parts[i].as_str())) {
            None => {
                return Err(SweepFault::NotANumber);
            },
            Some(n) => {
                values.push(n);
                proof {
                    if before.contains(0) {
                        let j = choose|j: int| 0 <= j < before.len() && before[j] == 0;
                        assert(values@[j] == 0);
                    }
                    if n == 0 {
                        assert(values@[before.len() as int] == 0);
                    }
                    if values@.contains(0) {
                        let j = choose|j: int| 0 <= j < values@.len() && values@[j] == 0;
                        if j < before.len() {
                            assert(before[j] == 0);
                        }
                    }
                }
                if n == 0 {
                    zero = true;
                }
            },
        }
        i = i + 1;
    }
    assert(all.subrange(0, i as int) =~= all);
    if zero {
        return Err(SweepFault::NotPositive);
    }
    Ok(values)
}

/// The metric of a name.
pub open spec fn named_metric(name: Seq<char>) -> Option<Metric> {
    if name == "cosine"@ {
        Some(Metric::Cosine)
    } else if name == "dot"@ || name == "dot_product"@ {
        Some(Metric::DotProduct)
    } else if name == "euclidean"@ {
        Some(Metric::Euclidean)
    } else {
        None
    }
}

/// The metric of a name.
pub fn metric_of_name(name: &str) -> (metric: Option<Metric>)
    ensures
        metric == named_metric(name@),
{
    if same_text(name, "cosine") {
        Some(Metric::Cosine)
    } else if same_text(name, "dot") || same_text(name, "dot_product") {
        Some(Metric::DotProduct)
    } else if same_text(name, "euclidean") {
        Some(Metric::Euclidean)
    } else {
        None
    }
}

/// Scores that are numbers compare as numbers do.
pub proof fn law_scores_compare_as_numbers(a: u32, b: u32)
    requires
        single_finite(a),
        single_finite(b),
    ensures
        single_greater(a, b) <==> single_value(a) > single_value(b),
        single_equal(a, b) <==> single_value(a) == single_value(b),
{
    law_singles_are_ranked_as_numbers(a, b);
    law_singles_are_ranked_as_numbers(b, a);
    let zero = format_value(0, 23);
    if a % SINGLE_SIGN == 0 {
        assert(single_value(a) == zero || single_value(a) == -zero);
    }
    if b % SINGLE_SIGN == 0 {
        assert(single_value(b) == zero || single_value(b) == -zero);
    }
    lemma_zero_is_zero();
}

proof fn lemma_zero_is_zero()
    ensures
        format_value(0, 23) == 0,
{
    vstd::arithmetic::power2::lemma_pow2_pos(23);
    let unit = vstd::arithmetic::power2::pow2(23) as int;
    assert(0int / unit == 0 && 0int % unit == 0) by (nonlinear_arith)
        requires
            unit > 0,
    ;
}

/// A sweep has a breadth for each of its parts, in their places: the number that the part
/// is a numeral of, whatever white space stands around it.
pub proof fn law_sweeps_read_every_part(parts: Seq<Seq<char>>)
    ensures
        sweep_of(parts) is Ok <==> forall|i: int|
            0 <= i < parts.len() ==> (numeral(trimmed(#[trigger] parts[i])) matches Some(n) && n
                <= usize::MAX),
        sweep_of(parts) matches Ok(list) ==> list.len() == parts.len() && forall|i: int|
            0 <= i < parts.len() ==> numeral(trimmed(#[trigger] parts[i])) == Some(list[i] as nat),
    decreases parts.len(),
{
    if parts.len() > 0 {
        let rest = parts.drop_last();
        let end = parts.len() - 1;
        law_sweeps_read_every_part(rest);
        assert forall|i: int| 0 <= i < rest.len() implies rest[i] == #[trigger] parts[i] by {}
        if sweep_of(parts) is Ok {
            let front = sweep_of(rest)->Ok_0;
            let list = sweep_of(parts)->Ok_0;
            assert forall|i: int| 0 <= i < parts.len() implies numeral(
                trimmed(#[trigger] parts[i]),
            ) == Some(list[i] as nat) by {
                if i < end {
                    assert(rest[i] == parts[i]);
                    assert(list[i] == front[i]);
                }
            }
        } else if sweep_of(rest) is Ok {
            assert(!(numeral(trimmed(parts[end])) matches Some(n) && n <= usize::MAX));
        } else {
            let i = choose|i: int|
                0 <= i < rest.len() && !(numeral(trimmed(#[trigger] rest[i])) matches Some(n) && n
                    <= usize::MAX);
            assert(parts[i] == rest[i]);
        }
    }
}

/// A sweep has at least one breadth, and none of them is zero; without a setting it is the
/// default alone.
pub proof fn law_sweeps_are_positive(text: Seq<char>, default: usize)
    ensures
        swept(None, default) == Ok::<Seq<usize>, SweepFault>(seq![default]),
        swept(Some(text), default) matches Ok(list) ==> list.len() == pieces(text, ',').len()
            && list.len() > 0 && forall|i: int| 0 <= i < list.len() ==> (#[trigger] list[i]) > 0,
{
    law_sweeps_read_every_part(pieces(text, ','));
    law_pieces_make_the_text(text, ',');
    if let Ok(list) = swept(Some(text), default) {
        assert forall|i: int| 0 <= i < list.len() implies (#[trigger] list[i]) > 0 by {
            if list[i] == 0 {
                assert(list.contains(list[i]));
            }
        }
    }
}

/// No two points of a benchmark share a name.
pub proof fn law_names_differ(a: nat, b: nat)
    requires
        bench_id(a) == bench_id(b),
    ensures
        a == b,
{
    let word = "bench-"@;
    let digits = |index: nat|
        if index < 1_000_000_000_000 {
            padded(index, 12)
        } else {
            decimal(index)
        };
    assert(digits(a) =~= bench_id(a).skip(word.len() as int));
    assert(digits(b) =~= bench_id(b).skip(word.len() as int));
    assert(pow(10, 12) == 1_000_000_000_000) by {
        reveal_with_fuel(pow, 13);
    }
    law_padded_numerals_are_read_back(a, 12);
    law_padded_numerals_are_read_back(b, 12);
    law_numerals_are_read_back(a);
    law_numerals_are_read_back(b);
}

} // verus!
