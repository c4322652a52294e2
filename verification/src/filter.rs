//! Filters over metadata.
use crate::bits::{
    double_at_least, double_finite, double_from_integer, double_less, double_value,
    integer_double, is_double_at_least, is_double_finite, is_double_less,
    law_doubles_compare_as_numbers, law_integers_are_exact,
};
use crate::metadata::{
    ascending, law_lookup_finds_the_entries, lookup, Entries, Metadata, Value, ValueView,
};
use vstd::arithmetic::power2::pow2;
use vstd::prelude::*;

verus! {

/// A condition on the metadata of a point. The bounds of a range are the bits
/// of doubles.
#[derive(Debug, PartialEq)]
pub enum Filter {
    MatchAll,
    Eq { field: String, value: Value },
    Range { field: String, gte: Option<u64>, lt: Option<u64> },
    And(Vec<Filter>),
    Or(Vec<Filter>),
    Not(Box<Filter>),
}

/// The number that a value stands for in a range: the double nearest to an
/// integer, or a finite float.
pub open spec fn numeric(value: ValueView) -> Option<u64> {
    match value {
        ValueView::Integer(n) => Some(integer_double(n as int) as u64),
        ValueView::Float(bits) => if double_finite(bits) {
            Some(bits)
        } else {
            None
        },
        _ => None,
    }
}

/// The number that a value stands for in a range.
pub fn numeric_value(value: &Value) -> (number: Option<u64>)
    ensures
        number == numeric(value@),
        number matches Some(bits) ==> double_finite(bits),
{
    match value {
        Value::Integer(n) => Some(double_from_integer(*n)),
        Value::Float(bits) => if is_double_finite(*bits) {
            Some(*bits)
        } else {
            None
        },
        _ => None,
    }
}

/// `gte <= number < lt`, where an absent bound bounds nothing.
pub open spec fn within(number: u64, gte: Option<u64>, lt: Option<u64>) -> bool {
    &&& gte matches Some(lower) ==> double_at_least(number, lower)
    &&& lt matches Some(upper) ==> double_less(number, upper)
}

impl Filter {
    /// What the filter says of metadata.
    pub open spec fn holds(self, metadata: Entries) -> bool
        decreases self,
    {
        match self {
            Filter::MatchAll => true,
            Filter::Eq { field, value } => match lookup(metadata, field@) {
                Some(stored) => stored.equals(value@),
                None => false,
            },
            Filter::Range { field, gte, lt } => match lookup(metadata, field@) {
                Some(stored) => match numeric(stored) {
                    Some(number) => within(number, gte, lt),
                    None => false,
                },
                None => false,
            },
            Filter::And(filters) => forall|i: int|
                0 <= i < filters.len() ==> (#[trigger] filters[i]).holds(metadata),
            Filter::Or(filters) => exists|i: int|
                0 <= i < filters.len() && (#[trigger] filters[i]).holds(metadata),
            Filter::Not(filter) => !filter.holds(metadata),
        }
    }

    /// Whether metadata meets the filter.
    #[verifier::loop_isolation(false)]
    pub fn matches(&self, metadata: &Metadata) -> (met: bool)
        ensures
            met == self.holds(metadata@),
        decreases self,
    {
        match self {
            Filter::MatchAll => true,
            Filter::Eq { field, value } => match metadata.get(field.as_str()) {
                Some(stored) => stored.equals(value),
                None => false,
            },
            Filter::Range { field, gte, lt } => match metadata.get(field.as_str()) {
                Some(stored) => match numeric_value(stored) {
                    Some(number) => is_within(number, *gte, *lt),
                    None => false,
                },
                None => false,
            },
            Filter::And(filters) => {
                let mut i: usize = 0;
                while i < filters.len()
                    invariant
                        i <= filters.len(),
                        forall|j: int|
                            0 <= j < i ==> (#[trigger] filters@[j]).holds(metadata@),
                    decreases filters.len() - i,
                {
                    if !filters[i].matches(metadata) {
                        assert(!filters@[i as int].holds(metadata@));
                        return false;
                    }
                    i = i + 1;
                }
                true
            },
            Filter::Or(filters) => {
                let mut i: usize = 0;
                while i < filters.len()
                    invariant
                        i <= filters.len(),
                        forall|j: int|
                            0 <= j < i ==> !(#[trigger] filters@[j]).holds(metadata@),
                    decreases filters.len() - i,
                {
                    if filters[i].matches(metadata) {
                        assert(filters@[i as int].holds(metadata@));
                        return true;
                    }
                    i = i + 1;
                }
                false
            },
            Filter::Not(filter) => !filter.matches(metadata),
        }
    }
}

/// Whether a number lies in a range.
pub fn is_within(number: u64, gte: Option<u64>, lt: Option<u64>) -> (inside: bool)
    ensures
        inside == within(number, gte, lt),
{
    let above: bool = match gte {
        Some(lower) => is_double_at_least(number, lower),
        None => true,
    };
    let below: bool = match lt {
        Some(upper) => is_double_less(number, upper),
        None => true,
    };
    above && below
}

/// A range of numbers, in units of `2^-1074`, from one bound up to before another.
pub open spec fn encloses(gte: Option<u64>, lt: Option<u64>, number: int) -> bool {
    &&& gte matches Some(lower) ==> double_value(lower) <= number
    &&& lt matches Some(upper) ==> number < double_value(upper)
}

/// Bounds that are numbers.
pub open spec fn finite_bounds(gte: Option<u64>, lt: Option<u64>) -> bool {
    &&& gte matches Some(lower) ==> double_finite(lower)
    &&& lt matches Some(upper) ==> double_finite(upper)
}

/// A range admits metadata where the field holds a number that lies between the bounds,
/// the lower one included: a finite float by the number it stands for, and an integer of
/// at most 53 bits by its own. A text, a truth value, a float that is no number and an
/// absent field lie in no range, not even in one without bounds.
pub proof fn law_ranges_enclose_numbers(
    filter: Filter,
    field: String,
    gte: Option<u64>,
    lt: Option<u64>,
    metadata: Entries,
    stored: ValueView,
)
    requires
        filter == (Filter::Range { field, gte, lt }),
        finite_bounds(gte, lt),
        ascending(metadata),
    ensures
        metadata.contains((field@, stored)) ==> match stored {
            ValueView::Integer(n) => -pow2(53) <= n <= pow2(53) ==> (filter.holds(metadata)
                <==> encloses(gte, lt, n * pow2(1074))),
            ValueView::Float(bits) => filter.holds(metadata) <==> double_finite(bits) && encloses(
                gte,
                lt,
                double_value(bits),
            ),
            _ => !filter.holds(metadata),
        },
        (forall|i: int| 0 <= i < metadata.len() ==> (#[trigger] metadata[i]).0 != field@)
            ==> !filter.holds(metadata),
{
    law_lookup_finds_the_entries(metadata, field@, stored);
    if metadata.contains((field@, stored)) {
        match stored {
            ValueView::Integer(n) => {
                if -pow2(53) <= n <= pow2(53) {
                    law_integers_are_exact(n);
                    lemma_enclosed(integer_double(n as int) as u64, gte, lt);
                }
            },
            ValueView::Float(bits) => {
                if double_finite(bits) {
                    lemma_enclosed(bits, gte, lt);
                }
            },
            _ => {},
        }
    }
}

proof fn lemma_enclosed(number: u64, gte: Option<u64>, lt: Option<u64>)
    requires
        double_finite(number),
        finite_bounds(gte, lt),
    ensures
        within(number, gte, lt) == encloses(gte, lt, double_value(number)),
{
    if let Some(lower) = gte {
        law_doubles_compare_as_numbers(number, lower);
    }
    if let Some(upper) = lt {
        law_doubles_compare_as_numbers(number, upper);
    }
}

/// An equality admits metadata where the field holds that very value: the same text, the
/// same integer, the same truth value, or a float that stands for the same number. An
/// integer and a float are never equal, and an absent field equals nothing.
pub proof fn law_equalities_ask_for_the_value(
    filter: Filter,
    field: String,
    value: Value,
    metadata: Entries,
    stored: ValueView,
)
    requires
        filter == (Filter::Eq { field, value }),
        ascending(metadata),
    ensures
        metadata.contains((field@, stored)) ==> match (stored, value@) {
            (ValueView::Float(a), ValueView::Float(b)) => double_finite(a) && double_finite(b)
                ==> (filter.holds(metadata) <==> double_value(a) == double_value(b)),
            _ => filter.holds(metadata) <==> stored == value@,
        },
        (forall|i: int| 0 <= i < metadata.len() ==> (#[trigger] metadata[i]).0 != field@)
            ==> !filter.holds(metadata),
{
    law_lookup_finds_the_entries(metadata, field@, stored);
    if metadata.contains((field@, stored)) {
        match (stored, value@) {
            (ValueView::Float(a), ValueView::Float(b)) => {
                if double_finite(a) && double_finite(b) {
                    law_doubles_compare_as_numbers(a, b);
                }
            },
            _ => {},
        }
    }
}

/// Denying a filter turns its answer round, and denying it twice gives the filter.
pub proof fn law_denial_turns_round(filter: Box<Filter>, denied: Box<Filter>, metadata: Entries)
    requires
        *denied == Filter::Not(filter),
    ensures
        denied.holds(metadata) == !filter.holds(metadata),
        Filter::Not(denied).holds(metadata) == filter.holds(metadata),
{
    assert(Filter::Not(denied).holds(metadata) == !denied.holds(metadata));
}

/// A conjunction holds exactly where each of its parts does.
pub proof fn law_conjunctions_ask_for_every_part(filter: Filter, metadata: Entries)
    requires
        filter is And,
    ensures
        filter.holds(metadata) <==> forall|i: int|
            0 <= i < filter->And_0.len() ==> (#[trigger] filter->And_0[i]).holds(metadata),
{
}

/// An alternative holds exactly where one of its parts does.
pub proof fn law_alternatives_ask_for_one_part(filter: Filter, metadata: Entries)
    requires
        filter is Or,
    ensures
        filter.holds(metadata) <==> exists|i: int|
            0 <= i < filter->Or_0.len() && (#[trigger] filter->Or_0[i]).holds(metadata),
{
}

/// Filters combine as conditions do: a conjunction holds exactly where the alternative of
/// the opposites does not. So an empty conjunction admits everything, as the filter
/// without a condition does, and an empty alternative nothing.
pub proof fn law_filters_combine_as_conditions(all: Filter, any: Filter, metadata: Entries)
    requires
        all is And,
        any is Or,
        all->And_0.len() == any->Or_0.len(),
        forall|i: int|
            0 <= i < all->And_0.len() ==> (#[trigger] any->Or_0[i]).holds(metadata)
                == !all->And_0[i].holds(metadata),
    ensures
        all.holds(metadata) == !any.holds(metadata),
        all->And_0.len() == 0 ==> all.holds(metadata) == Filter::MatchAll.holds(metadata),
        Filter::MatchAll.holds(metadata),
{
    law_conjunctions_ask_for_every_part(all, metadata);
    law_alternatives_ask_for_one_part(any, metadata);
    if !all.holds(metadata) {
        let i = choose|i: int|
            0 <= i < all->And_0.len() && !(#[trigger] all->And_0[i]).holds(metadata);
        assert(any->Or_0[i].holds(metadata));
    }
}

} // verus!
