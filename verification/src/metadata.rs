//! The metadata of a point: scalar values under text keys.
use crate::bits::{double_equal, is_double_equal};
use crate::text::{compare_text, lemma_text_irreflexive, lemma_text_total, lemma_text_transitive, same_text, text_less, Order};
use vstd::prelude::*;

verus! {

/// A scalar metadata value. A float is held as the bits of a double.
#[derive(Debug, PartialEq)]
pub enum Value {
    Keyword(String),
    Integer(i64),
    Float(u64),
    Boolean(bool),
}

/// A [`Value`] with its text as a character sequence.
#[verifier::ext_equal]
pub enum ValueView {
    Keyword(Seq<char>),
    Integer(i64),
    Float(u64),
    Boolean(bool),
}

impl View for Value {
    type V = ValueView;

    open spec fn view(&self) -> ValueView {
        match *self {
            Value::Keyword(text) => ValueView::Keyword(text@),
            Value::Integer(n) => ValueView::Integer(n),
            Value::Float(bits) => ValueView::Float(bits),
            Value::Boolean(b) => ValueView::Boolean(b),
        }
    }
}

impl Clone for Value {
    fn clone(&self) -> (copy: Value)
        ensures
            copy@ == self@,
    {
        match self {
            Value::Keyword(text) => Value::Keyword(text.clone()),
            Value::Integer(n) => Value::Integer(*n),
            Value::Float(bits) => Value::Float(*bits),
            Value::Boolean(b) => Value::Boolean(*b),
        }
    }
}

impl ValueView {
    /// Equality of values: of one kind, with floats compared as numbers.
    pub open spec fn equals(self, other: ValueView) -> bool {
        match (self, other) {
            (ValueView::Keyword(a), ValueView::Keyword(b)) => a == b,
            (ValueView::Integer(a), ValueView::Integer(b)) => a == b,
            (ValueView::Float(a), ValueView::Float(b)) => double_equal(a, b),
            (ValueView::Boolean(a), ValueView::Boolean(b)) => a == b,
            _ => false,
        }
    }
}

impl Value {
    /// Whether two values are of one kind and equal, floats compared as numbers.
    pub fn equals(&self, other: &Value) -> (equal: bool)
        ensures
            equal == self@.equals(other@),
    {
        match (self, other) {
            (Value::Keyword(a), Value::Keyword(b)) => same_text(a.as_str(), b.as_str()),
            (Value::Integer(a), Value::Integer(b)) => *a == *b,
            (Value::Float(a), Value::Float(b)) => is_double_equal(*a, *b),
            (Value::Boolean(a), Value::Boolean(b)) => *a == *b,
            _ => false,
        }
    }
}

/// The entries of a metadata map, in the order of their keys.
pub type Entries = Seq<(Seq<char>, ValueView)>;

/// The number of leading entries whose key comes before `key`.
pub open spec fn place(entries: Entries, key: Seq<char>) -> int
    decreases entries.len(),
{
    if entries.len() == 0 || !text_less(entries[0].0, key) {
        0
    } else {
        1 + place(entries.drop_first(), key)
    }
}

/// The value under a key.
pub open spec fn lookup(entries: Entries, key: Seq<char>) -> Option<ValueView> {
    let at = place(entries, key);
    if at < entries.len() && entries[at].0 == key {
        Some(entries[at].1)
    } else {
        None
    }
}

/// The entries with `value` under `key`, in place of what was there.
pub open spec fn put(entries: Entries, key: Seq<char>, value: ValueView) -> Entries {
    let at = place(entries, key);
    if at < entries.len() && entries[at].0 == key {
        entries.update(at, (key, value))
    } else {
        entries.insert(at, (key, value))
    }
}

/// Every key comes before the keys behind it; so no key occurs twice.
pub open spec fn ascending(entries: Entries) -> bool {
    forall|i: int, j: int|
        0 <= i < j < entries.len() ==> text_less(#[trigger] entries[i].0, #[trigger] entries[j].0)
}

/// Where `place` is, seen from the entries around it.
pub proof fn lemma_place(entries: Entries, key: Seq<char>)
    ensures
        0 <= place(entries, key) <= entries.len(),
        forall|i: int|
            0 <= i < place(entries, key) ==> text_less(#[trigger] entries[i].0, key),
        place(entries, key) < entries.len() ==> !text_less(
            entries[place(entries, key)].0,
            key,
        ),
    decreases entries.len(),
{
    if entries.len() > 0 && text_less(entries[0].0, key) {
        lemma_place(entries.drop_first(), key);
        assert forall|i: int| 0 <= i < place(entries, key) implies text_less(
            #[trigger] entries[i].0,
            key,
        ) by {
            if i > 0 {
                assert(entries.drop_first()[i - 1] == entries[i]);
            }
        }
    }
}

proof fn lemma_place_is(entries: Entries, key: Seq<char>, at: int)
    requires
        0 <= at <= entries.len(),
        forall|i: int| 0 <= i < at ==> text_less(#[trigger] entries[i].0, key),
        at < entries.len() ==> !text_less(entries[at].0, key),
    ensures
        place(entries, key) == at,
{
    lemma_place(entries, key);
    let p = place(entries, key);
    if p < at {
        assert(text_less(entries[p].0, key));
    }
    if at < p {
        assert(text_less(entries[at].0, key));
    }
}

/// Putting a value keeps the keys in order.
pub proof fn lemma_put_ascending(entries: Entries, key: Seq<char>, value: ValueView)
    requires
        ascending(entries),
    ensures
        ascending(put(entries, key, value)),
{
    lemma_place(entries, key);
    let at = place(entries, key);
    let after = put(entries, key, value);
    assert forall|i: int, j: int| 0 <= i < j < after.len() implies text_less(
        #[trigger] after[i].0,
        #[trigger] after[j].0,
    ) by {
        if at < entries.len() && entries[at].0 == key {
            assert(after[i].0 == entries[i].0);
            assert(after[j].0 == entries[j].0);
        } else {
            if at < entries.len() {
                lemma_text_total(entries[at].0, key);
            }
            if j < at {
                assert(after[i] == entries[i] && after[j] == entries[j]);
            } else if j == at {
                assert(after[i] == entries[i]);
            } else if i < at {
                assert(after[i] == entries[i]);
                assert(after[j] == entries[j - 1]);
            } else if i == at {
                assert(after[j] == entries[j - 1]);
                if j - 1 > at {
                    lemma_text_transitive(key, entries[at].0, entries[j - 1].0);
                }
            } else {
                assert(after[i] == entries[i - 1] && after[j] == entries[j - 1]);
            }
        }
    }
}

/// A value that was put under a key is found there, and every other key keeps
/// its value.
pub proof fn law_metadata_reads_back(
    entries: Entries,
    key: Seq<char>,
    value: ValueView,
    other: Seq<char>,
)
    requires
        ascending(entries),
    ensures
        lookup(put(entries, key, value), key) == Some(value),
        other != key ==> lookup(put(entries, key, value), other) == lookup(entries, other),
{
    let at = place(entries, key);
    let after = put(entries, key, value);
    lemma_place(entries, key);
    lemma_put_ascending(entries, key, value);
    lemma_text_irreflexive(key);
    assert forall|i: int| 0 <= i < at implies text_less(#[trigger] after[i].0, key) by {
        assert(after[i] == entries[i]);
    }
    lemma_place_is(after, key, at);
    if other != key {
        lemma_place(entries, other);
        let q = place(entries, other);
        lemma_text_total(key, other);
        if at < entries.len() && entries[at].0 == key {
            assert forall|i: int| 0 <= i < after.len() implies (#[trigger] after[i]).0
                == entries[i].0 by {}
            lemma_place_is(after, other, q);
        } else if text_less(key, other) {
            // The new entry stands before the place of `other`.
            if q < at {
                assert(text_less(entries[q].0, key));
                lemma_text_transitive(entries[q].0, key, other);
            }
            assert forall|i: int| 0 <= i < q + 1 implies text_less(#[trigger] after[i].0, other) by {
                if i < at {
                    assert(after[i] == entries[i]);
                } else if i > at {
                    assert(after[i] == entries[i - 1]);
                }
            }
            if q < entries.len() {
                assert(after[q + 1] == entries[q]);
            }
            lemma_place_is(after, other, q + 1);
        } else {
            // The new entry stands at or behind the place of `other`.
            if q > at {
                assert(text_less(entries[at].0, other));
                lemma_text_transitive(entries[at].0, other, key);
            }
            assert forall|i: int| 0 <= i < q implies text_less(#[trigger] after[i].0, other) by {
                assert(after[i] == entries[i]);
            }
            if q < at {
                assert(after[q] == entries[q]);
            } else {
                assert(after[q].0 == key);
                if q < entries.len() && entries[q].0 == other {
                    lemma_text_total(entries[q].0, key);
                }
            }
            lemma_place_is(after, other, q);
        }
    }
}

/// A map from text keys to scalar values, kept in the order of the keys.
#[derive(Debug, PartialEq)]
pub struct Metadata {
    entries: Vec<(String, Value)>,
}

impl View for Metadata {
    type V = Entries;

    closed spec fn view(&self) -> Entries {
        self.entries@.map_values(|e: (String, Value)| (e.0@, e.1@))
    }
}

impl Metadata {
    /// The keys are in order and unique.
    #[verifier::type_invariant]
    pub open spec fn wf(&self) -> bool {
        ascending(self@)
    }

    /// No entries.
    pub fn new() -> (metadata: Metadata)
        ensures
            metadata@ == Seq::<(Seq<char>, ValueView)>::empty(),
    {
        let entries: Vec<(String, Value)> = Vec::new();
        assert(entries@.map_values(|e: (String, Value)| (e.0@, e.1@)) =~= Seq::empty());
        Metadata { entries }
    }

    /// The number of entries.
    pub fn len(&self) -> (length: usize)
        ensures
            length == self@.len(),
    {
        self.entries.len()
    }

    /// Whether there are no entries.
    pub fn is_empty(&self) -> (empty: bool)
        ensures
            empty == (self@.len() == 0),
    {
        self.entries.len() == 0
    }

    /// The key at a position.
    pub fn key_at(&self, index: usize) -> (key: &String)
        requires
            index < self@.len(),
        ensures
            key@ == self@[index as int].0,
    {
        &self.entries[index].0
    }

    /// The value at a position.
    pub fn value_at(&self, index: usize) -> (value: &Value)
        requires
            index < self@.len(),
        ensures
            value@ == self@[index as int].1,
    {
        &self.entries[index].1
    }

    fn find(&self, key: &str) -> (at: usize)
        ensures
            at == place(self@, key@),
            at <= self@.len(),
    {
        let mut at: usize = 0;
        while at < self.entries.len()
            invariant_except_break
                at <= self@.len(),
                forall|i: int| 0 <= i < at ==> text_less(#[trigger] self@[i].0, key@),
            ensures
                at <= self@.len(),
                forall|i: int| 0 <= i < at ==> text_less(#[trigger] self@[i].0, key@),
                at < self@.len() ==> !text_less(self@[at as int].0, key@),
            decreases self.entries.len() - at,
        {
            if compare_text(self.entries[at].0.as_str(), key) != Order::Less {
                break ;
            }
            at = at + 1;
        }
        proof {
            lemma_place_is(self@, key@, at as int);
        }
        at
    }

    /// The value under a key.
    pub fn get(&self, key: &str) -> (value: Option<&Value>)
        ensures
            match lookup(self@, key@) {
                Some(v) => value is Some && value->0@ == v,
                None => value is None,
            },
    {
        let at: usize = self.find(key);
        if at < self.entries.len() && same_text(self.entries[at].0.as_str(), key) {
            Some(&self.entries[at].1)
        } else {
            None
        }
    }

    /// Puts a value under a key, in place of what was there.
    pub fn insert(&mut self, key: String, value: Value)
        ensures
            final(self)@ == put(old(self)@, key@, value@),
    {
        proof {
            use_type_invariant(&*self);
            lemma_put_ascending(self@, key@, value@);
        }
        let at: usize = self.find(key.as_str());
        let ghost before = self@;
        let mut entries: Vec<(String, Value)> = Vec::new();
        assert(entries@.map_values(|e: (String, Value)| (e.0@, e.1@)) =~= Seq::empty());
        std::mem::swap(&mut entries, &mut self.entries);
        let ghost views = |e: (String, Value)| (e.0@, e.1@);
        assert(entries@.map_values(views) =~= before);
        if at < entries.len() && same_text(entries[at].0.as_str(), key.as_str()) {
            entries[at] = (key, value);
            assert(entries@.map_values(views) =~= before.update(at as int, (key@, value@)));
        } else {
            entries.insert(at, (key, value));
            assert(entries@.map_values(views) =~= before.insert(at as int, (key@, value@)));
        }
        assert(entries@.map_values(views) == put(before, key@, value@));
        self.entries = entries;
    }
}

impl Clone for Metadata {
    fn clone(&self) -> (copy: Metadata)
        ensures
            copy@ == self@,
    {
        let mut entries: Vec<(String, Value)> = Vec::new();
        let mut i: usize = 0;
        while i < self.entries.len()
            invariant
                i <= self.entries.len(),
                entries.len() == i,
                forall|j: int|
                    0 <= j < i ==> (#[trigger] entries@[j]).0@ == self.entries@[j].0@
                        && entries@[j].1@ == self.entries@[j].1@,
            decreases self.entries.len() - i,
        {
            entries.push((self.entries[i].0.clone(), self.entries[i].1.clone()));
            i = i + 1;
        }
        proof {
            use_type_invariant(self);
            assert(entries@.map_values(|e: (String, Value)| (e.0@, e.1@)) =~= self@);
        }
        Metadata { entries }
    }
}

/// A look-up finds exactly the entries: a value is found under a key where the two stand
/// together, and nothing is found where no entry has the key.
pub proof fn law_lookup_finds_the_entries(entries: Entries, key: Seq<char>, value: ValueView)
    requires
        ascending(entries),
    ensures
        lookup(entries, key) == Some(value) <==> entries.contains((key, value)),
        lookup(entries, key) is None <==> forall|i: int|
            0 <= i < entries.len() ==> (#[trigger] entries[i]).0 != key,
{
    let at = place(entries, key);
    lemma_place(entries, key);
    lemma_text_irreflexive(key);
    assert forall|i: int| 0 <= i < entries.len() && (#[trigger] entries[i]).0 == key implies i
        == at by {
        if i > at {
            assert(text_less(entries[at].0, entries[i].0));
        }
    }
    if entries.contains((key, value)) {
        let i = choose|i: int| 0 <= i < entries.len() && entries[i] == (key, value);
        assert(entries[i].0 == key);
    }
    if lookup(entries, key) == Some(value) {
        assert(entries[at] == (key, value));
    }
}

} // verus!
