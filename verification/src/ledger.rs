//! Which requests have been settled, and how.
use crate::collection::views;
use crate::raft_storage::{ResponseView, ShardResponse};
use crate::table::Table;
use crate::text::{digit, padded, padded_text};
use vstd::prelude::*;
use vstd::string::*;

verus! {

/// A request of a client and what became of it.
#[derive(Debug, PartialEq, Eq)]
pub struct Settled {
    pub client_id: String,
    pub request_id: u64,
    pub response: ShardResponse,
}

/// A settled request, as contracts see it.
pub struct SettledView {
    pub client_id: Seq<char>,
    pub request_id: u64,
    pub response: ResponseView,
}

impl View for Settled {
    type V = SettledView;

    open spec fn view(&self) -> SettledView {
        SettledView {
            client_id: self.client_id@,
            request_id: self.request_id,
            response: self.response@,
        }
    }
}

impl Clone for Settled {
    fn clone(&self) -> (copy: Settled)
        ensures
            copy@ == self@,
    {
        Settled {
            client_id: self.client_id.clone(),
            request_id: self.request_id,
            response: self.response.clone(),
        }
    }
}

impl SettledView {
    /// What tells the request from every other.
    pub open spec fn identity(self) -> (Seq<char>, u64) {
        (self.client_id, self.request_id)
    }
}

/// Responses by client and request.
pub type Responses = Map<(Seq<char>, u64), ResponseView>;

/// The responses of settled requests; of a request that stands twice, the last.
pub open spec fn responses(list: Seq<SettledView>) -> Responses
    decreases list.len(),
{
    if list.len() == 0 {
        Map::empty()
    } else {
        responses(list.drop_last()).insert(list.last().identity(), list.last().response)
    }
}

/// Ten to a power.
spec fn ten_to(width: nat) -> nat
    decreases width,
{
    if width == 0 {
        1
    } else {
        10 * ten_to((width - 1) as nat)
    }
}

proof fn lemma_padded_injective(a: nat, b: nat, width: nat)
    requires
        a < ten_to(width),
        b < ten_to(width),
        padded(a, width) == padded(b, width),
    ensures
        a == b,
    decreases width,
{
    if width > 0 {
        let shorter = (width - 1) as nat;
        let x = padded(a, width);
        let y = padded(b, width);
        assert(x.drop_last() =~= padded(a / 10, shorter));
        assert(y.drop_last() =~= padded(b / 10, shorter));
        assert(x.last() == digit((a % 10) as int)[0]);
        assert(y.last() == digit((b % 10) as int)[0]);
        lemma_padded_injective(a / 10, b / 10, shorter);
    }
}

proof fn lemma_padded_length(n: nat, width: nat)
    ensures
        padded(n, width).len() == width,
    decreases width,
{
    if width > 0 {
        lemma_padded_length(n / 10, (width - 1) as nat);
    }
}

/// The key of a request: its number in twenty digits, then its client.
spec fn slot(identity: (Seq<char>, u64)) -> Seq<char> {
    padded(identity.1 as nat, 20) + identity.0
}

proof fn lemma_slots_differ(a: (Seq<char>, u64), b: (Seq<char>, u64))
    requires
        slot(a) == slot(b),
    ensures
        a == b,
{
    lemma_padded_length(a.1 as nat, 20);
    lemma_padded_length(b.1 as nat, 20);
    assert(slot(a).subrange(0, 20) =~= padded(a.1 as nat, 20));
    assert(slot(b).subrange(0, 20) =~= padded(b.1 as nat, 20));
    reveal_with_fuel(ten_to, 21);
    lemma_padded_injective(a.1 as nat, b.1 as nat, 20);
    assert(slot(a).subrange(20, slot(a).len() as int) =~= a.0);
    assert(slot(b).subrange(20, slot(b).len() as int) =~= b.0);
}

/// The settled requests of all clients.
pub struct Ledger {
    table: Table<Settled>,
}

impl View for Ledger {
    type V = Responses;

    closed spec fn view(&self) -> Responses {
        Map::new(
            |id: (Seq<char>, u64)| self.table@.contains_key(slot(id)),
            |id: (Seq<char>, u64)| self.table@[slot(id)].response,
        )
    }
}

impl Ledger {
    /// Every request stands under its own key.
    pub closed spec fn wf(&self) -> bool {
        &&& self.table.wf()
        &&& forall|key: Seq<char>| #[trigger]
            self.table@.contains_key(key) ==> key == slot(self.table@[key].identity())
    }

    /// A ledger without requests.
    pub fn new() -> (ledger: Ledger)
        ensures
            ledger.wf(),
            ledger@ == Map::<(Seq<char>, u64), ResponseView>::empty(),
    {
        let ledger = Ledger { table: Table::new() };
        assert(ledger@ =~= Map::empty());
        ledger
    }

    fn key(client_id: &str, request_id: u64) -> (key: String)
        ensures
            key@ == slot((client_id@, request_id)),
    {
        let mut key = padded_text(request_id, 20);
        key.append(client_id);
        key
    }

    /// What became of a request.
    pub fn get(&self, client_id: &str, request_id: u64) -> (response: Option<&ShardResponse>)
        requires
            self.wf(),
        ensures
            match response {
                Some(r) => self@.contains_key((client_id@, request_id)) && r@ == self@[(
                    client_id@,
                    request_id,
                )],
                None => !self@.contains_key((client_id@, request_id)),
            },
    {
        let key = Ledger::key(client_id, request_id);
        match self.table.get(key.as_str()) {
            Some(settled) => Some(&settled.response),
            None => None,
        }
    }

    /// Settles a request.
    pub fn insert(&mut self, client_id: String, request_id: u64, response: ShardResponse)
        requires
            old(self).wf(),
        ensures
            final(self).wf(),
            final(self)@ == old(self)@.insert((client_id@, request_id), response@),
    {
        let ghost before = self.table@;
        let ghost known = self@;
        let ghost id = (client_id@, request_id);
        let ghost value = response@;
        let key = Ledger::key(client_id.as_str(), request_id);
        self.table.insert(key, Settled { client_id, request_id, response });
        proof {
            let wanted = known.insert(id, value);
            assert forall|other: (Seq<char>, u64)|
                #![trigger self@.contains_key(other)]
                #![trigger wanted.contains_key(other)]
                self@.contains_key(other) == wanted.contains_key(other) && (wanted.contains_key(
                    other,
                ) ==> self@[other] == wanted[other]) by {
                if slot(other) == slot(id) {
                    lemma_slots_differ(other, id);
                }
            }
            assert(self@ =~= wanted);
        }
    }

    /// All settled requests.
    pub fn entries(&self) -> (list: Vec<Settled>)
        requires
            self.wf(),
        ensures
            responses(views(list@)) == self@,
    {
        let ghost keys = self.table.keys();
        let mut list: Vec<Settled> = Vec::new();
        let mut i: usize = 0;
        while i < self.table.len()
            invariant
                self.wf(),
                keys == self.table.keys(),
                i <= keys.len(),
                list@.len() == i,
                forall|j: int| 0 <= j < i ==> (#[trigger] list@[j])@ == self.table@[keys[j]],
            decreases keys.len() - i,
        {
            let copy = self.table.value_at(i).clone();
            list.push(copy);
            i = i + 1;
        }
        proof {
            self.table.lemma_keys();
            let shown = views(list@);
            assert forall|j: int| 0 <= j < shown.len() implies self@.contains_key(
                (#[trigger] shown[j]).identity(),
            ) && self@[shown[j].identity()] == shown[j].response by {
                assert(shown[j] == list@[j]@);
                assert(self.table@.contains_key(keys[j]));
            }
            lemma_responses(shown, self@, shown.len() as int);
            assert(shown.subrange(0, shown.len() as int) =~= shown);
            assert forall|id: (Seq<char>, u64)|
                #![trigger self@.contains_key(id)]
                #![trigger responses(shown).contains_key(id)]
                self@.contains_key(id) == responses(shown).contains_key(id) by {
                if self@.contains_key(id) {
                    let key = slot(id);
                    assert(self.table@.contains_key(key));
                    assert(keys.contains(key));
                    let j = choose|j: int| 0 <= j < keys.len() && keys[j] == key;
                    assert(list@[j]@ == self.table@[keys[j]]);
                    lemma_slots_differ(id, shown[j].identity());
                    assert(responses(shown).contains_key(shown[j].identity()));
                }
            }
            assert(responses(shown) =~= self@);
        }
        list
    }

    /// The ledger of settled requests.
    pub fn from_entries(list: &Vec<Settled>) -> (ledger: Ledger)
        ensures
            ledger.wf(),
            ledger@ == responses(views(list@)),
    {
        let ghost all = views(list@);
        let mut ledger = Ledger::new();
        let mut i: usize = 0;
        assert(all.subrange(0, 0) =~= Seq::empty());
        while i < list.len()
            invariant
                i <= list@.len(),
                all == views(list@),
                ledger.wf(),
                ledger@ == responses(all.subrange(0, i as int)),
            decreases list.len() - i,
        {
            let item = &list[i];
            ledger.insert(item.client_id.clone(), item.request_id, item.response.clone());
            assert(all.subrange(0, i + 1).drop_last() =~= all.subrange(0, i as int));
            i = i + 1;
        }
        assert(all.subrange(0, i as int) =~= all);
        ledger
    }
}

/// A list whose requests are all settled as `known` says has no response but those.
proof fn lemma_responses(list: Seq<SettledView>, known: Responses, count: int)
    requires
        0 <= count <= list.len(),
        forall|i: int|
            0 <= i < list.len() ==> known.contains_key((#[trigger] list[i]).identity())
                && known[list[i].identity()] == list[i].response,
    ensures
        forall|id: (Seq<char>, u64)| #[trigger]
            responses(list.subrange(0, count)).contains_key(id) ==> known.contains_key(id)
                && known[id] == responses(list.subrange(0, count))[id],
        forall|i: int|
            0 <= i < count ==> responses(list.subrange(0, count)).contains_key(
                (#[trigger] list[i]).identity(),
            ),
    decreases count,
{
    if count > 0 {
        lemma_responses(list, known, count - 1);
        assert(list.subrange(0, count).drop_last() =~= list.subrange(0, count - 1));
        let last = list[count - 1];
        let before = responses(list.subrange(0, count - 1));
        let after = responses(list.subrange(0, count));
        assert(after == before.insert(last.identity(), last.response));
        assert(known.contains_key(last.identity()));
        assert forall|id: (Seq<char>, u64)| #[trigger] after.contains_key(id) implies known.contains_key(
            id,
        ) && known[id] == after[id] by {
            if id != last.identity() {
                assert(before.contains_key(id));
            }
        }
    }
}

/// Each settled request has the response of its last entry, and no other request has one.
pub proof fn law_last_response_counts(list: Seq<SettledView>, identity: (Seq<char>, u64))
    ensures
        forall|i: int|
            0 <= i < list.len() && (#[trigger] list[i]).identity() == identity && (forall|j: int|
                i < j < list.len() ==> (#[trigger] list[j]).identity() != identity)
                ==> responses(list).contains_key(identity) && responses(list)[identity]
                == list[i].response,
        responses(list).contains_key(identity) ==> exists|i: int|
            0 <= i < list.len() && (#[trigger] list[i]).identity() == identity,
    decreases list.len(),
{
    if list.len() > 0 {
        let rest = list.drop_last();
        let end = list.len() - 1;
        law_last_response_counts(rest, identity);
        assert forall|i: int|
            0 <= i < list.len() && (#[trigger] list[i]).identity() == identity && (forall|j: int|
                i < j < list.len() ==> (#[trigger] list[j]).identity() != identity) implies responses(
            list,
        ).contains_key(identity) && responses(list)[identity] == list[i].response by {
            if i < end {
                assert(list[end].identity() != identity);
                assert(rest[i] == list[i]);
                assert forall|j: int| i < j < rest.len() implies (#[trigger] rest[j]).identity()
                    != identity by {
                    assert(list[j].identity() != identity);
                }
            }
        }
        if responses(list).contains_key(identity) {
            if list[end].identity() != identity {
                let i = choose|i: int|
                    0 <= i < rest.len() && (#[trigger] rest[i]).identity() == identity;
                assert(list[i].identity() == identity);
            }
        }
    }
}

} // verus!
