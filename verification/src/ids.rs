//! Sets of point IDs.
use crate::table::Table;
use vstd::prelude::*;

verus! {

/// The value of a key that is only present or absent.
pub struct Mark {}

impl View for Mark {
    type V = ();

    open spec fn view(&self) -> () {
        ()
    }
}

/// A set of point IDs that can also be walked by position.
pub struct IdSet {
    table: Table<Mark>,
}

impl View for IdSet {
    type V = Set<Seq<char>>;

    closed spec fn view(&self) -> Set<Seq<char>> {
        self.table@.dom()
    }
}

impl IdSet {
    /// The invariant.
    pub closed spec fn wf(&self) -> bool {
        self.table.wf()
    }

    /// The IDs in the order of their positions.
    pub closed spec fn order(&self) -> Seq<Seq<char>> {
        self.table.keys()
    }

    /// The IDs by position are the members of the set, each once.
    pub proof fn lemma_order(&self)
        requires
            self.wf(),
        ensures
            self@.finite(),
            self.order().len() == self@.len(),
            self.order().no_duplicates(),
            forall|i: int| 0 <= i < self.order().len() ==> self@.contains(#[trigger] self.order()[i]),
            forall|id: Seq<char>| #[trigger] self@.contains(id) ==> self.order().contains(id),
    {
        self.table.lemma_keys();
        assert forall|i: int| 0 <= i < self.order().len() implies self@.contains(
            #[trigger] self.order()[i],
        ) by {
            assert(self.table@.contains_key(self.table.keys()[i]));
        }
        assert forall|id: Seq<char>| #[trigger] self@.contains(id) implies self.order().contains(
            id,
        ) by {
            assert(self.table@.contains_key(id));
        }
    }

    /// No IDs.
    pub fn new() -> (set: IdSet)
        ensures
            set.wf(),
            set@ == Set::<Seq<char>>::empty(),
    {
        let set = IdSet { table: Table::new() };
        assert(set@ =~= Set::empty());
        set
    }

    /// The number of IDs.
    pub fn len(&self) -> (length: usize)
        requires
            self.wf(),
        ensures
            length == self@.len(),
            length == self.order().len(),
    {
        proof {
            self.lemma_order();
        }
        self.table.len()
    }

    /// Whether there are no IDs.
    pub fn is_empty(&self) -> (empty: bool)
        requires
            self.wf(),
        ensures
            empty == (self@.len() == 0),
    {
        self.len() == 0
    }

    /// Whether an ID is a member.
    pub fn contains(&self, id: &str) -> (member: bool)
        requires
            self.wf(),
        ensures
            member == self@.contains(id@),
    {
        self.table.contains(id)
    }

    /// The ID at a position.
    pub fn at(&self, index: usize) -> (id: &String)
        requires
            self.wf(),
            index < self.order().len(),
        ensures
            id@ == self.order()[index as int],
    {
        self.table.key_at(index)
    }

    /// Adds an ID; says whether it was new.
    pub fn insert(&mut self, id: String) -> (added: bool)
        requires
            old(self).wf(),
        ensures
            final(self).wf(),
            final(self)@ == old(self)@.insert(id@),
            added == !old(self)@.contains(id@),
    {
        let ghost before = self@;
        let ghost name = id@;
        let replaced: bool = self.table.insert(id, Mark {  });
        assert(self@ =~= before.insert(name));
        !replaced
    }

    /// Takes all IDs out.
    pub fn clear(&mut self)
        ensures
            final(self).wf(),
            final(self)@ == Set::<Seq<char>>::empty(),
    {
        self.table.clear();
        assert(self@ =~= Set::empty());
    }

    /// A set with the same members.
    pub fn duplicate(&self) -> (copy: IdSet)
        requires
            self.wf(),
        ensures
            copy.wf(),
            copy@ == self@,
    {
        let mut copy = IdSet::new();
        let mut i: usize = 0;
        while i < self.len()
            invariant
                self.wf(),
                copy.wf(),
                i <= self.order().len(),
                forall|id: Seq<char>| #[trigger]
                    copy@.contains(id) <==> self.order().subrange(0, i as int).contains(id),
            decreases self.order().len() - i,
        {
            let ghost before = copy@;
            let id = self.at(i).clone();
            copy.insert(id);
            proof {
                let head = self.order().subrange(0, i as int);
                let next = self.order().subrange(0, i + 1);
                assert(next =~= head.push(self.order()[i as int]));
                assert forall|id: Seq<char>| #[trigger] copy@.contains(id) <==> next.contains(
                    id,
                ) by {
                    assert(copy@.contains(id) <==> before.contains(id) || id
                        == self.order()[i as int]);
                    if head.contains(id) {
                        let x = choose|x: int| 0 <= x < head.len() && head[x] == id;
                        assert(next[x] == id);
                    }
                    if id == self.order()[i as int] {
                        assert(next[i as int] == id);
                    }
                    if next.contains(id) {
                        let x = choose|x: int| 0 <= x < next.len() && next[x] == id;
                        if x < i {
                            assert(head[x] == id);
                        }
                    }
                }
            }
            i = i + 1;
        }
        proof {
            self.lemma_order();
            assert(self.order().subrange(0, i as int) =~= self.order());
            assert forall|id: Seq<char>| copy@.contains(id) <==> self@.contains(id) by {
                if self.order().contains(id) {
                    let x = choose|x: int| 0 <= x < self.order().len() && self.order()[x] == id;
                    assert(self@.contains(self.order()[x]));
                }
            }
            assert(copy@ =~= self@);
        }
        copy
    }

    /// The members that `other` has, or, with `shared` false, those that it has not.
    pub fn compared(&self, other: &IdSet, shared: bool) -> (result: IdSet)
        requires
            self.wf(),
            other.wf(),
        ensures
            result.wf(),
            result@ == if shared {
                self@.intersect(other@)
            } else {
                self@.difference(other@)
            },
    {
        let mut result = IdSet::new();
        let mut i: usize = 0;
        while i < self.len()
            invariant
                self.wf(),
                other.wf(),
                result.wf(),
                i <= self.order().len(),
                forall|id: Seq<char>| #[trigger]
                    result@.contains(id) <==> exists|x: int|
                        0 <= x < i && (#[trigger] self.order()[x]) == id && other@.contains(id)
                            == shared,
            decreases self.order().len() - i,
        {
            let ghost before = result@;
            let id = self.at(i);
            if other.contains(id.as_str()) == shared {
                result.insert(id.clone());
            }
            proof {
                let new = self.order()[i as int];
                assert forall|id: Seq<char>| #[trigger]
                    result@.contains(id) <==> exists|x: int|
                        0 <= x < i + 1 && (#[trigger] self.order()[x]) == id && other@.contains(id)
                            == shared by {
                    assert(result@.contains(id) <==> before.contains(id) || (id == new
                        && other@.contains(new) == shared));
                    if before.contains(id) {
                        let x = choose|x: int|
                            0 <= x < i && (#[trigger] self.order()[x]) == id && other@.contains(id)
                                == shared;
                        assert(0 <= x < i + 1 && self.order()[x] == id);
                    }
                }
            }
            i = i + 1;
        }
        proof {
            self.lemma_order();
            assert forall|id: Seq<char>| #[trigger]
                result@.contains(id) <==> self@.contains(id) && other@.contains(id) == shared by {
                if self@.contains(id) && other@.contains(id) == shared {
                    assert(self.order().contains(id));
                    let x = choose|x: int| 0 <= x < self.order().len() && self.order()[x] == id;
                    assert(0 <= x < i && self.order()[x] == id);
                }
                if result@.contains(id) {
                    let x = choose|x: int|
                        0 <= x < i && (#[trigger] self.order()[x]) == id && other@.contains(id)
                            == shared;
                    assert(self@.contains(self.order()[x]));
                }
            }
            if shared {
                assert(result@ =~= self@.intersect(other@));
            } else {
                assert(result@ =~= self@.difference(other@));
            }
        }
        result
    }

    /// Adds all members of another set.
    pub fn extend(&mut self, other: &IdSet)
        requires
            old(self).wf(),
            other.wf(),
        ensures
            final(self).wf(),
            final(self)@ == old(self)@.union(other@),
    {
        let ghost before = self@;
        let mut i: usize = 0;
        while i < other.len()
            invariant
                self.wf(),
                other.wf(),
                i <= other.order().len(),
                forall|id: Seq<char>| #[trigger]
                    self@.contains(id) <==> before.contains(id) || exists|x: int|
                        0 <= x < i && (#[trigger] other.order()[x]) == id,
            decreases other.order().len() - i,
        {
            let ghost held = self@;
            self.insert(other.at(i).clone());
            proof {
                let new = other.order()[i as int];
                assert forall|id: Seq<char>| #[trigger]
                    self@.contains(id) <==> before.contains(id) || exists|x: int|
                        0 <= x < i + 1 && (#[trigger] other.order()[x]) == id by {
                    assert(self@.contains(id) <==> held.contains(id) || id == new);
                    if held.contains(id) && !before.contains(id) {
                        let x = choose|x: int| 0 <= x < i && (#[trigger] other.order()[x]) == id;
                        assert(0 <= x < i + 1 && other.order()[x] == id);
                    }
                }
            }
            i = i + 1;
        }
        proof {
            other.lemma_order();
            assert forall|id: Seq<char>| #[trigger]
                self@.contains(id) <==> before.contains(id) || other@.contains(id) by {
                if other@.contains(id) {
                    assert(other.order().contains(id));
                    let x = choose|x: int| 0 <= x < other.order().len() && other.order()[x] == id;
                    assert(0 <= x < i && other.order()[x] == id);
                }
            }
            assert(self@ =~= before.union(other@));
        }
    }
}

} // verus!
