//! The names that a macro's pattern has bound, each with the piece of tree that it stands for.

use vstd::prelude::*;
use crate::ast::{AST, AstModel};
use crate::span::{Spanned, SpannedModel};

verus! {

/// What bindings hold: a piece of tree for each name.
pub type BindingsModel = Map<Seq<char>, SpannedModel<AstModel>>;

/// Names and the pieces of tree that they stand for. No name is bound twice.
#[derive(Debug)]
pub struct Bindings {
    entries: Vec<(String, Spanned<AST>)>,
}

/// The names of a row of entries are all different.
pub open spec fn names_distinct(entries: Seq<(String, Spanned<AST>)>) -> bool {
    forall|i: int, j: int| 0 <= i < j < entries.len() ==> entries[i].0@ != entries[j].0@
}

/// What a row of entries binds, a later entry taking the place of an earlier one
/// of the same name.
pub open spec fn entries_model(entries: Seq<(String, Spanned<AST>)>) -> BindingsModel
    decreases entries.len(),
{
    if entries.len() == 0 {
        Map::empty()
    } else {
        entries_model(entries.drop_last()).insert(entries.last().0@, entries.last().1@)
    }
}

/// A name is bound by a row of entries just where one of the entries has that name.
pub proof fn lemma_entries_names(entries: Seq<(String, Spanned<AST>)>, name: Seq<char>)
    ensures
        entries_model(entries).contains_key(name) <==> exists|i: int|
            0 <= i < entries.len() && (#[trigger] entries[i]).0@ == name,
    decreases entries.len(),
{
    if entries.len() > 0 {
        let shorter = entries.drop_last();
        lemma_entries_names(shorter, name);
        if entries_model(entries).contains_key(name) {
            if entries.last().0@ == name {
                assert(entries[entries.len() - 1].0@ == name);
            } else {
                let i = choose|i: int| 0 <= i < shorter.len() && (#[trigger] shorter[i]).0@ == name;
                assert(entries[i].0@ == name);
            }
        }
        if exists|i: int| 0 <= i < entries.len() && (#[trigger] entries[i]).0@ == name {
            let i = choose|i: int| 0 <= i < entries.len() && (#[trigger] entries[i]).0@ == name;
            if i < entries.len() - 1 {
                assert(shorter[i].0@ == name);
            }
        }
    }
}

/// Where the names are all different, each entry's name is bound to that entry's tree.
pub proof fn lemma_entries_values(entries: Seq<(String, Spanned<AST>)>, at: int)
    requires
        names_distinct(entries),
        0 <= at < entries.len(),
    ensures
        entries_model(entries).contains_key(entries[at].0@),
        entries_model(entries)[entries[at].0@] == entries[at].1@,
    decreases entries.len(),
{
    if at < entries.len() - 1 {
        let shorter = entries.drop_last();
        assert(names_distinct(shorter)) by {
            assert forall|i: int, j: int| 0 <= i < j < shorter.len() implies shorter[i].0@
                != shorter[j].0@ by {
                assert(shorter[i] == entries[i]);
                assert(shorter[j] == entries[j]);
            }
        }
        lemma_entries_values(shorter, at);
        assert(shorter[at] == entries[at]);
    }
}

impl View for Bindings {
    type V = BindingsModel;

    closed spec fn view(&self) -> BindingsModel {
        entries_model(self.entries@)
    }
}

impl Bindings {
    #[verifier::type_invariant]
    spec fn well_formed(self) -> bool {
        names_distinct(self.entries@)
    }

    /// Bindings that bind no name.
    pub fn new() -> (bindings: Bindings)
        ensures
            bindings@ == Map::<Seq<char>, SpannedModel<AstModel>>::empty(),
    {
        Bindings { entries: Vec::new() }
    }

    /// Where the entry of a name stands, if the name is bound.
    fn find(&self, name: &String) -> (found: Option<usize>)
        ensures
            match found {
                Some(at) => at < self.entries.len() && self.entries@[at as int].0@ == name@,
                None => forall|i: int|
                    0 <= i < self.entries.len() ==> (#[trigger] self.entries@[i]).0@ != name@,
            },
    {
        let mut i: usize = 0;
        while i < self.entries.len()
            invariant
                i <= self.entries.len(),
                forall|j: int| 0 <= j < i ==> (#[trigger] self.entries@[j]).0@ != name@,
            decreases self.entries.len() - i,
        {
            if self.entries[i].0 == *name {
                return Some(i);
            }
            i = i + 1;
        }
        None
    }

    /// Whether a name is bound.
    pub fn contains_key(&self, name: &str) -> (bound: bool)
        ensures
            bound == self@.contains_key(name@),
    {
        let name = name.to_owned();
        proof {
            lemma_entries_names(self.entries@, name@);
        }
        self.find(&name).is_some()
    }

    /// The tree that a name is bound to, if it is bound.
    pub fn get(&self, name: &str) -> (tree: Option<&Spanned<AST>>)
        ensures
            tree is Some <==> self@.contains_key(name@),
            tree is Some ==> tree.unwrap()@ == self@[name@],
    {
        let name = name.to_owned();
        proof {
            use_type_invariant(self);
            lemma_entries_names(self.entries@, name@);
        }
        match self.find(&name) {
            Some(at) => {
                proof {
                    lemma_entries_values(self.entries@, at as int);
                }
                Some(&self.entries[at].1)
            },
            None => None,
        }
    }

    /// Takes the entries out and leaves none behind.
    fn take_entries(&mut self) -> (entries: Vec<(String, Spanned<AST>)>)
        ensures
            entries@ == old(self).entries@,
            entries_model(entries@) == old(self)@,
            names_distinct(entries@),
            final(self)@ == Map::<Seq<char>, SpannedModel<AstModel>>::empty(),
    {
        proof {
            use_type_invariant(&*self);
        }
        let mut taken = Bindings { entries: Vec::new() };
        core::mem::swap(self, &mut taken);
        taken.entries
    }

    /// Binds a name to a tree. What the name was bound to before is forgotten.
    pub fn insert(&mut self, name: String, tree: Spanned<AST>)
        ensures
            final(self)@ == old(self)@.insert(name@, tree@),
    {
        proof {
            use_type_invariant(&*self);
            lemma_entries_names(self.entries@, name@);
        }
        let found = self.find(&name);
        let mut entries = self.take_entries();
        let ghost before = entries@;
        match found {
            Some(at) => {
                proof {
                    lemma_replaced(before, at as int, (name, tree));
                }
                entries.set(at, (name, tree));
            },
            None => {
                assert(names_distinct(before.push((name, tree)))) by {
                    assert forall|a: int, b: int|
                        0 <= a < b < before.len() + 1 implies before.push((name, tree))[a].0@
                        != before.push((name, tree))[b].0@ by {
                        if b == before.len() {
                            assert(before[a].0@ != name@);
                        }
                    }
                }
                entries.push((name, tree));
                assert(entries@.drop_last() =~= before);
            },
        }
        *self = Bindings { entries };
    }

    /// How many names are bound.
    pub fn len(&self) -> (count: usize)
        ensures
            count == self@.dom().len(),
            self@.dom().finite(),
    {
        proof {
            use_type_invariant(self);
            lemma_entries_count(self.entries@);
        }
        self.entries.len()
    }

    /// Adds all that `other` binds, where none of its names is bound here already.
    /// Returns whether that was so; where it was not, nothing changes.
    pub fn merge(&mut self, other: Bindings) -> (merged: bool)
        ensures
            merged == old(self)@.dom().disjoint(other@.dom()),
            merged ==> final(self)@ == old(self)@.union_prefer_right(other@),
            !merged ==> final(self)@ == old(self)@,
    {
        proof {
            use_type_invariant(&*self);
            use_type_invariant(&other);
        }
        let mut i: usize = 0;
        while i < other.entries.len()
            invariant
                i <= other.entries.len(),
                *self == *old(self),
                forall|j: int|
                    0 <= j < i ==> !self@.contains_key((#[trigger] other.entries@[j]).0@),
            decreases other.entries.len() - i,
        {
            proof {
                lemma_entries_names(self.entries@, other.entries@[i as int].0@);
            }
            if self.find(&other.entries[i].0).is_some() {
                proof {
                    lemma_entries_names(other.entries@, other.entries@[i as int].0@);
                }
                assert(!self@.dom().disjoint(other@.dom())) by {
                    let name = other.entries@[i as int].0@;
                    assert(self@.dom().contains(name) && other@.dom().contains(name));
                }
                return false;
            }
            i = i + 1;
        }
        assert(self@.dom().disjoint(other@.dom())) by {
            assert forall|name: Seq<char>|
                !(self@.dom().contains(name) && other@.dom().contains(name)) by {
                lemma_entries_names(other.entries@, name);
            }
        }
        let ghost added = other.entries@;
        let mut rest = other.entries;
        let mut entries = self.take_entries();
        let mut left: usize = rest.len();
        while left > 0
            invariant
                left == rest.len(),
                left <= added.len(),
                rest@ == added.take(left as int),
                names_distinct(added),
                names_distinct(entries@),
                forall|name: Seq<char>| #[trigger]
                    entries_model(entries@).contains_key(name) <==> old(self)@.contains_key(name)
                        || exists|j: int|
                        left <= j < added.len() && (#[trigger] added[j]).0@ == name,
                forall|name: Seq<char>|
                    old(self)@.contains_key(name) ==> #[trigger] entries_model(entries@)[name]
                        == old(self)@[name],
                forall|j: int|
                    left <= j < added.len() ==> entries_model(entries@)[(#[trigger] added[j]).0@]
                        == added[j].1@,
                forall|j: int|
                    0 <= j < added.len() ==> !old(self)@.contains_key((#[trigger] added[j]).0@),
            ensures
                left == 0,
            decreases left,
        {
            let ghost before = entries@;
            let ghost before_model = entries_model(entries@);
            let entry = match rest.pop() {
                Some(entry) => entry,
                None => {
                    break;
                },
            };
            left = left - 1;
            assert(entry == added[left as int]);
            assert(!before_model.contains_key(entry.0@)) by {
                if before_model.contains_key(entry.0@) {
                    let j = choose|j: int|
                        left + 1 <= j < added.len() && (#[trigger] added[j]).0@ == entry.0@;
                    assert(added[left as int].0@ != added[j].0@);
                }
            }
            assert(names_distinct(before.push(entry))) by {
                assert forall|a: int, b: int| 0 <= a < b < before.len() + 1 implies before.push(
                    entry,
                )[a].0@ != before.push(entry)[b].0@ by {
                    if b == before.len() {
                        lemma_entries_names(before, entry.0@);
                        assert(before[a].0@ != entry.0@);
                    }
                }
            }
            entries.push(entry);
            assert(entries@.drop_last() =~= before);
            assert(entries_model(entries@) == before_model.insert(entry.0@, entry.1@));
            assert forall|name: Seq<char>| #[trigger]
                entries_model(entries@).contains_key(name) <==> old(self)@.contains_key(name)
                    || exists|j: int|
                    left <= j < added.len() && (#[trigger] added[j]).0@ == name by {
                if name == entry.0@ {
                    assert(added[left as int].0@ == name);
                }
                if exists|j: int| left <= j < added.len() && (#[trigger] added[j]).0@ == name {
                    let j = choose|j: int|
                        left <= j < added.len() && (#[trigger] added[j]).0@ == name;
                    if j > left {
                        assert(before_model.contains_key(name));
                    }
                }
                if before_model.contains_key(name) && !old(self)@.contains_key(name) {
                    let j = choose|j: int|
                        left + 1 <= j < added.len() && (#[trigger] added[j]).0@ == name;
                    assert(left <= j < added.len() && added[j].0@ == name);
                }
            }
            assert forall|j: int| left <= j < added.len() implies entries_model(
                entries@,
            )[(#[trigger] added[j]).0@] == added[j].1@ by {
                if j > left {
                    assert(added[left as int].0@ != added[j].0@);
                }
            }
        }
        assert(entries_model(entries@) =~= old(self)@.union_prefer_right(entries_model(added)))
            by {
            assert forall|name: Seq<char>|
                entries_model(entries@).contains_key(name) <==> old(self)@.union_prefer_right(
                    entries_model(added),
                ).contains_key(name) by {
                lemma_entries_names(added, name);
                if entries_model(entries@).contains_key(name) && !old(self)@.contains_key(name) {
                    let j = choose|j: int|
                        left <= j < added.len() && (#[trigger] added[j]).0@ == name;
                    assert(0 <= j < added.len() && added[j].0@ == name);
                }
                if entries_model(added).contains_key(name) {
                    let j = choose|j: int|
                        0 <= j < added.len() && (#[trigger] added[j]).0@ == name;
                    assert(left <= j < added.len() && added[j].0@ == name);
                }
            }
            assert forall|name: Seq<char>|
                entries_model(entries@).contains_key(name) implies entries_model(entries@)[name]
                == old(self)@.union_prefer_right(entries_model(added))[name] by {
                lemma_entries_names(added, name);
                if entries_model(added).contains_key(name) {
                    let j = choose|j: int|
                        0 <= j < added.len() && (#[trigger] added[j]).0@ == name;
                    lemma_entries_values(added, j);
                }
            }
        }
        *self = Bindings { entries };
        true
    }
}

/// Putting a new tree in the place of an entry binds the entry's name to the new tree.
proof fn lemma_replaced(
    entries: Seq<(String, Spanned<AST>)>,
    at: int,
    entry: (String, Spanned<AST>),
)
    requires
        names_distinct(entries),
        0 <= at < entries.len(),
        entry.0@ == entries[at].0@,
    ensures
        names_distinct(entries.update(at, entry)),
        entries_model(entries.update(at, entry)) == entries_model(entries).insert(
            entry.0@,
            entry.1@,
        ),
    decreases entries.len(),
{
    let changed = entries.update(at, entry);
    assert(names_distinct(changed)) by {
        assert forall|i: int, j: int| 0 <= i < j < changed.len() implies changed[i].0@
            != changed[j].0@ by {
            assert(entries[i].0@ != entries[j].0@);
        }
    }
    let shorter = entries.drop_last();
    assert(names_distinct(shorter)) by {
        assert forall|i: int, j: int| 0 <= i < j < shorter.len() implies shorter[i].0@
            != shorter[j].0@ by {
            assert(shorter[i] == entries[i]);
            assert(shorter[j] == entries[j]);
        }
    }
    if at == entries.len() - 1 {
        assert(changed.drop_last() =~= shorter);
        assert(entries_model(changed) =~= entries_model(entries).insert(entry.0@, entry.1@));
    } else {
        lemma_replaced(shorter, at, entry);
        assert(changed.drop_last() =~= shorter.update(at, entry));
        assert(changed.last() == entries.last());
        assert(entries.last().0@ != entry.0@) by {
            assert(entries[at].0@ != entries[entries.len() - 1].0@);
        }
        assert(entries_model(changed) =~= entries_model(entries).insert(entry.0@, entry.1@));
    }
}

/// Where the names are all different, as many names are bound as there are entries.
proof fn lemma_entries_count(entries: Seq<(String, Spanned<AST>)>)
    requires
        names_distinct(entries),
    ensures
        entries_model(entries).dom().finite(),
        entries_model(entries).dom().len() == entries.len(),
    decreases entries.len(),
{
    if entries.len() > 0 {
        let shorter = entries.drop_last();
        assert(names_distinct(shorter)) by {
            assert forall|i: int, j: int| 0 <= i < j < shorter.len() implies shorter[i].0@
                != shorter[j].0@ by {
                assert(shorter[i] == entries[i]);
                assert(shorter[j] == entries[j]);
            }
        }
        lemma_entries_count(shorter);
        lemma_entries_names(shorter, entries.last().0@);
        assert(!entries_model(shorter).contains_key(entries.last().0@)) by {
            if entries_model(shorter).contains_key(entries.last().0@) {
                let i = choose|i: int|
                    0 <= i < shorter.len() && (#[trigger] shorter[i]).0@ == entries.last().0@;
                assert(entries[i].0@ != entries[entries.len() - 1].0@);
            }
        }
    }
}

} // verus!
