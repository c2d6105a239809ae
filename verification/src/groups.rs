//! The groups that play, keyed by name, with their score and their answer
//! to the current question.

use vstd::prelude::*;
use crate::answer::Answer;

verus! {

/// Score and current answer of one group.
#[derive(Clone, Copy)]
pub struct GroupData {
    pub score: isize,
    pub answer: Option<Answer>,
}

impl Default for GroupData {
    /// A new group: no points, no answer.
    fn default() -> (r: GroupData)
        ensures
            r.score == 0,
            r.answer is None,
    {
        GroupData { score: 0, answer: None }
    }
}

/// The group data that a group starts with.
pub open spec fn fresh_group() -> GroupData {
    GroupData { score: 0, answer: None }
}

/// Entries of a group table, names taken as character sequences.
pub open spec fn entry_views(e: Seq<(String, GroupData)>) -> Seq<(Seq<char>, GroupData)> {
    e.map_values(|x: (String, GroupData)| (x.0@, x.1))
}

/// The map that a list of (name, data) entries stands for.
pub open spec fn map_of(s: Seq<(Seq<char>, GroupData)>) -> Map<Seq<char>, GroupData>
    decreases s.len(),
{
    if s.len() == 0 {
        Map::empty()
    } else {
        map_of(s.drop_last()).insert(s.last().0, s.last().1)
    }
}

/// The names of a list of entries, in order.
pub open spec fn names_of(s: Seq<(Seq<char>, GroupData)>) -> Seq<Seq<char>> {
    s.map_values(|x: (Seq<char>, GroupData)| x.0)
}

/// No name occurs twice.
pub open spec fn distinct_names(s: Seq<(Seq<char>, GroupData)>) -> bool {
    forall|i: int, j: int| 0 <= i < j < s.len() ==> s[i].0 != s[j].0
}

/// In a list of distinct entries, the map holds each entry, and nothing else.
pub proof fn lemma_map_of(s: Seq<(Seq<char>, GroupData)>)
    requires
        distinct_names(s),
    ensures
        forall|i: int| 0 <= i < s.len() ==> #[trigger] map_of(s).contains_key(s[i].0) && map_of(s)[s[i].0] == s[i].1,
        forall|n: Seq<char>| #[trigger] map_of(s).contains_key(n) ==> exists|i: int| 0 <= i < s.len() && s[i].0 == n,
        map_of(s).dom().finite(),
        map_of(s).dom().len() == s.len(),
    decreases s.len(),
{
    if s.len() > 0 {
        let p = s.drop_last();
        assert(distinct_names(p));
        lemma_map_of(p);
        assert(!map_of(p).contains_key(s.last().0)) by {
            if map_of(p).contains_key(s.last().0) {
                let i = choose|i: int| 0 <= i < p.len() && p[i].0 == s.last().0;
                assert(s[i].0 == s[s.len() - 1].0);
            }
        }
        assert forall|i: int| 0 <= i < s.len() implies #[trigger] map_of(s).contains_key(s[i].0) && map_of(s)[s[i].0] == s[i].1 by {
            if i < s.len() - 1 {
                assert(s[i] == p[i]);
            }
        }
        assert forall|n: Seq<char>| #[trigger] map_of(s).contains_key(n) implies exists|i: int| 0 <= i < s.len() && s[i].0 == n by {
            if n != s.last().0 {
                let i = choose|i: int| 0 <= i < p.len() && p[i].0 == n;
                assert(s[i] == p[i]);
            } else {
                assert(s[s.len() - 1].0 == n);
            }
        }
    }
}

/// Changing the data of one entry changes the map at that name only.
pub proof fn lemma_map_of_update(s: Seq<(Seq<char>, GroupData)>, i: int, d: GroupData)
    requires
        distinct_names(s),
        0 <= i < s.len(),
    ensures
        map_of(s.update(i, (s[i].0, d))) == map_of(s).insert(s[i].0, d),
        distinct_names(s.update(i, (s[i].0, d))),
    decreases s.len(),
{
    let t = s.update(i, (s[i].0, d));
    assert(distinct_names(t)) by {
        assert forall|a: int, b: int| 0 <= a < b < t.len() implies t[a].0 != t[b].0 by {
            assert(t[a].0 == s[a].0 && t[b].0 == s[b].0);
        }
    }
    if i == s.len() - 1 {
        assert(t.drop_last() =~= s.drop_last());
    } else {
        assert(t.drop_last() =~= s.drop_last().update(i, (s[i].0, d)));
        assert(distinct_names(s.drop_last()));
        lemma_map_of_update(s.drop_last(), i, d);
        assert(s.last().0 != s[i].0);
    }
    assert(map_of(t) =~= map_of(s).insert(s[i].0, d));
}

/// Removing one entry removes its name from the map.
pub proof fn lemma_map_of_remove(s: Seq<(Seq<char>, GroupData)>, i: int)
    requires
        distinct_names(s),
        0 <= i < s.len(),
    ensures
        map_of(s.remove(i)) == map_of(s).remove(s[i].0),
        distinct_names(s.remove(i)),
    decreases s.len(),
{
    let t = s.remove(i);
    assert(distinct_names(t)) by {
        assert forall|a: int, b: int| 0 <= a < b < t.len() implies t[a].0 != t[b].0 by {
            let a0 = if a < i { a } else { a + 1 };
            let b0 = if b < i { b } else { b + 1 };
            assert(t[a] == s[a0] && t[b] == s[b0]);
        }
    }
    lemma_map_of(s);
    if i == s.len() - 1 {
        assert(t =~= s.drop_last());
        assert(distinct_names(s.drop_last()));
        lemma_map_of(s.drop_last());
        assert(map_of(t) =~= map_of(s).remove(s[i].0));
    } else {
        assert(t.drop_last() =~= s.drop_last().remove(i));
        assert(t.last() == s.last());
        assert(distinct_names(s.drop_last()));
        lemma_map_of_remove(s.drop_last(), i);
        assert(s.last().0 != s[i].0);
        assert(map_of(t) =~= map_of(s).remove(s[i].0));
    }
}

/// The groups of a game, keyed by name. Iteration goes in the order in
/// which the groups were first inserted.
pub struct Groups {
    entries: Vec<(String, GroupData)>,
}

impl View for Groups {
    type V = Map<Seq<char>, GroupData>;

    closed spec fn view(&self) -> Map<Seq<char>, GroupData> {
        map_of(entry_views(self.entries@))
    }
}

impl Groups {
    #[verifier::type_invariant]
    spec fn names_distinct(self) -> bool {
        distinct_names(entry_views(self.entries@))
    }

    /// The names of the groups in iteration order.
    pub closed spec fn order(&self) -> Seq<Seq<char>> {
        names_of(entry_views(self.entries@))
    }

    /// The iteration order lists each group once, and nothing else.
    pub open spec fn listed_once(&self) -> bool {
        &&& forall|i: int, j: int| 0 <= i < j < self.order().len() ==> self.order()[i] != self.order()[j]
        &&& forall|n: Seq<char>| #[trigger] self@.contains_key(n) <==> self.order().contains(n)
    }

    /// The iteration order lists each group once.
    proof fn lemma_order(&self)
        requires
            self.names_distinct(),
        ensures
            self@.dom().finite(),
            self@.dom().len() == self.order().len(),
            forall|i: int| 0 <= i < self.order().len() ==> #[trigger] self@.contains_key(self.order()[i]),
            forall|n: Seq<char>| #[trigger] self@.contains_key(n) ==> self.order().contains(n),
            forall|i: int, j: int| 0 <= i < j < self.order().len() ==> self.order()[i] != self.order()[j],
    {
        let s = entry_views(self.entries@);
        lemma_map_of(s);
        assert forall|n: Seq<char>| #[trigger] self@.contains_key(n) implies self.order().contains(n) by {
            let i = choose|i: int| 0 <= i < s.len() && s[i].0 == n;
            assert(self.order()[i] == n);
        }
    }

    /// No groups.
    pub fn new() -> (g: Groups)
        ensures
            g@ == Map::<Seq<char>, GroupData>::empty(),
            g.order() == Seq::<Seq<char>>::empty(),
    {
        let g = Groups { entries: Vec::new() };
        assert(g@ =~= Map::<Seq<char>, GroupData>::empty());
        assert(g.order() =~= Seq::<Seq<char>>::empty());
        g
    }

    /// The number of groups. The iteration order lists each group once.
    pub fn len(&self) -> (n: usize)
        ensures
            n == self.order().len(),
            n == self@.len(),
            self@.dom().finite(),
            forall|i: int| 0 <= i < self.order().len() ==> #[trigger] self@.contains_key(self.order()[i]),
            forall|k: Seq<char>| #[trigger] self@.contains_key(k) ==> self.order().contains(k),
            forall|i: int, j: int| 0 <= i < j < self.order().len() ==> self.order()[i] != self.order()[j],
            self.listed_once(),
    {
        proof {
            use_type_invariant(self);
            self.lemma_order();
        }
        self.entries.len()
    }

    /// Position of a name in the iteration order.
    fn position(&self, name: &str) -> (r: Option<usize>)
        ensures
            match r {
                Some(i) => i < self.order().len() && self.order()[i as int] == name@,
                None => !self@.contains_key(name@),
            },
    {
        proof {
            use_type_invariant(self);
            self.lemma_order();
        }
        let mut i: usize = 0;
        while i < self.entries.len()
            invariant
                i <= self.entries@.len(),
                self.order().len() == self.entries@.len(),
                forall|j: int| 0 <= j < i ==> self.order()[j] != name@,
            decreases self.entries@.len() - i,
        {
            if crate::text::str_equals(self.entries[i].0.as_str(), name) {
                return Some(i);
            }
            i += 1;
        }
        proof {
            if self@.contains_key(name@) {
                let k = choose|k: int| 0 <= k < self.order().len() && self.order()[k] == name@;
                assert(self.order().contains(name@));
            }
        }
        None
    }

    /// Whether a group of that name exists.
    pub fn contains(&self, name: &str) -> (r: bool)
        ensures
            r == self@.contains_key(name@),
    {
        proof {
            use_type_invariant(self);
            self.lemma_order();
        }
        match self.position(name) {
            Some(i) => true,
            None => false,
        }
    }

    /// The data of the group of that name.
    pub fn get(&self, name: &str) -> (r: Option<GroupData>)
        ensures
            match r {
                Some(d) => self@.contains_key(name@) && self@[name@] == d,
                None => !self@.contains_key(name@),
            },
    {
        proof {
            use_type_invariant(self);
            lemma_map_of(entry_views(self.entries@));
        }
        match self.position(name) {
            Some(i) => {
                let ghost s = entry_views(self.entries@);
                assert(s[i as int].0 == name@);
                assert(map_of(s).contains_key(s[i as int].0));
                assert(s[i as int].1 == self.entries@[i as int].1);
                Some(self.entries[i].1)
            },
            None => None,
        }
    }

    /// The name and data of the group at position `i` of the iteration order.
    pub fn entry(&self, i: usize) -> (r: (&String, GroupData))
        requires
            i < self.order().len(),
        ensures
            r.0@ == self.order()[i as int],
            self@[r.0@] == r.1,
    {
        proof {
            use_type_invariant(self);
            lemma_map_of(entry_views(self.entries@));
        }
        let e = &self.entries[i];
        let ghost s = entry_views(self.entries@);
        assert(s[i as int] == (e.0@, e.1));
        assert(map_of(s).contains_key(s[i as int].0));
        (&e.0, e.1)
    }

    /// Sets the data of the group at position `i`; the order stays.
    pub fn set_entry(&mut self, i: usize, d: GroupData)
        requires
            i < old(self).order().len(),
        ensures
            final(self).order() == old(self).order(),
            final(self)@ == old(self)@.insert(old(self).order()[i as int], d),
    {
        proof {
            use_type_invariant(&*self);
        }
        let mut e: Vec<(String, GroupData)> = Vec::new();
        std::mem::swap(&mut e, &mut self.entries);
        let ghost s = entry_views(e@);
        let name = e[i].0.clone();
        e.set(i, (name, d));
        proof {
            lemma_map_of_update(s, i as int, d);
            assert(entry_views(e@) =~= s.update(i as int, (s[i as int].0, d)));
            assert(names_of(entry_views(e@)) =~= names_of(s));
        }
        self.entries = e;
    }

    /// Takes every group's answer away; scores and order stay.
    pub fn clear_answers(&mut self)
        ensures
            final(self).order() == old(self).order(),
            final(self)@.dom() == old(self)@.dom(),
            forall|k: Seq<char>| #[trigger] old(self)@.contains_key(k) ==>
                final(self)@[k] == (GroupData { score: old(self)@[k].score, answer: None }),
    {
        let ghost start = *self;
        let n = self.len();
        let mut i: usize = 0;
        while i < n
            invariant
                n == start.order().len(),
                i <= n,
                self.order() == start.order(),
                self@.dom() == start@.dom(),
                forall|k: int| 0 <= k < n ==> #[trigger] start@.contains_key(start.order()[k]),
                forall|a: int, b: int| 0 <= a < b < n ==> start.order()[a] != start.order()[b],
                forall|k: Seq<char>| #[trigger] start@.contains_key(k) ==> start.order().contains(k),
                forall|k: int| 0 <= k < i ==> #[trigger] self@[start.order()[k]]
                    == (GroupData { score: start@[start.order()[k]].score, answer: None }),
                forall|k: int| i <= k < n ==> #[trigger] self@[start.order()[k]] == start@[start.order()[k]],
            decreases n - i,
        {
            let (_name, d) = self.entry(i);
            self.set_entry(i, GroupData { score: d.score, answer: None });
            i += 1;
        }
        assert forall|k: Seq<char>| #[trigger] start@.contains_key(k) implies
            self@[k] == (GroupData { score: start@[k].score, answer: None }) by {
            let j = choose|j: int| 0 <= j < start.order().len() && start.order()[j] == k;
            assert(self@[start.order()[j]] == (GroupData { score: start@[start.order()[j]].score, answer: None }));
        }
    }

    /// Removes the named group, if there is one; the others keep their order.
    pub fn remove(&mut self, name: &str)
        ensures
            final(self)@ == old(self)@.remove(name@),
            !old(self)@.contains_key(name@) ==> final(self).order() == old(self).order(),
            old(self)@.contains_key(name@) ==> exists|i: int|
                0 <= i < old(self).order().len() && old(self).order()[i] == name@
                && final(self).order() == old(self).order().remove(i),
    {
        proof {
            use_type_invariant(&*self);
            self.lemma_order();
        }
        match self.position(name) {
            Some(i) => {
                proof {
                    use_type_invariant(&*self);
                }
                let mut e: Vec<(String, GroupData)> = Vec::new();
                std::mem::swap(&mut e, &mut self.entries);
                let ghost s = entry_views(e@);
                let _removed = e.remove(i);
                proof {
                    lemma_map_of_remove(s, i as int);
                    assert(entry_views(e@) =~= s.remove(i as int));
                    assert(names_of(entry_views(e@)) =~= names_of(s).remove(i as int));
                }
                self.entries = e;
            },
            None => {
                proof {
                    assert(self@ =~= self@.remove(name@));
                }
            },
        }
    }

    /// Sets the data of the named group, adding the group at the end of
    /// the order when it is new.
    pub fn insert(&mut self, name: &str, d: GroupData)
        ensures
            final(self)@ == old(self)@.insert(name@, d),
            old(self)@.contains_key(name@) ==> final(self).order() == old(self).order(),
            !old(self)@.contains_key(name@) ==> final(self).order() == old(self).order().push(name@),
    {
        proof {
            use_type_invariant(&*self);
            self.lemma_order();
        }
        match self.position(name) {
            Some(i) => {
                self.set_entry(i, d);
            },
            None => {
                proof {
                    use_type_invariant(&*self);
                }
                let mut e: Vec<(String, GroupData)> = Vec::new();
                std::mem::swap(&mut e, &mut self.entries);
                let ghost s = entry_views(e@);
                proof {
                    lemma_map_of(s);
                }
                e.push((name.to_owned(), d));
                proof {
                    assert(entry_views(e@) =~= s.push((name@, d)));
                    assert(entry_views(e@).drop_last() =~= s);
                    assert(distinct_names(entry_views(e@))) by {
                        assert forall|a: int, b: int| 0 <= a < b < entry_views(e@).len() implies
                            entry_views(e@)[a].0 != entry_views(e@)[b].0 by {
                            if b == s.len() {
                                assert(map_of(s).contains_key(s[a].0));
                            } else {
                                assert(entry_views(e@)[a] == s[a] && entry_views(e@)[b] == s[b]);
                            }
                        }
                    }
                    assert(names_of(entry_views(e@)) =~= names_of(s).push(name@));
                }
                self.entries = e;
            },
        }
    }
}

} // verus!
