//! Ranking of estimates: a list of (distance, group position) pairs,
//! sorted by distance.

use vstd::prelude::*;

verus! {

/// An estimate to rank: its distance to the solution and the position of
/// the group that gave it.
pub type Ranked = (u64, usize);

/// How many entries of `s` satisfy `p`.
pub open spec fn count_where(s: Seq<Ranked>, p: spec_fn(Ranked) -> bool) -> nat
    decreases s.len(),
{
    if s.len() == 0 {
        0
    } else {
        count_where(s.drop_last(), p) + (if p(s.last()) { 1nat } else { 0nat })
    }
}

/// Distances never decrease along the list.
pub open spec fn sorted_by_distance(s: Seq<Ranked>) -> bool {
    forall|a: int, b: int| 0 <= a < b < s.len() ==> s[a].0 <= s[b].0
}

/// Counting over two joined lists adds the counts.
pub proof fn lemma_count_concat(a: Seq<Ranked>, b: Seq<Ranked>, p: spec_fn(Ranked) -> bool)
    ensures
        count_where(a + b, p) == count_where(a, p) + count_where(b, p),
    decreases b.len(),
{
    if b.len() == 0 {
        assert(a + b =~= a);
    } else {
        assert((a + b).drop_last() =~= a + b.drop_last());
        assert((a + b).last() == b.last());
        lemma_count_concat(a, b.drop_last(), p);
    }
}

/// Counting over a list split at `i`.
pub proof fn lemma_count_split(s: Seq<Ranked>, i: int, p: spec_fn(Ranked) -> bool)
    requires
        0 <= i <= s.len(),
    ensures
        count_where(s, p) == count_where(s.take(i), p) + count_where(s.skip(i), p),
{
    assert(s =~= s.take(i) + s.skip(i));
    lemma_count_concat(s.take(i), s.skip(i), p);
}

/// Inserting an entry adds one to the count of each predicate it satisfies.
pub proof fn lemma_count_insert(s: Seq<Ranked>, i: int, x: Ranked, p: spec_fn(Ranked) -> bool)
    requires
        0 <= i <= s.len(),
    ensures
        count_where(s.insert(i, x), p) == count_where(s, p) + (if p(x) { 1nat } else { 0nat }),
{
    assert(s.insert(i, x) =~= s.take(i).push(x) + s.skip(i));
    lemma_count_concat(s.take(i).push(x), s.skip(i), p);
    assert(s.take(i).push(x).drop_last() =~= s.take(i));
    lemma_count_split(s, i, p);
}

/// A count is zero exactly when no entry satisfies the predicate.
pub proof fn lemma_count_zero(s: Seq<Ranked>, p: spec_fn(Ranked) -> bool)
    ensures
        (count_where(s, p) == 0) <==> (forall|q: int| 0 <= q < s.len() ==> !p(#[trigger] s[q])),
    decreases s.len(),
{
    if s.len() > 0 {
        lemma_count_zero(s.drop_last(), p);
        if count_where(s, p) == 0 {
            assert forall|q: int| 0 <= q < s.len() implies !p(#[trigger] s[q]) by {
                if q < s.len() - 1 {
                    assert(s[q] == s.drop_last()[q]);
                }
            }
        }
        if forall|q: int| 0 <= q < s.len() ==> !p(#[trigger] s[q]) {
            assert forall|q: int| 0 <= q < s.drop_last().len() implies !p(#[trigger] s.drop_last()[q]) by {
                assert(s.drop_last()[q] == s[q]);
            }
            assert(!p(s[s.len() - 1]));
        }
    }
}

/// When every entry satisfies the predicate, the count is the length.
pub proof fn lemma_count_all(s: Seq<Ranked>, p: spec_fn(Ranked) -> bool)
    requires
        forall|q: int| 0 <= q < s.len() ==> p(#[trigger] s[q]),
    ensures
        count_where(s, p) == s.len(),
    decreases s.len(),
{
    if s.len() > 0 {
        assert forall|q: int| 0 <= q < s.drop_last().len() implies p(#[trigger] s.drop_last()[q]) by {
            assert(s.drop_last()[q] == s[q]);
        }
        lemma_count_all(s.drop_last(), p);
        assert(p(s[s.len() - 1]));
    }
}

/// Sorts estimates by distance (insertion sort). The result holds the same
/// entries: every predicate counts the same over both lists.
pub fn sort_by_distance(list: &Vec<Ranked>) -> (r: Vec<Ranked>)
    ensures
        r@.len() == list@.len(),
        sorted_by_distance(r@),
        forall|p: spec_fn(Ranked) -> bool| #[trigger] count_where(r@, p) == count_where(list@, p),
{
    let mut r: Vec<Ranked> = Vec::new();
    let mut i: usize = 0;
    assert(list@.take(0) =~= Seq::<Ranked>::empty());
    while i < list.len()
        invariant
            i <= list@.len(),
            r@.len() == i,
            sorted_by_distance(r@),
            forall|p: spec_fn(Ranked) -> bool| #[trigger] count_where(r@, p) == count_where(list@.take(i as int), p),
        decreases list@.len() - i,
    {
        let x = list[i];
        let mut pos: usize = 0;
        while pos < r.len() && r[pos].0 <= x.0
            invariant
                pos <= r@.len(),
                forall|q: int| 0 <= q < pos ==> #[trigger] r@[q].0 <= x.0,
            decreases r@.len() - pos,
        {
            pos += 1;
        }
        let ghost before = r@;
        r.insert(pos, x);
        proof {
            assert(r@ == before.insert(pos as int, x));
            assert forall|a: int, b: int| 0 <= a < b < r@.len() implies r@[a].0 <= r@[b].0 by {
                if b < pos {
                    assert(r@[a] == before[a] && r@[b] == before[b]);
                } else if b == pos {
                    assert(r@[a] == before[a]);
                } else if a < pos {
                    assert(r@[a] == before[a] && r@[b] == before[b - 1]);
                    assert(before[pos as int].0 > x.0);
                    if b - 1 > pos {
                        assert(before[pos as int].0 <= before[b - 1].0);
                    }
                } else if a == pos {
                    assert(r@[b] == before[b - 1]);
                    assert(before[pos as int].0 > x.0);
                    if b - 1 > pos {
                        assert(before[pos as int].0 <= before[b - 1].0);
                    }
                } else {
                    assert(r@[a] == before[a - 1] && r@[b] == before[b - 1]);
                }
            }
            assert(list@.take(i + 1) =~= list@.take(i as int).push(x));
            assert(list@.take(i + 1).drop_last() =~= list@.take(i as int));
            assert forall|p: spec_fn(Ranked) -> bool| #[trigger] count_where(r@, p) == count_where(list@.take(i + 1), p) by {
                lemma_count_insert(before, pos as int, x, p);
            }
        }
        i += 1;
    }
    assert(list@.take(list@.len() as int) =~= list@);
    r
}

} // verus!
