//! Properties of the quiz logic that hold for every input: how a round is
//! scored, how an event buffer behaves, and how question files are read.

use vstd::prelude::*;
use crate::event_buffer::{pushed, popped};
use crate::text::letter_index;
use crate::server_data::{ServerData, NORMAL_POINTS, SORT_POINTS, closer_count, estimate_points, round_points, ESTIMATE_1_POINTS, ESTIMATE_2_POINTS};
use crate::question::QuestionModel;
use crate::answer::{Answer, AnswerModel, spec_parse_answer, letter_values};
use vstd::utf8::{encode_utf8, is_ascii_chars, is_ascii_chars_encode_utf8};
use crate::text::{split_on, lemma_split_on_nonempty, keep_nonblank, is_blank};
use crate::question::{spec_question_line, spec_question_list, spec_question_fields, LineModel, NORMAL_NAME, ESTIMATE_NAME, SORT_NAME};
use crate::question::{finished, finish_all, spec_question_file};
use crate::text::spec_lines;

verus! {

/// Counting closer estimates over two joined lists adds the counts.
pub proof fn lemma_closer_count_concat(a: Seq<Option<u64>>, b: Seq<Option<u64>>, k: u64)
    ensures
        closer_count(a + b, k) == closer_count(a, k) + closer_count(b, k),
    decreases b.len(),
{
    if b.len() == 0 {
        assert(a + b =~= a);
    } else {
        assert((a + b).drop_last() =~= a + b.drop_last());
        assert((a + b).last() == b.last());
        lemma_closer_count_concat(a, b.drop_last(), k);
    }
}

/// The count of one estimate.
proof fn lemma_closer_count_single(x: Option<u64>, k: u64)
    ensures
        closer_count(seq![x], k) == (if x matches Some(y) && y < k { 1nat } else { 0nat }),
{
    assert(seq![x].drop_last() =~= Seq::<Option<u64>>::empty());
    assert(closer_count(seq![x].drop_last(), k) == 0);
    assert(seq![x].last() == x);
}

/// No estimate is closer than `k` exactly when the count is zero.
pub proof fn lemma_closer_count_zero(keys: Seq<Option<u64>>, k: u64)
    ensures
        (closer_count(keys, k) == 0) <==> (forall|j: int| 0 <= j < keys.len() ==>
            !(#[trigger] keys[j] matches Some(x) && x < k)),
    decreases keys.len(),
{
    if keys.len() > 0 {
        lemma_closer_count_zero(keys.drop_last(), k);
        if closer_count(keys, k) == 0 {
            assert forall|j: int| 0 <= j < keys.len() implies !(#[trigger] keys[j] matches Some(x) && x < k) by {
                if j < keys.len() - 1 {
                    assert(keys[j] == keys.drop_last()[j]);
                }
            }
        }
        if forall|j: int| 0 <= j < keys.len() ==> !(#[trigger] keys[j] matches Some(x) && x < k) {
            assert forall|j: int| 0 <= j < keys.drop_last().len() implies !(#[trigger] keys.drop_last()[j] matches Some(x) && x < k) by {
                assert(keys.drop_last()[j] == keys[j]);
            }
            assert(!(keys[keys.len() - 1] matches Some(x) && x < k));
        }
    }
}

/// Cuts a list around two positions `i < j`.
proof fn lemma_cut_two(s: Seq<Option<u64>>, i: int, j: int)
    requires
        0 <= i < j < s.len(),
    ensures
        s =~= s.take(i) + seq![s[i]] + s.subrange(i + 1, j) + seq![s[j]] + s.skip(j + 1),
{
}

/// Law: the points of an estimate do not depend on the order in which the
/// groups are listed: exchanging the estimates of two groups leaves, for
/// every distance, the number of closer estimates unchanged (and every
/// reordering is a series of such exchanges).
pub proof fn law_estimate_ranking_ignores_order(keys: Seq<Option<u64>>, i: int, j: int, k: u64)
    requires
        0 <= i < j < keys.len(),
    ensures
        closer_count(keys.update(i, keys[j]).update(j, keys[i]), k) == closer_count(keys, k),
        estimate_points(keys.update(i, keys[j]).update(j, keys[i]), k) == estimate_points(keys, k),
{
    let t = keys.update(i, keys[j]).update(j, keys[i]);
    lemma_cut_two(keys, i, j);
    let a = keys.take(i);
    let m = keys.subrange(i + 1, j);
    let c = keys.skip(j + 1);
    assert(t =~= a + seq![keys[j]] + m + seq![keys[i]] + c);
    lemma_closer_count_concat(a + seq![keys[i]] + m + seq![keys[j]], c, k);
    lemma_closer_count_concat(a + seq![keys[i]] + m, seq![keys[j]], k);
    lemma_closer_count_concat(a + seq![keys[i]], m, k);
    lemma_closer_count_concat(a, seq![keys[i]], k);
    lemma_closer_count_concat(a + seq![keys[j]] + m + seq![keys[i]], c, k);
    lemma_closer_count_concat(a + seq![keys[j]] + m, seq![keys[i]], k);
    lemma_closer_count_concat(a + seq![keys[j]], m, k);
    lemma_closer_count_concat(a, seq![keys[j]], k);
}

/// Law: an estimate that no other estimate beats earns the most points,
/// `ESTIMATE_1_POINTS`, however many groups share that distance.
pub proof fn law_closest_estimate_wins(keys: Seq<Option<u64>>, k: u64)
    requires
        forall|j: int| 0 <= j < keys.len() ==> !(#[trigger] keys[j] matches Some(x) && x < k),
    ensures
        estimate_points(keys, k) == ESTIMATE_1_POINTS,
{
    lemma_closer_count_zero(keys, k);
}

/// Two distinct positions closer than `k` make at least two closer estimates.
proof fn lemma_two_below(keys: Seq<Option<u64>>, a: int, b: int, k: u64)
    requires
        0 <= a < b < keys.len(),
        keys[a] matches Some(x) && x < k,
        keys[b] matches Some(y) && y < k,
    ensures
        closer_count(keys, k) >= 2,
{
    lemma_cut_two(keys, a, b);
    let p = keys.take(a);
    let m = keys.subrange(a + 1, b);
    let c = keys.skip(b + 1);
    lemma_closer_count_concat(p + seq![keys[a]] + m + seq![keys[b]], c, k);
    lemma_closer_count_concat(p + seq![keys[a]] + m, seq![keys[b]], k);
    lemma_closer_count_concat(p + seq![keys[a]], m, k);
    lemma_closer_count_concat(p, seq![keys[a]], k);
    lemma_closer_count_single(keys[a], k);
    lemma_closer_count_single(keys[b], k);
}

/// Law: when two groups tie for the closest estimate, no group earns the
/// second prize: every estimate earns `ESTIMATE_1_POINTS` or nothing.
pub proof fn law_tie_for_closest_leaves_no_second(keys: Seq<Option<u64>>, a: int, b: int, m: u64, k: u64)
    requires
        0 <= a < b < keys.len(),
        keys[a] == Some(m),
        keys[b] == Some(m),
        forall|j: int| 0 <= j < keys.len() ==> !(#[trigger] keys[j] matches Some(x) && x < m),
    ensures
        estimate_points(keys, k) == ESTIMATE_1_POINTS || estimate_points(keys, k) == 0,
        k == m ==> estimate_points(keys, k) == ESTIMATE_1_POINTS,
{
    if k <= m {
        assert forall|j: int| 0 <= j < keys.len() implies !(#[trigger] keys[j] matches Some(x) && x < k) by {
            assert(!(keys[j] matches Some(x) && x < m));
        }
        lemma_closer_count_zero(keys, k);
    } else {
        lemma_two_below(keys, a, b, k);
    }
}

/// Law: with a single closest estimate, the estimates at the next distance
/// earn `ESTIMATE_2_POINTS`, and no estimate farther earns anything.
pub proof fn law_single_closest_then_runner_up(keys: Seq<Option<u64>>, a: int, m: u64, b: int, second: u64, k: u64)
    requires
        0 <= a < keys.len(),
        0 <= b < keys.len(),
        keys[a] == Some(m),
        keys[b] == Some(second),
        m < second,
        forall|j: int| 0 <= j < keys.len() && j != a ==> !(#[trigger] keys[j] matches Some(x) && x < second),
    ensures
        estimate_points(keys, second) == ESTIMATE_2_POINTS,
        second < k ==> estimate_points(keys, k) == 0,
{
    let one = keys.update(a, None::<u64>);
    assert(keys =~= keys.take(a) + seq![keys[a]] + keys.skip(a + 1));
    assert(one =~= keys.take(a) + seq![None::<u64>] + keys.skip(a + 1));
    lemma_closer_count_concat(keys.take(a) + seq![keys[a]], keys.skip(a + 1), second);
    lemma_closer_count_concat(keys.take(a), seq![keys[a]], second);
    lemma_closer_count_concat(keys.take(a) + seq![None::<u64>], keys.skip(a + 1), second);
    lemma_closer_count_concat(keys.take(a), seq![None::<u64>], second);
    lemma_closer_count_single(keys[a], second);
    lemma_closer_count_single(None::<u64>, second);
    assert forall|j: int| 0 <= j < one.len() implies !(#[trigger] one[j] matches Some(x) && x < second) by {
        if j != a {
            assert(one[j] == keys[j]);
        }
    }
    lemma_closer_count_zero(one, second);
    if second < k {
        if a < b {
            lemma_two_below(keys, a, b, k);
        } else {
            assert(a != b);
            lemma_two_below(keys, b, a, k);
        }
    }
}

/// Law: a round hands out between 0 and `ESTIMATE_1_POINTS` points to a
/// group, so scoring never lowers a score.
pub proof fn law_round_points_bounded(q: QuestionModel, a: Option<Answer>, key: Option<u64>, keys: Seq<Option<u64>>)
    ensures
        0 <= round_points(q, a, key, keys) <= ESTIMATE_1_POINTS,
{
}

/// Law: on a multiple-choice or ordering question, a group earns the
/// question's points exactly when its answer is the solution, and nothing
/// otherwise (no answer, a wrong one, or an answer of another kind).
pub proof fn law_right_answer_scores(q: QuestionModel, a: Option<Answer>, key: Option<u64>, keys: Seq<Option<u64>>)
    ensures
        q matches QuestionModel::Normal { solution, .. } ==> round_points(q, a, key, keys)
            == (if a matches Some(x) && x@ == AnswerModel::Normal(solution) { NORMAL_POINTS as int } else { 0 }),
        q matches QuestionModel::Sort { solution, .. } ==> round_points(q, a, key, keys)
            == (if a matches Some(x) && x@ == AnswerModel::Sort(solution) { SORT_POINTS as int } else { 0 }),
{
}

/// Law: an event pushed into a buffer with room, then popped from a buffer
/// that was empty, comes back as it was.
pub proof fn law_buffer_gives_back_what_was_pushed(cap: nat, e: Seq<char>)
    requires
        cap > 0,
    ensures
        pushed(Seq::<Seq<char>>::empty(), cap, e).1,
        popped(pushed(Seq::<Seq<char>>::empty(), cap, e).0) == (Seq::<Seq<char>>::empty(), Some(e)),
{
    let q = pushed(Seq::<Seq<char>>::empty(), cap, e).0;
    assert(q =~= seq![e]);
    assert(q.drop_first() =~= Seq::<Seq<char>>::empty());
}

/// Law: a buffer is first in, first out: pushing an event does not change
/// which event the next pop gives, unless the buffer was empty.
pub proof fn law_buffer_is_fifo(q: Seq<Seq<char>>, cap: nat, e: Seq<char>)
    requires
        q.len() > 0,
    ensures
        popped(pushed(q, cap, e).0).1 == popped(q).1,
        pushed(q, cap, e).1 ==> popped(pushed(q, cap, e).0).0 == pushed(popped(q).0, cap, e).0,
{
    if q.len() < cap {
        assert(q.push(e).drop_first() =~= q.drop_first().push(e));
    }
}

/// Law: a buffer never holds more events than its capacity, and a full
/// buffer turns every push away unchanged.
pub proof fn law_buffer_is_bounded(q: Seq<Seq<char>>, cap: nat, e: Seq<char>)
    requires
        q.len() <= cap,
    ensures
        pushed(q, cap, e).0.len() <= cap,
        q.len() == cap ==> pushed(q, cap, e) == (q, false),
{
}

/// Splitting text joined by a separator gives the pieces of both parts.
pub proof fn lemma_split_on_join(s: Seq<char>, t: Seq<char>, sep: char)
    ensures
        split_on(s + seq![sep] + t, sep) == split_on(s, sep) + split_on(t, sep),
    decreases t.len(),
{
    let u = s + seq![sep] + t;
    if t.len() == 0 {
        assert(u =~= s.push(sep));
        assert(u.drop_last() =~= s);
        assert(split_on(t, sep) =~= seq![Seq::<char>::empty()]);
        assert(split_on(u, sep) =~= split_on(s, sep) + split_on(t, sep));
    } else {
        assert(u.drop_last() =~= s + seq![sep] + t.drop_last());
        assert(u.last() == t.last());
        lemma_split_on_join(s, t.drop_last(), sep);
        lemma_split_on_nonempty(t.drop_last(), sep);
        let a = split_on(s, sep);
        let b = split_on(t.drop_last(), sep);
        if t.last() == sep {
            assert(split_on(u, sep) =~= a + split_on(t, sep));
        } else {
            assert((a + b).last() == b.last());
            assert((a + b).update((a + b).len() - 1, b.last().push(t.last()))
                =~= a + b.update(b.len() - 1, b.last().push(t.last())));
            assert(split_on(u, sep) =~= a + split_on(t, sep));
        }
    }
}

/// Law: a question line that reads well reads the same with more fields
/// after it: fields past those its type needs are ignored.
pub proof fn law_extra_fields_are_ignored(s: Seq<char>, t: Seq<char>)
    requires
        spec_question_line(s) is Ok,
    ensures
        spec_question_line(s + seq!['#'] + t) == spec_question_line(s),
{
    lemma_split_on_join(s, t, '#');
    lemma_split_on_nonempty(s, '#');
    lemma_split_on_nonempty(t, '#');
    let f = split_on(s, '#');
    let g = f + split_on(t, '#');
    assert forall|i: int| 0 <= i < f.len() implies #[trigger] g[i] == f[i] by {}
    if f.len() >= 6 {
        assert(g.subrange(2, 6) =~= f.subrange(2, 6));
    }
    assert(spec_question_fields(g) == spec_question_fields(f));
}

/// Skipping blank lines distributes over joined lists of lines.
proof fn lemma_keep_nonblank_join(a: Seq<Seq<char>>, b: Seq<Seq<char>>)
    ensures
        keep_nonblank(a + b) == keep_nonblank(a) + keep_nonblank(b),
    decreases b.len(),
{
    if b.len() == 0 {
        assert(a + b =~= a);
        assert(keep_nonblank(a) + keep_nonblank(b) =~= keep_nonblank(a));
    } else {
        assert((a + b).drop_last() =~= a + b.drop_last());
        assert((a + b).last() == b.last());
        lemma_keep_nonblank_join(a, b.drop_last());
        if !is_blank(b.last()) {
            assert((keep_nonblank(a) + keep_nonblank(b.drop_last())).push(b.last())
                =~= keep_nonblank(a) + keep_nonblank(b.drop_last()).push(b.last()));
        }
    }
}

/// Law: a blank line in a question file changes nothing: the file reads as
/// it would without it.
pub proof fn law_blank_lines_are_skipped(a: Seq<Seq<char>>, l: Seq<char>, b: Seq<Seq<char>>)
    requires
        is_blank(l),
    ensures
        keep_nonblank(a + seq![l] + b) == keep_nonblank(a + b),
        spec_question_list(keep_nonblank(a + seq![l] + b)) == spec_question_list(keep_nonblank(a + b)),
{
    lemma_keep_nonblank_join(a + seq![l], b);
    lemma_keep_nonblank_join(a, seq![l]);
    lemma_keep_nonblank_join(a, b);
    assert(seq![l].drop_last() =~= Seq::<Seq<char>>::empty());
    assert(seq![l].last() == l);
    assert(keep_nonblank(seq![l].drop_last()) =~= Seq::<Seq<char>>::empty());
    assert(keep_nonblank(seq![l]) =~= Seq::<Seq<char>>::empty());
    assert(keep_nonblank(a) + keep_nonblank(seq![l]) =~= keep_nonblank(a));
}

/// How many groups gave an estimate at distance exactly `v`.
pub open spec fn value_count(keys: Seq<Option<u64>>, v: u64) -> nat
    decreases keys.len(),
{
    if keys.len() == 0 {
        0
    } else {
        value_count(keys.drop_last(), v) + (if keys.last() == Some(v) { 1nat } else { 0nat })
    }
}

/// How many groups gave an estimate strictly between distances `lo` and `hi`.
pub open spec fn between_count(keys: Seq<Option<u64>>, lo: u64, hi: u64) -> nat
    decreases keys.len(),
{
    if keys.len() == 0 {
        0
    } else {
        between_count(keys.drop_last(), lo, hi) + (if keys.last() matches Some(x) && lo < x && x < hi { 1nat } else { 0nat })
    }
}

/// When nothing is below `m1`, the estimates closer than `k > m1` are those
/// at `m1` and those strictly between.
proof fn lemma_closer_split(keys: Seq<Option<u64>>, m1: u64, k: u64)
    requires
        m1 < k,
        forall|j: int| 0 <= j < keys.len() ==> !(#[trigger] keys[j] matches Some(x) && x < m1),
    ensures
        closer_count(keys, k) == value_count(keys, m1) + between_count(keys, m1, k),
    decreases keys.len(),
{
    if keys.len() > 0 {
        assert forall|j: int| 0 <= j < keys.drop_last().len() implies !(#[trigger] keys.drop_last()[j] matches Some(x) && x < m1) by {
            assert(keys.drop_last()[j] == keys[j]);
        }
        lemma_closer_split(keys.drop_last(), m1, k);
        assert(!(keys[keys.len() - 1] matches Some(x) && x < m1));
    }
}

/// A distance that occurs is counted.
proof fn lemma_value_count_pos(keys: Seq<Option<u64>>, v: u64, a: int)
    requires
        0 <= a < keys.len(),
        keys[a] == Some(v),
    ensures
        value_count(keys, v) >= 1,
    decreases keys.len(),
{
    if a < keys.len() - 1 {
        assert(keys.drop_last()[a] == keys[a]);
        lemma_value_count_pos(keys.drop_last(), v, a);
    }
}

/// Law: the points of a round's estimates, by the sets of closest ones.
/// Let `m1` be the smallest distance given (group `a1` gave it). An
/// estimate at distance `k` earns `ESTIMATE_1_POINTS` when `k` is `m1`;
/// `ESTIMATE_2_POINTS` when exactly one group is at `m1` and no distance
/// lies strictly between `m1` and `k` (so `k` is the second smallest
/// distance); and nothing otherwise.
pub proof fn law_estimate_points_by_closest_sets(keys: Seq<Option<u64>>, a1: int, m1: u64, k: u64)
    requires
        0 <= a1 < keys.len(),
        keys[a1] == Some(m1),
        forall|j: int| 0 <= j < keys.len() ==> !(#[trigger] keys[j] matches Some(x) && x < m1),
        m1 <= k,
    ensures
        estimate_points(keys, k) == (if k == m1 {
            ESTIMATE_1_POINTS as int
        } else if value_count(keys, m1) == 1 && between_count(keys, m1, k) == 0 {
            ESTIMATE_2_POINTS as int
        } else {
            0
        }),
{
    if k == m1 {
        lemma_closer_count_zero(keys, k);
    } else {
        lemma_closer_split(keys, m1, k);
        lemma_value_count_pos(keys, m1, a1);
    }
}

/// Counting closer estimates without the entry at `j`.
proof fn lemma_closer_count_remove(s: Seq<Option<u64>>, j: int, k: u64)
    requires
        0 <= j < s.len(),
    ensures
        closer_count(s, k) == closer_count(s.remove(j), k) + (if s[j] matches Some(x) && x < k { 1nat } else { 0nat }),
{
    assert(s =~= s.take(j) + seq![s[j]] + s.skip(j + 1));
    assert(s.remove(j) =~= s.take(j) + s.skip(j + 1));
    lemma_closer_count_concat(s.take(j) + seq![s[j]], s.skip(j + 1), k);
    lemma_closer_count_concat(s.take(j), seq![s[j]], k);
    lemma_closer_count_concat(s.take(j), s.skip(j + 1), k);
    lemma_closer_count_single(s[j], k);
}

/// Law: the points of an estimate do not depend on the order in which the
/// groups are listed: any two lists that hold the same distances (as a
/// multiset, in any order) have, for every distance, as many closer
/// estimates, and so give the same points.
pub proof fn law_estimate_ranking_ignores_any_order(keys: Seq<Option<u64>>, keys2: Seq<Option<u64>>, k: u64)
    requires
        keys2.to_multiset() == keys.to_multiset(),
    ensures
        closer_count(keys2, k) == closer_count(keys, k),
        estimate_points(keys2, k) == estimate_points(keys, k),
    decreases keys.len(),
{
    broadcast use vstd::seq_lib::group_to_multiset_ensures;
    if keys.len() == 0 {
        assert(keys.to_multiset().len() == keys.len());
        assert(keys2.to_multiset().len() == keys2.len());
        assert(keys2.len() == 0);
    } else {
        let x = keys.last();
        let p = keys.drop_last();
        assert(p.push(x) =~= keys);
        assert(keys.to_multiset() == p.to_multiset().insert(x));
        assert(keys.to_multiset().count(x) > 0);
        assert(keys2.contains(x));
        let j = choose|j: int| 0 <= j < keys2.len() && keys2[j] == x;
        assert(keys2.remove(j).to_multiset() == keys2.to_multiset().remove(x));
        assert(p.to_multiset() =~= keys.to_multiset().remove(x));
        law_estimate_ranking_ignores_any_order(p, keys2.remove(j), k);
        lemma_closer_count_remove(keys2, j, k);
        assert(closer_count(keys, k) == closer_count(p, k) + (if x matches Some(y) && y < k { 1nat } else { 0nat }));
    }
}

/// Law: the points a round hands out depend on the question, the answers
/// and the distances, never on the scores nor on the order in which the
/// groups are listed: two states with the same question, whose lists of
/// distances hold the same distances, give a group with the same answer and
/// the same distance the same points. So scoring a round twice without new
/// answers hands the points out twice.
pub proof fn law_round_points_ignore_scores(
    s1: ServerData,
    keys1: Seq<Option<u64>>,
    i: int,
    s2: ServerData,
    keys2: Seq<Option<u64>>,
    j: int,
)
    requires
        s1.current() == s2.current(),
        keys2.to_multiset() == keys1.to_multiset(),
        0 <= i < s1.groups.order().len(),
        0 <= i < keys1.len(),
        0 <= j < s2.groups.order().len(),
        0 <= j < keys2.len(),
        s1.groups.order()[i] == s2.groups.order()[j],
        s1.groups@[s1.groups.order()[i]].answer == s2.groups@[s2.groups.order()[j]].answer,
        keys1[i] == keys2[j],
    ensures
        s1.points_at(keys1, i) == s2.points_at(keys2, j),
{
    if keys1[i] is Some {
        law_estimate_ranking_ignores_any_order(keys1, keys2, keys1[i]->Some_0);
    }
}

/// Fields joined into a line, with `#` between them.
pub open spec fn join_fields(fs: Seq<Seq<char>>) -> Seq<char>
    decreases fs.len(),
{
    if fs.len() <= 1 {
        if fs.len() == 1 { fs[0] } else { Seq::<char>::empty() }
    } else {
        join_fields(fs.drop_last()) + seq!['#'] + fs.last()
    }
}

/// A field holds no `#`.
pub open spec fn no_hash(t: Seq<char>) -> bool {
    forall|i: int| 0 <= i < t.len() ==> t[i] != '#'
}

/// Text without a separator is a single piece.
proof fn lemma_split_no_sep(t: Seq<char>)
    requires
        no_hash(t),
    ensures
        split_on(t, '#') == seq![t],
    decreases t.len(),
{
    if t.len() > 0 {
        assert(no_hash(t.drop_last()));
        lemma_split_no_sep(t.drop_last());
        assert(t.drop_last().push(t.last()) =~= t);
        assert(t[t.len() - 1] != '#');
    } else {
        assert(t =~= Seq::<char>::empty());
    }
}

/// Splitting joined fields gives the fields back.
pub proof fn lemma_split_join(fs: Seq<Seq<char>>)
    requires
        fs.len() >= 1,
        forall|i: int| 0 <= i < fs.len() ==> no_hash(#[trigger] fs[i]),
    ensures
        split_on(join_fields(fs), '#') == fs,
    decreases fs.len(),
{
    if fs.len() == 1 {
        lemma_split_no_sep(fs[0]);
        assert(seq![fs[0]] =~= fs);
    } else {
        let p = fs.drop_last();
        assert forall|i: int| 0 <= i < p.len() implies no_hash(#[trigger] p[i]) by {
            assert(p[i] == fs[i]);
        }
        lemma_split_join(p);
        lemma_split_on_join(join_fields(p), fs.last(), '#');
        assert(no_hash(fs[fs.len() - 1]));
        lemma_split_no_sep(fs.last());
        assert(p + seq![fs.last()] =~= fs);
    }
}

/// The three type names hold no `#` and differ from each other.
proof fn lemma_type_names()
    ensures
        no_hash(NORMAL_NAME@),
        no_hash(ESTIMATE_NAME@),
        no_hash(SORT_NAME@),
        NORMAL_NAME@ != ESTIMATE_NAME@,
        NORMAL_NAME@ != SORT_NAME@,
        ESTIMATE_NAME@ != SORT_NAME@,
{
    reveal_strlit("normal");
    reveal_strlit("schaetzen");
    reveal_strlit("sortier");
    assert(NORMAL_NAME@.len() != ESTIMATE_NAME@.len());
    assert(NORMAL_NAME@.len() != SORT_NAME@.len());
    assert(ESTIMATE_NAME@.len() != SORT_NAME@.len());
}

/// The rest of a line after its fields: nothing, or more fields.
pub open spec fn is_line_rest(r: Seq<char>) -> bool {
    r.len() == 0 || r[0] == '#'
}

/// A line whose own fields read well reads the same with any rest.
proof fn lemma_with_rest(line: Seq<char>, r: Seq<char>)
    requires
        spec_question_line(line) is Ok,
        is_line_rest(r),
    ensures
        spec_question_line(line + r) == spec_question_line(line),
{
    if r.len() == 0 {
        assert(line + r =~= line);
    } else {
        assert(line + r =~= line + seq!['#'] + r.drop_first());
        law_extra_fields_are_ignored(line, r.drop_first());
    }
}

/// Law: a multiple-choice line written from its parts reads back as those
/// parts: the text, the four answers, and the index of the solution letter.
pub proof fn law_normal_line_round_trip(
    q: Seq<char>,
    a0: Seq<char>,
    a1: Seq<char>,
    a2: Seq<char>,
    a3: Seq<char>,
    l: char,
    r: Seq<char>,
)
    requires
        no_hash(q) && no_hash(a0) && no_hash(a1) && no_hash(a2) && no_hash(a3),
        'a' <= l <= 'd',
        is_line_rest(r),
    ensures
        spec_question_line(join_fields(seq![NORMAL_NAME@, q, a0, a1, a2, a3, seq![l]]) + r)
            == Ok::<LineModel, Seq<char>>(LineModel::Complete(QuestionModel::Normal {
                question: q,
                answers: seq![a0, a1, a2, a3],
                solution: (l as int - 'a' as int) as usize,
            })),
{
    lemma_type_names();
    let fs = seq![NORMAL_NAME@, q, a0, a1, a2, a3, seq![l]];
    assert forall|i: int| 0 <= i < fs.len() implies no_hash(#[trigger] fs[i]) by {}
    lemma_split_join(fs);
    assert(fs.subrange(2, 6) =~= seq![a0, a1, a2, a3]);
    lemma_with_rest(join_fields(fs), r);
}

/// Law: an ordering line written from its parts reads back as those parts:
/// the text, the four answers, and the indices of the four solution letters.
pub proof fn law_sort_line_round_trip(
    q: Seq<char>,
    a0: Seq<char>,
    a1: Seq<char>,
    a2: Seq<char>,
    a3: Seq<char>,
    l0: char,
    l1: char,
    l2: char,
    l3: char,
    r: Seq<char>,
)
    requires
        no_hash(q) && no_hash(a0) && no_hash(a1) && no_hash(a2) && no_hash(a3),
        'a' <= l0 <= 'd' && 'a' <= l1 <= 'd' && 'a' <= l2 <= 'd' && 'a' <= l3 <= 'd',
        is_line_rest(r),
    ensures
        spec_question_line(join_fields(seq![SORT_NAME@, q, a0, a1, a2, a3, seq![l0], seq![l1], seq![l2], seq![l3]]) + r)
            == Ok::<LineModel, Seq<char>>(LineModel::Complete(QuestionModel::Sort {
                question: q,
                answers: seq![a0, a1, a2, a3],
                solution: seq![
                    (l0 as int - 'a' as int) as usize,
                    (l1 as int - 'a' as int) as usize,
                    (l2 as int - 'a' as int) as usize,
                    (l3 as int - 'a' as int) as usize,
                ],
            })),
{
    lemma_type_names();
    let fs = seq![SORT_NAME@, q, a0, a1, a2, a3, seq![l0], seq![l1], seq![l2], seq![l3]];
    assert forall|i: int| 0 <= i < fs.len() implies no_hash(#[trigger] fs[i]) by {}
    lemma_split_join(fs);
    assert(fs.subrange(2, 6) =~= seq![a0, a1, a2, a3]);
    lemma_with_rest(join_fields(fs), r);
}

/// Law: an estimation line written from its parts reads back as its text
/// and the text of its solution (which the caller then reads as a number).
pub proof fn law_estimate_line_round_trip(q: Seq<char>, v: Seq<char>, r: Seq<char>)
    requires
        no_hash(q) && no_hash(v),
        is_line_rest(r),
    ensures
        spec_question_line(join_fields(seq![ESTIMATE_NAME@, q, v]) + r)
            == Ok::<LineModel, Seq<char>>(LineModel::EstimatePending { question: q, solution_text: v }),
{
    lemma_type_names();
    let fs = seq![ESTIMATE_NAME@, q, v];
    assert forall|i: int| 0 <= i < fs.len() implies no_hash(#[trigger] fs[i]) by {}
    lemma_split_join(fs);
    lemma_with_rest(join_fields(fs), r);
}

/// Law: typing an ordering question's solution letters (fields 6 to 9 of
/// its line, one after the other) as a group's ordering answer gives an
/// answer equal to the solution: both read the letters the same way.
pub proof fn law_solution_letters_answer_the_question(s: Seq<char>, estimate: Option<u64>)
    requires
        spec_question_line(s) matches Ok(LineModel::Complete(QuestionModel::Sort { .. })),
    ensures
        ({
            let f = split_on(s, '#');
            let sol = spec_question_line(s)->Ok_0->Complete_0->Sort_solution;
            spec_parse_answer(SORT_NAME@, f[6] + f[7] + f[8] + f[9], estimate)
                == Ok::<AnswerModel, Seq<char>>(AnswerModel::Sort(sol))
        }),
{
    lemma_type_names();
    let f = split_on(s, '#');
    let sol = spec_question_line(s)->Ok_0->Complete_0->Sort_solution;
    assert(f.len() >= 10);
    assert(letter_index(f[6]) is Some && letter_index(f[7]) is Some);
    assert(letter_index(f[8]) is Some && letter_index(f[9]) is Some);
    let c0 = f[6][0];
    let c1 = f[7][0];
    let c2 = f[8][0];
    let c3 = f[9][0];
    assert(f[6] =~= seq![c0]);
    assert(f[7] =~= seq![c1]);
    assert(f[8] =~= seq![c2]);
    assert(f[9] =~= seq![c3]);
    let l = f[6] + f[7] + f[8] + f[9];
    assert(l =~= seq![c0, c1, c2, c3]);
    assert(sol == seq![
        letter_index(f[6])->Some_0,
        letter_index(f[7])->Some_0,
        letter_index(f[8])->Some_0,
        letter_index(f[9])->Some_0,
    ]);
    assert(l.drop_first() =~= seq![c1, c2, c3]);
    assert(l.drop_first().drop_first() =~= seq![c2, c3]);
    assert(l.drop_first().drop_first().drop_first() =~= seq![c3]);
    assert(l.drop_first().drop_first().drop_first().drop_first() =~= Seq::<char>::empty());
    assert(letter_values(l) == Ok::<Seq<usize>, char>(sol)) by {
        assert(seq![c3].drop_first() =~= Seq::<char>::empty());
        assert(seq![c2, c3].drop_first() =~= seq![c3]);
        assert(seq![c1, c2, c3].drop_first() =~= seq![c2, c3]);
        assert(seq![c0, c1, c2, c3].drop_first() =~= seq![c1, c2, c3]);
        assert(letter_values(Seq::<char>::empty()) == Ok::<Seq<usize>, char>(Seq::<usize>::empty()));
        assert(letter_values(seq![c3]) == Ok::<Seq<usize>, char>(seq![letter_index(f[9])->Some_0] + Seq::<usize>::empty()));
        assert(letter_values(seq![c2, c3]) == Ok::<Seq<usize>, char>(seq![letter_index(f[8])->Some_0] + (seq![letter_index(f[9])->Some_0] + Seq::<usize>::empty())));
        assert(letter_values(seq![c1, c2, c3]) == Ok::<Seq<usize>, char>(seq![letter_index(f[7])->Some_0] + (seq![letter_index(f[8])->Some_0] + (seq![letter_index(f[9])->Some_0] + Seq::<usize>::empty()))));
        assert(seq![letter_index(f[6])->Some_0] + (seq![letter_index(f[7])->Some_0] + (seq![letter_index(f[8])->Some_0] + (seq![letter_index(f[9])->Some_0] + Seq::<usize>::empty()))) =~= sol);
    }
    assert(is_ascii_chars(l));
    is_ascii_chars_encode_utf8(l);
    assert(encode_utf8(l).len() == 4);
}

/// A list of lines reads well exactly when each line does, and then it
/// holds each line's reading, in order.
pub proof fn law_question_file_reads_each_line_in_order(ls: Seq<Seq<char>>)
    ensures
        (spec_question_list(ls) is Ok) <==> (forall|i: int| 0 <= i < ls.len() ==> #[trigger] spec_question_line(ls[i]) is Ok),
        spec_question_list(ls) is Ok ==> {
            &&& spec_question_list(ls)->Ok_0.len() == ls.len()
            &&& forall|i: int| 0 <= i < ls.len() ==>
                #[trigger] spec_question_line(ls[i]) == Ok::<LineModel, Seq<char>>(spec_question_list(ls)->Ok_0[i])
        },
    decreases ls.len(),
{
    if ls.len() > 0 {
        let p = ls.drop_last();
        law_question_file_reads_each_line_in_order(p);
        assert forall|i: int| 0 <= i < p.len() implies #[trigger] p[i] == ls[i] by {}
        if forall|i: int| 0 <= i < ls.len() ==> #[trigger] spec_question_line(ls[i]) is Ok {
            assert forall|i: int| 0 <= i < p.len() implies #[trigger] spec_question_line(p[i]) is Ok by {
                assert(p[i] == ls[i]);
            }
            assert(spec_question_line(ls[ls.len() - 1]) is Ok);
        }
        if spec_question_list(ls) is Ok {
            assert forall|i: int| 0 <= i < ls.len() implies
                #[trigger] spec_question_line(ls[i]) == Ok::<LineModel, Seq<char>>(spec_question_list(ls)->Ok_0[i]) by {
                if i < p.len() {
                    assert(p[i] == ls[i]);
                    assert(spec_question_line(p[i]) == Ok::<LineModel, Seq<char>>(spec_question_list(p)->Ok_0[i]));
                }
            }
        }
    }
}

/// Every event a buffer holds, taken out by popping until it is empty,
/// oldest first.
pub open spec fn pop_all(q: Seq<Seq<char>>) -> Seq<Seq<char>>
    decreases q.len(),
{
    match popped(q) {
        (_, None) => Seq::<Seq<char>>::empty(),
        (rest, Some(e)) => seq![e] + pop_all(rest),
    }
}

/// The buffer after pushing events one after the other, and whether every
/// push was taken.
pub open spec fn push_all(q: Seq<Seq<char>>, cap: nat, es: Seq<Seq<char>>) -> (Seq<Seq<char>>, bool)
    decreases es.len(),
{
    if es.len() == 0 {
        (q, true)
    } else {
        let (p, ok) = push_all(q, cap, es.drop_last());
        let (r, took) = pushed(p, cap, es.last());
        (r, ok && took)
    }
}

/// Popping until empty gives back what the buffer holds.
proof fn lemma_pop_all(q: Seq<Seq<char>>)
    ensures
        pop_all(q) == q,
    decreases q.len(),
{
    if q.len() > 0 {
        lemma_pop_all(q.drop_first());
        assert(seq![q[0]] + q.drop_first() =~= q);
    }
}

/// Law: events pushed into an empty buffer, no more than it can hold, are
/// all taken, and popping gives each of them back exactly once, in the
/// order they were pushed, and then nothing.
pub proof fn law_each_pushed_event_is_popped_once(cap: nat, es: Seq<Seq<char>>)
    requires
        es.len() <= cap,
    ensures
        push_all(Seq::<Seq<char>>::empty(), cap, es) == (es, true),
        pop_all(push_all(Seq::<Seq<char>>::empty(), cap, es).0) == es,
    decreases es.len(),
{
    if es.len() > 0 {
        law_each_pushed_event_is_popped_once(cap, es.drop_last());
        assert(es.drop_last().push(es.last()) =~= es);
    }
    lemma_pop_all(es);
}

/// Completing a list of lines succeeds exactly when each line completes
/// with its own number, and then gives each line's question, in order.
pub proof fn lemma_lines_complete_each_in_order(ls: Seq<LineModel>, ns: Seq<Option<u64>>)
    ensures
        (finish_all(ls, ns) is Ok) <==> (forall|i: int| 0 <= i < ls.len() ==> #[trigger] finished(ls[i], ns[i]) is Ok),
        finish_all(ls, ns) is Ok ==> {
            &&& finish_all(ls, ns)->Ok_0.len() == ls.len()
            &&& forall|i: int| 0 <= i < ls.len() ==>
                #[trigger] finished(ls[i], ns[i]) == Ok::<QuestionModel, Seq<char>>(finish_all(ls, ns)->Ok_0[i])
        },
    decreases ls.len(),
{
    if ls.len() > 0 {
        let p = ls.drop_last();
        lemma_lines_complete_each_in_order(p, ns);
        assert forall|i: int| 0 <= i < p.len() implies #[trigger] p[i] == ls[i] by {}
        if forall|i: int| 0 <= i < ls.len() ==> #[trigger] finished(ls[i], ns[i]) is Ok {
            assert forall|i: int| 0 <= i < p.len() implies #[trigger] finished(p[i], ns[i]) is Ok by {
                assert(p[i] == ls[i]);
            }
            assert(finished(ls[ls.len() - 1], ns[ls.len() - 1]) is Ok);
        }
        if finish_all(ls, ns) is Ok {
            assert forall|i: int| 0 <= i < ls.len() implies
                #[trigger] finished(ls[i], ns[i]) == Ok::<QuestionModel, Seq<char>>(finish_all(ls, ns)->Ok_0[i]) by {
                if i < p.len() {
                    assert(p[i] == ls[i]);
                    assert(finished(p[i], ns[i]) == Ok::<QuestionModel, Seq<char>>(finish_all(p, ns)->Ok_0[i]));
                }
            }
        } else {
            if forall|i: int| 0 <= i < ls.len() ==> #[trigger] finished(ls[i], ns[i]) is Ok {
                assert(finished(ls[ls.len() - 1], ns[ls.len() - 1]) is Ok);
            }
        }
    }
}

/// What loading a question file gives, with `ns[i]` the number that the
/// `i`-th line that is not blank reads as: the questions, or the error of
/// the first line that does not read or does not complete.
pub open spec fn spec_loaded_questions(text: Seq<char>, ns: Seq<Option<u64>>) -> Result<Seq<QuestionModel>, Seq<char>> {
    match spec_question_file(text) {
        Ok(ls) => finish_all(ls, ns),
        Err(e) => Err(e),
    }
}

/// Law: loading a question file succeeds exactly when every line that is
/// not blank reads as a question line and completes with its number; the
/// questions loaded are then those lines' questions, one for each such
/// line and in the order of the file.
pub proof fn law_question_file_loads_line_by_line(text: Seq<char>, ns: Seq<Option<u64>>)
    ensures
        ({
            let lines = keep_nonblank(spec_lines(text));
            &&& (spec_loaded_questions(text, ns) is Ok) <==> (forall|i: int| 0 <= i < lines.len() ==> {
                &&& #[trigger] spec_question_line(lines[i]) is Ok
                &&& finished(spec_question_line(lines[i])->Ok_0, ns[i]) is Ok
            })
            &&& spec_loaded_questions(text, ns) is Ok ==> {
                &&& spec_loaded_questions(text, ns)->Ok_0.len() == lines.len()
                &&& forall|i: int| 0 <= i < lines.len() ==> finished(#[trigger] spec_question_line(lines[i])->Ok_0, ns[i])
                    == Ok::<QuestionModel, Seq<char>>(spec_loaded_questions(text, ns)->Ok_0[i])
            }
        }),
{
    let lines = keep_nonblank(spec_lines(text));
    law_question_file_reads_each_line_in_order(lines);
    if spec_question_file(text) is Ok {
        let ls = spec_question_file(text)->Ok_0;
        lemma_lines_complete_each_in_order(ls, ns);
        assert forall|i: int| 0 <= i < lines.len() implies #[trigger] spec_question_line(lines[i])->Ok_0 == ls[i] by {
            assert(spec_question_line(lines[i]) == Ok::<LineModel, Seq<char>>(ls[i]));
        }
        if forall|i: int| 0 <= i < lines.len() ==> {
            &&& #[trigger] spec_question_line(lines[i]) is Ok
            &&& finished(spec_question_line(lines[i])->Ok_0, ns[i]) is Ok
        } {
            assert forall|i: int| 0 <= i < ls.len() implies #[trigger] finished(ls[i], ns[i]) is Ok by {
                assert(spec_question_line(lines[i])->Ok_0 == ls[i]);
            }
        }
        if finish_all(ls, ns) is Ok {
            assert forall|i: int| 0 <= i < lines.len() implies finished(#[trigger] spec_question_line(lines[i])->Ok_0, ns[i])
                == Ok::<QuestionModel, Seq<char>>(finish_all(ls, ns)->Ok_0[i]) by {
                assert(spec_question_line(lines[i])->Ok_0 == ls[i]);
                assert(finished(ls[i], ns[i]) == Ok::<QuestionModel, Seq<char>>(finish_all(ls, ns)->Ok_0[i]));
            }
        }
    } else {
        if forall|i: int| 0 <= i < lines.len() ==> {
            &&& #[trigger] spec_question_line(lines[i]) is Ok
            &&& finished(spec_question_line(lines[i])->Ok_0, ns[i]) is Ok
        } {
            assert forall|i: int| 0 <= i < lines.len() implies #[trigger] spec_question_line(lines[i]) is Ok by {}
        }
    }
}

/// Two lists of distinct names holding the same names, with one distance
/// for each name in each list, hold the same distances.
proof fn lemma_keys_by_name(o1: Seq<Seq<char>>, k1: Seq<Option<u64>>, o2: Seq<Seq<char>>, k2: Seq<Option<u64>>)
    requires
        o1.len() == k1.len(),
        o2.len() == k2.len(),
        forall|i: int, j: int| 0 <= i < j < o1.len() ==> o1[i] != o1[j],
        forall|i: int, j: int| 0 <= i < j < o2.len() ==> o2[i] != o2[j],
        forall|n: Seq<char>| o1.contains(n) <==> o2.contains(n),
        forall|i: int, j: int| 0 <= i < o1.len() && 0 <= j < o2.len() && o1[i] == o2[j] ==> k1[i] == k2[j],
    ensures
        k1.to_multiset() == k2.to_multiset(),
    decreases o1.len(),
{
    broadcast use vstd::seq_lib::group_to_multiset_ensures;
    if o1.len() == 0 {
        if o2.len() > 0 {
            assert(o2.contains(o2[0]));
        }
        assert(k1 =~= Seq::<Option<u64>>::empty());
        assert(k2 =~= Seq::<Option<u64>>::empty());
    } else {
        let last = o1.len() - 1;
        let n = o1[last];
        assert(o1.contains(n));
        let j = choose|j: int| 0 <= j < o2.len() && o2[j] == n;
        let p1 = o1.drop_last();
        let q1 = k1.drop_last();
        let p2 = o2.remove(j);
        let q2 = k2.remove(j);
        assert forall|m: Seq<char>| p1.contains(m) <==> p2.contains(m) by {
            if p1.contains(m) {
                let a = choose|a: int| 0 <= a < p1.len() && p1[a] == m;
                assert(o1[a] == m);
                assert(m != n);
                assert(o1.contains(m));
                let b = choose|b: int| 0 <= b < o2.len() && o2[b] == m;
                assert(b != j);
                if b < j {
                    assert(p2[b] == m);
                } else {
                    assert(p2[b - 1] == m);
                }
            }
            if p2.contains(m) {
                let b = choose|b: int| 0 <= b < p2.len() && p2[b] == m;
                let b2 = if b < j { b } else { b + 1 };
                assert(o2[b2] == m);
                assert(b2 != j);
                assert(m != n);
                assert(o2.contains(m));
                assert(o1.contains(m));
                let a = choose|a: int| 0 <= a < o1.len() && o1[a] == m;
                assert(a != last);
                assert(p1[a] == m);
            }
        }
        assert forall|a: int, b: int| 0 <= a < p1.len() && 0 <= b < p2.len() && p1[a] == p2[b] implies q1[a] == q2[b] by {
            let b2 = if b < j { b } else { b + 1 };
            assert(p2[b] == o2[b2]);
            assert(q2[b] == k2[b2]);
        }
        assert forall|a: int, b: int| 0 <= a < b < p2.len() implies p2[a] != p2[b] by {
            let a2 = if a < j { a } else { a + 1 };
            let b2 = if b < j { b } else { b + 1 };
            assert(p2[a] == o2[a2]);
            assert(p2[b] == o2[b2]);
        }
        lemma_keys_by_name(p1, q1, p2, q2);
        assert(k1[last] == k2[j]);
        assert(q1.push(k1[last]) =~= k1);
        assert(k1.to_multiset() =~= q1.to_multiset().insert(k1[last]));
        assert(q2.to_multiset() =~= k2.to_multiset().remove(k2[j]));
        assert(k2.to_multiset().count(k2[j]) > 0);
        assert(k2.to_multiset() =~= q2.to_multiset().insert(k2[j]));
    }
}

/// Law: the points a round hands out do not depend on the order in which
/// the groups are listed, nor on their scores: take two states with the
/// same current question and the same groups, listed in any two orders,
/// where each group has the same answer and the same distance in both;
/// then each group earns the same points in both.
pub proof fn law_round_points_ignore_group_order(
    s1: ServerData,
    keys1: Seq<Option<u64>>,
    s2: ServerData,
    keys2: Seq<Option<u64>>,
)
    requires
        s1.groups.listed_once(),
        s2.groups.listed_once(),
        s1.current() == s2.current(),
        s1.groups@.dom() == s2.groups@.dom(),
        keys1.len() == s1.groups.order().len(),
        keys2.len() == s2.groups.order().len(),
        forall|i: int, j: int|
            0 <= i < keys1.len() && 0 <= j < keys2.len() && s1.groups.order()[i] == s2.groups.order()[j] ==> {
                &&& keys1[i] == keys2[j]
                &&& s1.groups@[s1.groups.order()[i]].answer == s2.groups@[s2.groups.order()[j]].answer
            },
    ensures
        forall|i: int, j: int|
            0 <= i < keys1.len() && 0 <= j < keys2.len() && s1.groups.order()[i] == s2.groups.order()[j] ==>
                s1.points_at(keys1, i) == s2.points_at(keys2, j),
{
    let o1 = s1.groups.order();
    let o2 = s2.groups.order();
    assert forall|n: Seq<char>| o1.contains(n) <==> o2.contains(n) by {
        assert(s1.groups@.contains_key(n) <==> o1.contains(n));
        assert(s2.groups@.contains_key(n) <==> o2.contains(n));
    }
    lemma_keys_by_name(o1, keys1, o2, keys2);
    assert forall|i: int, j: int|
        0 <= i < keys1.len() && 0 <= j < keys2.len() && o1[i] == o2[j] implies
            s1.points_at(keys1, i) == s2.points_at(keys2, j) by {
        assert(keys1[i] == keys2[j]);
        law_round_points_ignore_scores(s1, keys1, i, s2, keys2, j);
    }
}

} // verus!
