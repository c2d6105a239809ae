//! Properties of reading text that hold for every input: decimal numbers,
//! the lines of a question file, estimation lines and answers.

use vstd::prelude::*;
use crate::text::{spec_parse_usize, digits_value, is_digits, lemma_digits_prefix, split_on, lemma_split_on_nonempty, keep_nonblank, is_blank, is_white_space, spec_lines};
use crate::question::{spec_question_line, spec_question_list, spec_question_file, finished, LineModel, QuestionModel, NORMAL_NAME, ESTIMATE_NAME};
use crate::answer::{spec_parse_answer, AnswerModel};
use crate::laws::{join_fields, no_hash, is_line_rest, law_estimate_line_round_trip, lemma_split_on_join};

verus! {

/// The number a digit character stands for.
pub open spec fn digit_of(c: char) -> int {
    c as int - '0' as int
}

/// Law: a single decimal digit reads as the number it stands for; `0`
/// reads as zero.
pub proof fn law_single_digit_reads_as_itself(c: char)
    requires
        '0' <= c <= '9',
    ensures
        spec_parse_usize(seq![c]) == Some(digit_of(c) as usize),
        spec_parse_usize(seq!['+', c]) == Some(digit_of(c) as usize),
{
    assert(seq![c].drop_last() =~= Seq::<char>::empty());
    assert(seq![c].last() == c);
    assert(digits_value(seq![c].drop_last()) == 0);
    assert(digits_value(seq![c]) == digit_of(c));
    assert(is_digits(seq![c]));
    assert(seq![c][0] != '+');
    assert(seq!['+', c][0] == '+');
    assert(seq!['+', c].drop_first() =~= seq![c]);
}

/// Law: writing one more digit after a number that reads well multiplies
/// its value by ten and adds the digit, as long as that fits in a `usize`.
pub proof fn law_next_digit_shifts_the_value(s: Seq<char>, c: char, v: usize)
    requires
        spec_parse_usize(s) == Some(v),
        '0' <= c <= '9',
        v * 10 + digit_of(c) <= usize::MAX,
    ensures
        spec_parse_usize(s.push(c)) == Some((v * 10 + digit_of(c)) as usize),
{
    let d = if s.len() > 0 && s[0] == '+' { s.drop_first() } else { s };
    let e = s.push(c);
    let de = if e.len() > 0 && e[0] == '+' { e.drop_first() } else { e };
    assert(s.len() > 0);
    assert(e[0] == s[0]);
    assert(de =~= d.push(c));
    assert(de.drop_last() =~= d);
    assert(de.last() == c);
    assert(is_digits(d));
    lemma_digits_prefix(d, d.len() as int);
    assert(d.take(d.len() as int) =~= d);
    assert(digits_value(d) == v);
    assert(digits_value(de) == digits_value(d) * 10 + digit_of(c));
    assert forall|i: int| 0 <= i < de.len() implies '0' <= #[trigger] de[i] <= '9' by {
        if i < d.len() {
            assert(de[i] == d[i]);
        }
    }
}

/// Law: a number longer than what fits in a `usize`, a text with a
/// character other than a digit (past a leading `+`), the empty text and a
/// lone `+` read as no number.
pub proof fn law_what_reads_as_no_number(s: Seq<char>, i: int)
    requires
        0 <= i < s.len(),
        !('0' <= s[i] <= '9'),
        !(i == 0 && s[i] == '+'),
    ensures
        spec_parse_usize(s) is None,
        spec_parse_usize(Seq::<char>::empty()) is None,
        spec_parse_usize(seq!['+']) is None,
{
    if s[0] == '+' {
        assert(s.drop_first()[i - 1] == s[i]);
    }
    assert(seq!['+'].drop_first() =~= Seq::<char>::empty());
}

/// Law: a string of digits reads as its decimal value whenever that fits
/// in a `usize` (zero included), with or without a leading `+`.
pub proof fn law_digit_strings_read_as_their_value(d: Seq<char>)
    requires
        d.len() > 0,
        forall|i: int| 0 <= i < d.len() ==> '0' <= #[trigger] d[i] <= '9',
        digits_value(d) <= usize::MAX,
    ensures
        spec_parse_usize(d) == Some(digits_value(d) as usize),
        spec_parse_usize(seq!['+'] + d) == Some(digits_value(d) as usize),
{
    assert(d[0] != '+');
    assert((seq!['+'] + d).drop_first() =~= d);
}

/// Law: a group's multiple-choice answer is the number its text reads as,
/// zero (the first choice) included; it does not depend on what the text
/// would read as as a float.
pub proof fn law_choice_answer_is_its_number(t: Seq<char>, e: Option<u64>)
    ensures
        spec_parse_usize(t) matches Some(n) ==>
            spec_parse_answer(NORMAL_NAME@, t, e) == Ok::<AnswerModel, Seq<char>>(AnswerModel::Normal(n)),
        spec_parse_usize(t) is None ==> spec_parse_answer(NORMAL_NAME@, t, e) is Err,
{
}

/// Law: a group's estimation answer is exactly the number its text reads
/// as, whatever that number is (negative, zero, or any other bit pattern),
/// and whatever the text looks like.
pub proof fn law_estimate_answer_is_its_number(t: Seq<char>, e: u64)
    ensures
        spec_parse_answer(ESTIMATE_NAME@, t, Some(e)) == Ok::<AnswerModel, Seq<char>>(AnswerModel::Estimate(e)),
        spec_parse_answer(ESTIMATE_NAME@, t, None) is Err,
{
    reveal_strlit("normal");
    reveal_strlit("schaetzen");
    assert(NORMAL_NAME@.len() != ESTIMATE_NAME@.len());
}

/// Law: two estimation answers are the same answer exactly when their
/// numbers are the same: no two numbers are read alike.
pub proof fn law_estimate_answers_tell_numbers_apart(t1: Seq<char>, e1: u64, t2: Seq<char>, e2: u64)
    ensures
        (spec_parse_answer(ESTIMATE_NAME@, t1, Some(e1)) == spec_parse_answer(ESTIMATE_NAME@, t2, Some(e2))) <==> e1 == e2,
{
    law_estimate_answer_is_its_number(t1, e1);
    law_estimate_answer_is_its_number(t2, e2);
}

/// Law: an estimation line written from its text `q` and solution text `v`
/// completes, with the number `n` that `v` reads as, into the estimation
/// question with text `q` and solution exactly `n`, whatever `n` is; where
/// `v` reads as no number, it fails.
pub proof fn law_estimate_line_keeps_its_number(q: Seq<char>, v: Seq<char>, r: Seq<char>, n: u64)
    requires
        no_hash(q) && no_hash(v),
        is_line_rest(r),
    ensures
        ({
            let l = spec_question_line(join_fields(seq![ESTIMATE_NAME@, q, v]) + r);
            &&& l is Ok
            &&& finished(l->Ok_0, Some(n)) == Ok::<QuestionModel, Seq<char>>(QuestionModel::Estimate { question: q, solution: n })
            &&& finished(l->Ok_0, None) is Err
        }),
{
    law_estimate_line_round_trip(q, v, r);
}

/// Law: completing estimation lines keeps their numbers apart: two
/// different numbers give two different questions.
pub proof fn law_estimate_numbers_stay_apart(q: Seq<char>, v: Seq<char>, n1: u64, n2: u64)
    ensures
        (finished(LineModel::EstimatePending { question: q, solution_text: v }, Some(n1))
            == finished(LineModel::EstimatePending { question: q, solution_text: v }, Some(n2))) <==> n1 == n2,
        finished(LineModel::EstimatePending { question: q, solution_text: v }, Some(n1)) matches
            Ok(QuestionModel::Estimate { question, solution }) && question == q && solution == n1,
{
}

/// Law: a complete question line is completed as it is: the number handed
/// with it changes nothing.
pub proof fn law_complete_lines_ignore_the_number(q: QuestionModel, n1: Option<u64>, n2: Option<u64>)
    ensures
        finished(LineModel::Complete(q), n1) == Ok::<QuestionModel, Seq<char>>(q),
        finished(LineModel::Complete(q), n1) == finished(LineModel::Complete(q), n2),
{
}

/// Law: a line with a visible ASCII character (`!` to `~`) is not blank.
pub proof fn law_visible_character_is_not_blank(l: Seq<char>, i: int)
    requires
        0 <= i < l.len(),
        '!' <= l[i] <= '~',
    ensures
        !is_blank(l),
{
    assert(!is_white_space(l[i]));
}

/// Law: a line that is not blank is always kept, whatever its length and
/// wherever it stands: it keeps its place among the lines kept before and
/// after it.
pub proof fn law_nonblank_lines_are_kept(a: Seq<Seq<char>>, l: Seq<char>, b: Seq<Seq<char>>)
    requires
        !is_blank(l),
    ensures
        keep_nonblank(a + seq![l] + b) == keep_nonblank(a) + seq![l] + keep_nonblank(b),
{
    lemma_keep_join(a + seq![l], b);
    lemma_keep_join(a, seq![l]);
    assert(seq![l].drop_last() =~= Seq::<Seq<char>>::empty());
    assert(seq![l].last() == l);
    assert(keep_nonblank(Seq::<Seq<char>>::empty()) =~= Seq::<Seq<char>>::empty());
    assert(keep_nonblank(seq![l]) =~= seq![l]);
}

/// Keeping lines distributes over joined lists.
proof fn lemma_keep_join(a: Seq<Seq<char>>, b: Seq<Seq<char>>)
    ensures
        keep_nonblank(a + b) == keep_nonblank(a) + keep_nonblank(b),
    decreases b.len(),
{
    if b.len() == 0 {
        assert(a + b =~= a);
        assert(keep_nonblank(a) + keep_nonblank(b) =~= keep_nonblank(a));
    } else {
        assert((a + b).drop_last() =~= a + b.drop_last());
        assert((a + b).last() == b.last());
        lemma_keep_join(a, b.drop_last());
        if !is_blank(b.last()) {
            assert((keep_nonblank(a) + keep_nonblank(b.drop_last())).push(b.last())
                =~= keep_nonblank(a) + keep_nonblank(b.drop_last()).push(b.last()));
        }
    }
}

/// Law: the lines kept are exactly the lines that are not blank, in their
/// order.
pub proof fn law_kept_lines_are_the_nonblank_ones(ls: Seq<Seq<char>>)
    ensures
        keep_nonblank(ls) == ls.filter(|l: Seq<char>| !is_blank(l)),
    decreases ls.len(),
{
    reveal(Seq::filter);
    if ls.len() > 0 {
        law_kept_lines_are_the_nonblank_ones(ls.drop_last());
    }
}

/// Lines joined into a text, with a line break after each.
pub open spec fn join_lines(ls: Seq<Seq<char>>) -> Seq<char>
    decreases ls.len(),
{
    if ls.len() == 0 {
        Seq::<char>::empty()
    } else {
        join_lines(ls.drop_last()) + ls.last() + seq!['\n']
    }
}

/// A line of a text: no line break in it, and no carriage return at its end.
pub open spec fn is_plain_line(l: Seq<char>) -> bool {
    &&& forall|i: int| 0 <= i < l.len() ==> l[i] != '\n'
    &&& (l.len() > 0 ==> l.last() != '\r')
}

/// Text without a separator is a single piece.
proof fn lemma_split_single(t: Seq<char>, sep: char)
    requires
        forall|i: int| 0 <= i < t.len() ==> t[i] != sep,
    ensures
        split_on(t, sep) == seq![t],
    decreases t.len(),
{
    if t.len() > 0 {
        lemma_split_single(t.drop_last(), sep);
        assert(t.drop_last().push(t.last()) =~= t);
        assert(t[t.len() - 1] != sep);
    } else {
        assert(t =~= Seq::<char>::empty());
    }
}

/// Splitting lines joined with a break after each gives the lines and an
/// empty piece after the last break.
proof fn lemma_split_lines(ls: Seq<Seq<char>>)
    requires
        forall|i: int| 0 <= i < ls.len() ==> #[trigger] is_plain_line(ls[i]),
    ensures
        split_on(join_lines(ls), '\n') == ls.push(Seq::<char>::empty()),
    decreases ls.len(),
{
    if ls.len() == 0 {
        assert(split_on(Seq::<char>::empty(), '\n') =~= Seq::<Seq<char>>::empty().push(Seq::<char>::empty()));
    } else {
        let p = ls.drop_last();
        assert forall|i: int| 0 <= i < p.len() implies #[trigger] is_plain_line(p[i]) by {
            assert(p[i] == ls[i]);
        }
        lemma_split_lines(p);
        let l = ls.last();
        assert(is_plain_line(ls[ls.len() - 1]));
        lemma_split_single(l, '\n');
        let s = join_lines(p) + l;
        lemma_split_on_join(join_lines(p), l, '\n');
        assert(split_on(Seq::<char>::empty(), '\n') =~= seq![Seq::<char>::empty()]);
        lemma_split_on_join(s, Seq::<char>::empty(), '\n');
        assert(s + seq!['\n'] + Seq::<char>::empty() =~= join_lines(ls));
        let q = split_on(join_lines(p), '\n');
        assert(q =~= p.push(Seq::<char>::empty()));
        lemma_split_on_nonempty(join_lines(p), '\n');
        assert(split_on(join_lines(p) + seq!['\n'] + l, '\n') == q + seq![l]);
        // splitting `join_lines(p) + l`: the last piece of `q` (empty) takes `l`
        lemma_split_append_plain(join_lines(p), l);
        assert(split_on(s, '\n') =~= p.push(l));
        assert(p.push(l) + seq![Seq::<char>::empty()] =~= ls.push(Seq::<char>::empty()));
    }
}

/// Appending text without a separator to a text that ends with one adds a
/// last piece holding that text.
proof fn lemma_split_append_plain(s: Seq<char>, t: Seq<char>)
    requires
        s.len() == 0 || s.last() == '\n',
        forall|i: int| 0 <= i < t.len() ==> t[i] != '\n',
    ensures
        split_on(s + t, '\n') == split_on(s, '\n').update(split_on(s, '\n').len() - 1, t),
        split_on(s, '\n').last().len() == 0,
    decreases t.len(),
{
    lemma_split_on_nonempty(s, '\n');
    if t.len() == 0 {
        assert(s + t =~= s);
        if s.len() > 0 {
            assert(split_on(s, '\n') == split_on(s.drop_last(), '\n').push(Seq::<char>::empty()));
        } else {
            assert(split_on(s, '\n') == seq![Seq::<char>::empty()]);
        }
        assert(split_on(s, '\n').last() =~= Seq::<char>::empty());
        assert(t =~= Seq::<char>::empty());
        assert(split_on(s, '\n').update(split_on(s, '\n').len() - 1, t) =~= split_on(s, '\n'));
    } else {
        lemma_split_append_plain(s, t.drop_last());
        assert((s + t).drop_last() =~= s + t.drop_last());
        assert((s + t).last() == t.last());
        assert(t[t.len() - 1] != '\n');
        lemma_split_on_nonempty(s + t.drop_last(), '\n');
        assert(t.drop_last().push(t.last()) =~= t);
        assert(split_on(s + t, '\n') =~= split_on(s, '\n').update(split_on(s, '\n').len() - 1, t));
    }
}

/// Law: a text written as lines, each followed by a line break, has exactly
/// those lines; so its question lines are those of its lines that are not
/// blank, read in order.
pub proof fn law_written_lines_read_back(ls: Seq<Seq<char>>)
    requires
        ls.len() > 0,
        forall|i: int| 0 <= i < ls.len() ==> #[trigger] is_plain_line(ls[i]),
    ensures
        spec_lines(join_lines(ls)) == ls,
        spec_question_file(join_lines(ls)) == spec_question_list(keep_nonblank(ls)),
{
    lemma_split_lines(ls);
    let p = split_on(join_lines(ls), '\n');
    assert(p.len() == ls.len() + 1);
    assert forall|i: int| 0 <= i < ls.len() implies #[trigger] spec_lines(join_lines(ls))[i] == ls[i] by {
        assert(p[i] == ls[i]);
        assert(is_plain_line(ls[i]));
    }
    assert(spec_lines(join_lines(ls)) =~= ls);
}

} // verus!
