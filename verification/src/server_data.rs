//! The state of a running quiz: the groups, the loaded questions, which
//! question is current, and the buffer of events for the display; and the
//! scoring of a round.

use vstd::prelude::*;
use crate::answer::{Answer, AnswerModel};
use crate::event_buffer::{EventBuffer, EVENT_BUFFER_CAPACITY, pushed};
use crate::groups::{GroupData, Groups, fresh_group};
use crate::question::{Question, QuestionModel, QuestionLine, kind_text, finish_lines, finish_all, line_views, question_views};
use crate::ranking::{Ranked, count_where, sorted_by_distance, sort_by_distance, lemma_count_split, lemma_count_zero, lemma_count_all};

verus! {

/// Points for the right answer to a multiple-choice question.
pub const NORMAL_POINTS: isize = 1;
/// Points for the right order in an ordering question.
pub const SORT_POINTS: isize = 1;
/// Points for the closest estimate (every group tied for closest gets them).
pub const ESTIMATE_1_POINTS: isize = 2;
/// Points for the second closest estimate, when one group alone is closest.
pub const ESTIMATE_2_POINTS: isize = 1;

/// How many of the given estimate distances are strictly smaller than `k`.
pub open spec fn closer_count(keys: Seq<Option<u64>>, k: u64) -> nat
    decreases keys.len(),
{
    if keys.len() == 0 {
        0
    } else {
        closer_count(keys.drop_last(), k) + (if keys.last() matches Some(x) && x < k { 1nat } else { 0nat })
    }
}

/// How many groups gave an estimate.
pub open spec fn estimate_count(keys: Seq<Option<u64>>) -> nat
    decreases keys.len(),
{
    if keys.len() == 0 {
        0
    } else {
        estimate_count(keys.drop_last()) + (if keys.last() is Some { 1nat } else { 0nat })
    }
}

/// Points for an estimate at distance `k`: the closest estimates (no other
/// closer) get `ESTIMATE_1_POINTS`; the next closest get
/// `ESTIMATE_2_POINTS` when exactly one estimate is closer; all others get
/// nothing.
pub open spec fn estimate_points(keys: Seq<Option<u64>>, k: u64) -> int {
    let c = closer_count(keys, k);
    if c == 0 {
        ESTIMATE_1_POINTS as int
    } else if c == 1 {
        ESTIMATE_2_POINTS as int
    } else {
        0
    }
}

/// Points that a group earns in a round: `q` is the current question,
/// `a` the group's answer, `key` the distance of its estimate (for an
/// estimation question) and `keys` the distances of all groups.
pub open spec fn round_points(
    q: QuestionModel,
    a: Option<Answer>,
    key: Option<u64>,
    keys: Seq<Option<u64>>,
) -> int {
    match q {
        QuestionModel::Normal { solution, .. } => {
            if a matches Some(x) && x@ == AnswerModel::Normal(solution) {
                NORMAL_POINTS as int
            } else {
                0
            }
        },
        QuestionModel::Sort { solution, .. } => {
            if a matches Some(x) && x@ == AnswerModel::Sort(solution) {
                SORT_POINTS as int
            } else {
                0
            }
        },
        QuestionModel::Estimate { .. } => match key {
            Some(k) => estimate_points(keys, k),
            None => 0,
        },
    }
}

/// Whether a group's answer is an estimate that takes part in the ranking
/// of an estimation question.
pub open spec fn ranks_estimate(q: QuestionModel, a: Option<Answer>) -> bool {
    &&& q is Estimate
    &&& a matches Some(x) && x is Estimate
}

/// Entries closer than distance `v`.
pub open spec fn below(v: u64) -> spec_fn(Ranked) -> bool {
    |e: Ranked| e.0 < v
}

/// Entries of the group at position `g`.
pub open spec fn at_group(g: usize) -> spec_fn(Ranked) -> bool {
    |e: Ranked| e.1 == g
}

/// Entries that do not carry the distance given for their group.
pub open spec fn misplaced(keys: Seq<Option<u64>>) -> spec_fn(Ranked) -> bool {
    |e: Ranked| !(e.1 < keys.len() && keys[e.1 as int] == Some(e.0))
}

/// In a list sorted by distance, nothing is closer than the first entry.
proof fn lemma_first_is_closest(r: Seq<Ranked>)
    requires
        sorted_by_distance(r),
        r.len() > 0,
    ensures
        count_where(r, below(r[0].0)) == 0,
{
    lemma_count_zero(r, below(r[0].0));
    assert forall|q: int| 0 <= q < r.len() implies !below(r[0].0)(#[trigger] r[q]) by {
        if q > 0 {
            assert(r[0].0 <= r[q].0);
        }
    }
}

/// In a list sorted by distance whose second entry is farther than its
/// first, only the first is closer than the second.
proof fn lemma_second_has_one_closer(r: Seq<Ranked>)
    requires
        sorted_by_distance(r),
        r.len() >= 2,
        r[0].0 < r[1].0,
    ensures
        count_where(r, below(r[1].0)) == 1,
{
    let v = r[1].0;
    lemma_count_split(r, 1, below(v));
    assert(r.take(1).drop_last() =~= Seq::<Ranked>::empty());
    assert(r.take(1).last() == r[0]);
    assert(below(v)(r[0]));
    assert(count_where(r.take(1).drop_last(), below(v)) == 0);
    assert(count_where(r.take(1), below(v)) == 1);
    lemma_count_zero(r.skip(1), below(v));
    assert forall|q: int| 0 <= q < r.skip(1).len() implies !below(v)(#[trigger] r.skip(1)[q]) by {
        assert(r.skip(1)[q] == r[q + 1]);
        if q > 0 {
            assert(r[1].0 <= r[q + 1].0);
        }
    }
}

/// In a list sorted by distance, a distance beyond the second entry's has
/// at least two entries closer.
proof fn lemma_two_closer(r: Seq<Ranked>, v: u64)
    requires
        sorted_by_distance(r),
        r.len() >= 2,
        r[1].0 < v,
    ensures
        count_where(r, below(v)) >= 2,
{
    lemma_count_split(r, 2, below(v));
    assert(r[0].0 <= r[1].0);
    assert forall|q: int| 0 <= q < r.take(2).len() implies below(v)(#[trigger] r.take(2)[q]) by {
        assert(r.take(2)[q] == r[q]);
    }
    lemma_count_all(r.take(2), below(v));
}

/// An entry that satisfies a predicate makes its count positive.
proof fn lemma_count_has(s: Seq<Ranked>, p: spec_fn(Ranked) -> bool, q: int)
    requires
        0 <= q < s.len(),
        p(s[q]),
    ensures
        count_where(s, p) > 0,
{
    lemma_count_zero(s, p);
}

/// A positive count has an entry that satisfies the predicate.
proof fn lemma_count_witness(s: Seq<Ranked>, p: spec_fn(Ranked) -> bool) -> (q: int)
    requires
        count_where(s, p) > 0,
    ensures
        0 <= q < s.len(),
        p(s[q]),
{
    lemma_count_zero(s, p);
    choose|q: int| 0 <= q < s.len() && p(s[q])
}

/// The state of a quiz.
pub struct ServerData {
    pub groups: Groups,
    pub questions: Vec<Question>,
    pub current_question: usize,
    pub display_buffer: EventBuffer,
}

/// The rule by which the current question is scored.
#[derive(Clone, Copy)]
enum Rule {
    Normal(usize),
    Sort([usize; 4]),
}

/// Whether two orderings are the same.
fn same_order(a: &[usize; 4], b: &[usize; 4]) -> (r: bool)
    ensures
        r == (a@ == b@),
{
    let r = a[0] == b[0] && a[1] == b[1] && a[2] == b[2] && a[3] == b[3];
    if r {
        assert(a@ =~= b@);
    }
    r
}

/// How many of the given distances are smaller than `k`.
fn count_closer(keys: &Vec<Option<u64>>, k: u64) -> (c: usize)
    ensures
        c == closer_count(keys@, k),
{
    let mut c: usize = 0;
    let mut j: usize = 0;
    while j < keys.len()
        invariant
            j <= keys@.len(),
            c <= j,
            c == closer_count(keys@.take(j as int), k),
        decreases keys@.len() - j,
    {
        assert(keys@.take(j + 1).drop_last() =~= keys@.take(j as int));
        match keys[j] {
            Some(x) => {
                if x < k {
                    c += 1;
                }
            },
            None => {},
        }
        j += 1;
    }
    assert(keys@.take(keys@.len() as int) =~= keys@);
    c
}

/// How many groups gave an estimate.
fn count_estimates(keys: &Vec<Option<u64>>) -> (c: usize)
    ensures
        c == estimate_count(keys@),
{
    let mut c: usize = 0;
    let mut j: usize = 0;
    while j < keys.len()
        invariant
            j <= keys@.len(),
            c <= j,
            c == estimate_count(keys@.take(j as int)),
        decreases keys@.len() - j,
    {
        assert(keys@.take(j + 1).drop_last() =~= keys@.take(j as int));
        if keys[j].is_some() {
            c += 1;
        }
        j += 1;
    }
    assert(keys@.take(keys@.len() as int) =~= keys@);
    c
}

impl ServerData {
    /// A quiz with no groups and no questions.
    pub fn new() -> (s: ServerData)
        ensures
            s.groups@ == Map::<Seq<char>, GroupData>::empty(),
            s.groups.order() == Seq::<Seq<char>>::empty(),
            s.questions@ == Seq::<Question>::empty(),
            s.current_question == 0,
            s.display_buffer@ == Seq::<Seq<char>>::empty(),
            s.display_buffer.capacity() == EVENT_BUFFER_CAPACITY,
    {
        ServerData {
            groups: Groups::new(),
            questions: Vec::new(),
            current_question: 0,
            display_buffer: EventBuffer::new(),
        }
    }

    /// Replaces the questions by a newly loaded list and makes the first
    /// one current.
    pub fn load_questions(&mut self, questions: Vec<Question>)
        ensures
            final(self).questions == questions,
            final(self).current_question == 0,
            final(self).groups == old(self).groups,
            final(self).display_buffer == old(self).display_buffer,
    {
        self.questions = questions;
        self.current_question = 0;
    }

    /// Loads a question file that `parse_question_lines` has read: each
    /// line is completed with its number (`numbers[i]` for line `i`, the
    /// number that an estimation line's solution text reads as). Where every
    /// line completes, the questions are replaced by them, in order, and the
    /// first one is made current; otherwise the error of the first line that
    /// fails is returned and the questions stay as they were.
    pub fn load_parsed_questions(&mut self, lines: Vec<QuestionLine>, numbers: &Vec<Option<u64>>) -> (r: Result<(), &'static str>)
        requires
            numbers@.len() == lines@.len(),
        ensures
            match r {
                Ok(_) => {
                    &&& finish_all(line_views(lines@), numbers@)
                        == Ok::<Seq<QuestionModel>, Seq<char>>(question_views(final(self).questions@))
                    &&& final(self).current_question == 0
                },
                Err(e) => {
                    &&& finish_all(line_views(lines@), numbers@) == Err::<Seq<QuestionModel>, Seq<char>>(e@)
                    &&& final(self).questions == old(self).questions
                    &&& final(self).current_question == old(self).current_question
                },
            },
            final(self).groups == old(self).groups,
            final(self).display_buffer == old(self).display_buffer,
    {
        match finish_lines(lines, numbers) {
            Ok(questions) => {
                self.load_questions(questions);
                Ok(())
            },
            Err(e) => Err(e),
        }
    }

    /// The page that a screen shows: `waiting_page` while no question is
    /// loaded, otherwise the page of the current question's kind within
    /// `area` (`area/normal`, `area/estimate` or `area/sort`).
    pub fn current_page(&self, area: &str, waiting_page: &str) -> (r: String)
        requires
            self.questions@.len() == 0 || self.current_question < self.questions@.len(),
        ensures
            r@ == (if self.questions@.len() == 0 {
                waiting_page@
            } else {
                area@ + "/"@ + kind_text(self.current())
            }),
    {
        if self.questions.len() == 0 {
            return String::from_str(waiting_page);
        }
        let mut page = String::from_str(area);
        page.append("/");
        page.append(self.questions[self.current_question].kind_name());
        page
    }

    /// The index and a copy of the current question, or `None` where no
    /// question has that index.
    pub fn current_question_entry(&self) -> (r: Option<(usize, Question)>)
        ensures
            self.current_question >= self.questions@.len() ==> r is None,
            self.current_question < self.questions@.len() ==> (r matches Some((i, q))
                && i == self.current_question && q@ == self.current()),
    {
        if self.current_question >= self.questions.len() {
            return None;
        }
        Some((self.current_question, self.questions[self.current_question].clone()))
    }

    /// What a group sees of the current question: `None` where no question
    /// has the current index; otherwise the named group's answer, which is
    /// `None` where no group is named, the group does not exist, or it has
    /// not answered.
    pub fn group_question_state(&self, group_name: Option<&str>) -> (r: Option<Option<Answer>>)
        ensures
            self.current_question >= self.questions@.len() ==> r is None,
            self.current_question < self.questions@.len() ==> r == Some(match group_name {
                Some(n) => if self.groups@.contains_key(n@) { self.groups@[n@].answer } else { None },
                None => None,
            }),
    {
        if self.current_question >= self.questions.len() {
            return None;
        }
        match group_name {
            Some(n) => match self.groups.get(n) {
                Some(g) => Some(g.answer),
                None => Some(None),
            },
            None => Some(None),
        }
    }

    /// Takes every group's answer away, for a new question.
    pub fn clear_group_answers(&mut self)
        ensures
            final(self).groups.order() == old(self).groups.order(),
            final(self).groups@.dom() == old(self).groups@.dom(),
            forall|k: Seq<char>| #[trigger] old(self).groups@.contains_key(k) ==>
                final(self).groups@[k] == (GroupData { score: old(self).groups@[k].score, answer: None }),
            final(self).questions == old(self).questions,
            final(self).current_question == old(self).current_question,
            final(self).display_buffer == old(self).display_buffer,
    {
        self.groups.clear_answers();
    }

    /// Goes on to the next question (the index wraps around at the top of
    /// `usize`, as an atomic `fetch_add` does) and takes every answer away.
    pub fn next_question(&mut self)
        ensures
            final(self).current_question == (if old(self).current_question == usize::MAX { 0 } else { old(self).current_question + 1 }),
            final(self).groups.order() == old(self).groups.order(),
            final(self).groups@.dom() == old(self).groups@.dom(),
            forall|k: Seq<char>| #[trigger] old(self).groups@.contains_key(k) ==>
                final(self).groups@[k] == (GroupData { score: old(self).groups@[k].score, answer: None }),
            final(self).questions == old(self).questions,
            final(self).display_buffer == old(self).display_buffer,
    {
        self.current_question = if self.current_question == usize::MAX { 0 } else { self.current_question + 1 };
        self.clear_group_answers();
    }

    /// Makes the question of the given index current and takes every
    /// answer away.
    pub fn set_question(&mut self, index: usize)
        ensures
            final(self).current_question == index,
            final(self).groups.order() == old(self).groups.order(),
            final(self).groups@.dom() == old(self).groups@.dom(),
            forall|k: Seq<char>| #[trigger] old(self).groups@.contains_key(k) ==>
                final(self).groups@[k] == (GroupData { score: old(self).groups@[k].score, answer: None }),
            final(self).questions == old(self).questions,
            final(self).display_buffer == old(self).display_buffer,
    {
        self.current_question = index;
        self.clear_group_answers();
    }

    /// Removes a group, if there is one of that name.
    pub fn delete_group(&mut self, name: &str)
        ensures
            final(self).groups@ == old(self).groups@.remove(name@),
            final(self).questions == old(self).questions,
            final(self).current_question == old(self).current_question,
            final(self).display_buffer == old(self).display_buffer,
    {
        self.groups.remove(name);
    }

    /// Adds a group with no points and no answer; a group of the same name
    /// is replaced.
    pub fn insert_group(&mut self, name: &str)
        ensures
            final(self).groups@ == old(self).groups@.insert(name@, fresh_group()),
            old(self).groups@.contains_key(name@) ==> final(self).groups.order() == old(self).groups.order(),
            !old(self).groups@.contains_key(name@) ==> final(self).groups.order() == old(self).groups.order().push(name@),
            final(self).questions == old(self).questions,
            final(self).current_question == old(self).current_question,
            final(self).display_buffer == old(self).display_buffer,
    {
        self.groups.insert(name, GroupData::default());
    }

    /// Queues an event for the display; a full buffer hands it back.
    pub fn register_display_event(&mut self, event: String) -> (r: Result<(), String>)
        ensures
            final(self).display_buffer.capacity() == old(self).display_buffer.capacity(),
            final(self).display_buffer@ == pushed(old(self).display_buffer@, old(self).display_buffer.capacity(), event@).0,
            (r is Ok) == pushed(old(self).display_buffer@, old(self).display_buffer.capacity(), event@).1,
            r matches Err(x) ==> x == event,
            final(self).groups == old(self).groups,
            final(self).questions == old(self).questions,
            final(self).current_question == old(self).current_question,
    {
        self.display_buffer.push(event)
    }

    /// Sets a group's score to `number` (`set`) or adds `number` to it.
    pub fn set_group_points(&mut self, name: &str, number: isize, set: bool)
        requires
            old(self).groups@.contains_key(name@),
            !set ==> isize::MIN <= old(self).groups@[name@].score + number <= isize::MAX,
        ensures
            final(self).groups@ == old(self).groups@.insert(name@, GroupData {
                score: if set { number } else { (old(self).groups@[name@].score + number) as isize },
                answer: old(self).groups@[name@].answer,
            }),
            final(self).groups.order() == old(self).groups.order(),
            final(self).questions == old(self).questions,
            final(self).current_question == old(self).current_question,
            final(self).display_buffer == old(self).display_buffer,
    {
        let g = self.groups.get(name);
        let g = match g {
            Some(g) => g,
            None => { return; },
        };
        let score = if !set { g.score + number } else { number };
        self.groups.insert(name, GroupData { score, answer: g.answer });
    }

    /// Records a group's answer to the current question.
    pub fn set_group_answer(&mut self, name: &str, answer: Answer)
        requires
            old(self).groups@.contains_key(name@),
        ensures
            final(self).groups@ == old(self).groups@.insert(name@, GroupData {
                score: old(self).groups@[name@].score,
                answer: Some(answer),
            }),
            final(self).groups.order() == old(self).groups.order(),
            final(self).questions == old(self).questions,
            final(self).current_question == old(self).current_question,
            final(self).display_buffer == old(self).display_buffer,
    {
        let g = self.groups.get(name);
        let g = match g {
            Some(g) => g,
            None => { return; },
        };
        self.groups.insert(name, GroupData { score: g.score, answer: Some(answer) });
    }

    /// The question being played.
    pub open spec fn current(&self) -> QuestionModel {
        self.questions@[self.current_question as int]@
    }

    /// Whether `keys` lists, in the groups' iteration order, a distance for
    /// exactly the groups whose estimate takes part in the ranking.
    pub open spec fn keys_fit(&self, keys: Seq<Option<u64>>) -> bool {
        &&& keys.len() == self.groups.order().len()
        &&& forall|i: int| 0 <= i < keys.len() ==>
            ((#[trigger] keys[i]) is Some <==> ranks_estimate(self.current(), self.groups@[self.groups.order()[i]].answer))
    }

    /// The points that the group at position `i` earns in this round.
    pub open spec fn points_at(&self, keys: Seq<Option<u64>>, i: int) -> int {
        round_points(self.current(), self.groups@[self.groups.order()[i]].answer, keys[i], keys)
    }

    /// For an estimation question, the estimate of each group (its bit
    /// pattern), in the groups' iteration order; `None` for the groups
    /// without an estimate, and for every group under another question.
    /// The distance of each estimate to the solution is what `results`
    /// ranks.
    pub fn estimate_answers(&self) -> (r: Vec<Option<u64>>)
        requires
            self.current_question < self.questions@.len(),
        ensures
            r@.len() == self.groups.order().len(),
            forall|i: int| 0 <= i < r@.len() ==> match #[trigger] r@[i] {
                Some(v) => ranks_estimate(self.current(), self.groups@[self.groups.order()[i]].answer)
                    && self.groups@[self.groups.order()[i]].answer == Some(Answer::Estimate(v)),
                None => !ranks_estimate(self.current(), self.groups@[self.groups.order()[i]].answer),
            },
    {
        let is_estimate = match &self.questions[self.current_question] {
            Question::Estimate { .. } => true,
            _ => false,
        };
        let n = self.groups.len();
        let mut r: Vec<Option<u64>> = Vec::new();
        let mut i: usize = 0;
        while i < n
            invariant
                n == self.groups.order().len(),
                i <= n,
                r@.len() == i,
                is_estimate == (self.current() is Estimate),
                forall|j: int| 0 <= j < i ==> match #[trigger] r@[j] {
                    Some(v) => ranks_estimate(self.current(), self.groups@[self.groups.order()[j]].answer)
                        && self.groups@[self.groups.order()[j]].answer == Some(Answer::Estimate(v)),
                    None => !ranks_estimate(self.current(), self.groups@[self.groups.order()[j]].answer),
                },
            decreases n - i,
        {
            let (_name, data) = self.groups.entry(i);
            let v = if is_estimate {
                match data.answer {
                    Some(Answer::Estimate(v)) => Some(v),
                    _ => None,
                }
            } else {
                None
            };
            r.push(v);
            i += 1;
        }
        r
    }

    /// Scores a multiple-choice or ordering question: every group whose
    /// answer is right earns the question's points.
    fn award_answers(&mut self, rule: Rule, estimate_keys: &Vec<Option<u64>>)
        requires
            old(self).current_question < old(self).questions@.len(),
            match rule {
                Rule::Normal(s) => (old(self).current() matches QuestionModel::Normal { solution, .. } && solution == s),
                Rule::Sort(s) => (old(self).current() matches QuestionModel::Sort { solution, .. } && solution == s@),
            },
            old(self).keys_fit(estimate_keys@),
            estimate_count(estimate_keys@) != 1,
            forall|i: int| 0 <= i < old(self).groups.order().len() ==>
                old(self).groups@[old(self).groups.order()[i]].score + #[trigger] old(self).points_at(estimate_keys@, i) <= isize::MAX,
        ensures
            final(self).groups.order() == old(self).groups.order(),
            final(self).groups@.dom() == old(self).groups@.dom(),
            forall|i: int| 0 <= i < old(self).groups.order().len() ==>
                final(self).groups@[old(self).groups.order()[i]] == (GroupData {
                    score: (old(self).groups@[old(self).groups.order()[i]].score + #[trigger] old(self).points_at(estimate_keys@, i)) as isize,
                    answer: old(self).groups@[old(self).groups.order()[i]].answer,
                }),
            final(self).questions == old(self).questions,
            final(self).current_question == old(self).current_question,
            final(self).display_buffer == old(self).display_buffer,
    {
        let ghost old_self = *self;
        let n = self.groups.len();
        let mut i: usize = 0;
        while i < n
            invariant
                n == old_self.groups.order().len(),
                i <= n,
                self.groups.order() == old_self.groups.order(),
                self.questions == old_self.questions,
                self.current_question == old_self.current_question,
                self.display_buffer == old_self.display_buffer,
                old_self.current_question < old_self.questions@.len(),
                old_self.keys_fit(estimate_keys@),
                match rule {
                    Rule::Normal(s) => (old_self.current() matches QuestionModel::Normal { solution, .. } && solution == s),
                    Rule::Sort(s) => (old_self.current() matches QuestionModel::Sort { solution, .. } && solution == s@),
                },
                forall|k: int| 0 <= k < n ==> #[trigger] old_self.groups@.contains_key(old_self.groups.order()[k]),
                forall|a: int, b: int| 0 <= a < b < n ==> old_self.groups.order()[a] != old_self.groups.order()[b],
                forall|k: Seq<char>| #[trigger] old_self.groups@.contains_key(k) ==> old_self.groups.order().contains(k),
                self.groups@.dom() == old_self.groups@.dom(),
                forall|k: int| 0 <= k < n ==>
                    old_self.groups@[old_self.groups.order()[k]].score + #[trigger] old_self.points_at(estimate_keys@, k) <= isize::MAX,
                forall|k: int| 0 <= k < i ==>
                    self.groups@[old_self.groups.order()[k]] == (GroupData {
                        score: (old_self.groups@[old_self.groups.order()[k]].score + #[trigger] old_self.points_at(estimate_keys@, k)) as isize,
                        answer: old_self.groups@[old_self.groups.order()[k]].answer,
                    }),
                forall|k: int| i <= k < n ==>
                    #[trigger] self.groups@[old_self.groups.order()[k]] == old_self.groups@[old_self.groups.order()[k]],
            decreases n - i,
        {
            let (_name, data) = self.groups.entry(i);
            let ghost name = old_self.groups.order()[i as int];
            assert(self.groups@[name] == old_self.groups@[name]);
            let points: isize = match rule {
                Rule::Normal(s) => match data.answer {
                    Some(Answer::Normal(a)) => if a == s { NORMAL_POINTS } else { 0 },
                    _ => 0,
                },
                Rule::Sort(s) => match data.answer {
                    Some(Answer::Sort(a)) => if same_order(&a, &s) { SORT_POINTS } else { 0 },
                    _ => 0,
                },
            };
            assert(points == old_self.points_at(estimate_keys@, i as int));
            let score = data.score + points;
            self.groups.set_entry(i, GroupData { score, answer: data.answer });
            i += 1;
        }
    }

    /// Scores the current question: every group whose answer is right
    /// earns its points. For an estimation question, `estimate_keys` gives
    /// the distance of each group's estimate to the solution, in the
    /// groups' iteration order, as numbers that order the distances (the
    /// bit patterns of the non-negative float distances do); the closest
    /// estimates earn the most.
    pub fn results(&mut self, estimate_keys: &Vec<Option<u64>>)
        requires
            old(self).current_question < old(self).questions@.len(),
            old(self).keys_fit(estimate_keys@),
            estimate_count(estimate_keys@) != 1,
            forall|i: int| 0 <= i < old(self).groups.order().len() ==>
                old(self).groups@[old(self).groups.order()[i]].score + #[trigger] old(self).points_at(estimate_keys@, i) <= isize::MAX,
        ensures
            final(self).groups.order() == old(self).groups.order(),
            final(self).groups@.dom() == old(self).groups@.dom(),
            forall|i: int| 0 <= i < old(self).groups.order().len() ==>
                final(self).groups@[old(self).groups.order()[i]] == (GroupData {
                    score: (old(self).groups@[old(self).groups.order()[i]].score + #[trigger] old(self).points_at(estimate_keys@, i)) as isize,
                    answer: old(self).groups@[old(self).groups.order()[i]].answer,
                }),
            final(self).questions == old(self).questions,
            final(self).current_question == old(self).current_question,
            final(self).display_buffer == old(self).display_buffer,
    {
        let rule: Option<Rule> = match &self.questions[self.current_question] {
            Question::Normal { solution, .. } => Some(Rule::Normal(*solution)),
            Question::Sort { solution, .. } => Some(Rule::Sort(*solution)),
            Question::Estimate { .. } => None,
        };
        match rule {
            Some(r) => self.award_answers(r, estimate_keys),
            None => self.award_estimates(estimate_keys),
        }
    }

    /// Facts about the sorted estimates `r` that the walk over them uses.
    spec fn ranking_facts(old_self: ServerData, keys: Seq<Option<u64>>, r: Seq<Ranked>) -> bool {
        &&& old_self.current_question < old_self.questions@.len()
        &&& old_self.current() is Estimate
        &&& old_self.keys_fit(keys)
        &&& keys.len() <= usize::MAX
        &&& forall|k: int| 0 <= k < keys.len() ==> #[trigger] old_self.groups@.contains_key(old_self.groups.order()[k])
        &&& forall|a: int, b: int| 0 <= a < b < keys.len() ==> old_self.groups.order()[a] != old_self.groups.order()[b]
        &&& forall|k: Seq<char>| #[trigger] old_self.groups@.contains_key(k) ==> old_self.groups.order().contains(k)
        &&& forall|k: int| 0 <= k < keys.len() ==>
            old_self.groups@[old_self.groups.order()[k]].score + #[trigger] old_self.points_at(keys, k) <= isize::MAX
        &&& sorted_by_distance(r)
        &&& r.len() == estimate_count(keys)
        &&& forall|v: u64| #[trigger] count_where(r, below(v)) == closer_count(keys, v)
        &&& forall|g: usize| (g as int) < keys.len() ==> #[trigger] count_where(r, at_group(g)) == (if keys[g as int] is Some { 1nat } else { 0nat })
        &&& count_where(r, misplaced(keys)) == 0
    }

    /// Points handed out to the group at position `g` by a walk over the
    /// first `p` sorted estimates.
    spec fn walked_points(keys: Seq<Option<u64>>, r: Seq<Ranked>, p: int, g: int) -> int {
        if count_where(r.take(p), at_group(g as usize)) > 0 {
            estimate_points(keys, keys[g]->Some_0)
        } else {
            0
        }
    }

    /// The state after a walk over the first `p` sorted estimates.
    spec fn walk_state(&self, old_self: ServerData, keys: Seq<Option<u64>>, r: Seq<Ranked>, p: int) -> bool {
        &&& self.groups.order() == old_self.groups.order()
        &&& self.groups@.dom() == old_self.groups@.dom()
        &&& self.questions == old_self.questions
        &&& self.current_question == old_self.current_question
        &&& self.display_buffer == old_self.display_buffer
        &&& forall|g: int| 0 <= g < keys.len() ==> #[trigger] self.groups@[old_self.groups.order()[g]] == (GroupData {
            score: (old_self.groups@[old_self.groups.order()[g]].score + Self::walked_points(keys, r, p, g)) as isize,
            answer: old_self.groups@[old_self.groups.order()[g]].answer,
        })
    }

    /// Hands `pts` to the group of the sorted estimate at position `p`.
    fn award_at(&mut self, r: &Vec<Ranked>, p: usize, pts: isize, Ghost(old_self): Ghost<ServerData>, Ghost(keys): Ghost<Seq<Option<u64>>>)
        requires
            Self::ranking_facts(old_self, keys, r@),
            old(self).walk_state(old_self, keys, r@, p as int),
            p < r@.len(),
            pts == estimate_points(keys, r@[p as int].0),
        ensures
            final(self).walk_state(old_self, keys, r@, p + 1),
    {
        let g = r[p].1;
        let ghost rr = r@;
        proof {
            lemma_count_zero(rr, misplaced(keys));
            assert(!misplaced(keys)(rr[p as int]));
            lemma_count_split(rr, p as int, at_group(g));
            assert(rr.skip(p as int)[0] == rr[p as int]);
            lemma_count_has(rr.skip(p as int), at_group(g), 0);
            assert(count_where(rr, at_group(g)) == 1);
            assert(count_where(rr.take(p as int), at_group(g)) == 0);
            assert(self.groups@[old_self.groups.order()[g as int]] == (GroupData {
                score: (old_self.groups@[old_self.groups.order()[g as int]].score + Self::walked_points(keys, rr, p as int, g as int)) as isize,
                answer: old_self.groups@[old_self.groups.order()[g as int]].answer,
            }));
            assert(old_self.points_at(keys, g as int) == estimate_points(keys, rr[p as int].0));
        }
        let (_name, d) = self.groups.entry(g);
        let score = d.score + pts;
        let ghost before_map = self.groups@;
        assert(before_map.contains_key(old_self.groups.order()[g as int]));
        self.groups.set_entry(g, GroupData { score, answer: d.answer });
        proof {
            assert(self.groups@.dom() =~= before_map.dom());
            assert(rr.take(p + 1).drop_last() =~= rr.take(p as int));
            assert(rr.take(p + 1).last() == rr[p as int]);
            assert forall|h: int| 0 <= h < keys.len() implies #[trigger] self.groups@[old_self.groups.order()[h]] == (GroupData {
                score: (old_self.groups@[old_self.groups.order()[h]].score + Self::walked_points(keys, rr, p + 1, h)) as isize,
                answer: old_self.groups@[old_self.groups.order()[h]].answer,
            }) by {
                let hu = h as usize;
                assert(hu as int == h);
                if h != g as int {
                    assert(old_self.groups.order()[h] != old_self.groups.order()[g as int]);
                    assert(!at_group(hu)(rr[p as int]));
                    assert(count_where(rr.take(p + 1), at_group(hu)) == count_where(rr.take(p as int), at_group(hu)));
                } else {
                    assert(at_group(hu)(rr[p as int]));
                    assert(count_where(rr.take(p + 1), at_group(hu)) > 0);
                }
            }
        }
    }

    /// After a walk that stopped at `stop`, with no points due from there
    /// on, every group holds its points for the round.
    proof fn lemma_walk_done(&self, old_self: ServerData, keys: Seq<Option<u64>>, r: Seq<Ranked>, stop: int)
        requires
            Self::ranking_facts(old_self, keys, r),
            self.walk_state(old_self, keys, r, stop),
            0 <= stop <= r.len(),
            forall|q: int| stop <= q < r.len() ==> estimate_points(keys, #[trigger] r[q].0) == 0,
        ensures
            forall|i: int| 0 <= i < keys.len() ==>
                self.groups@[old_self.groups.order()[i]] == (GroupData {
                    score: (old_self.groups@[old_self.groups.order()[i]].score + #[trigger] old_self.points_at(keys, i)) as isize,
                    answer: old_self.groups@[old_self.groups.order()[i]].answer,
                }),
    {
        assert forall|i: int| 0 <= i < keys.len() implies
            self.groups@[old_self.groups.order()[i]] == (GroupData {
                score: (old_self.groups@[old_self.groups.order()[i]].score + #[trigger] old_self.points_at(keys, i)) as isize,
                answer: old_self.groups@[old_self.groups.order()[i]].answer,
            }) by {
            let g = i as usize;
            assert(g as int == i);
            assert(self.groups@[old_self.groups.order()[i]] == (GroupData {
                score: (old_self.groups@[old_self.groups.order()[i]].score + Self::walked_points(keys, r, stop, i)) as isize,
                answer: old_self.groups@[old_self.groups.order()[i]].answer,
            }));
            lemma_count_split(r, stop, at_group(g));
            assert(count_where(r, at_group(g)) == (if keys[i] is Some { 1nat } else { 0nat }));
            if keys[i] is Some {
                let q = lemma_count_witness(r, at_group(g));
                lemma_count_zero(r, misplaced(keys));
                assert(!misplaced(keys)(r[q]));
                assert(r[q].0 == keys[i]->Some_0);
                if q < stop {
                    assert(r.take(stop)[q] == r[q]);
                    lemma_count_has(r.take(stop), at_group(g), q);
                } else {
                    assert(r.skip(stop)[q - stop] == r[q]);
                    lemma_count_has(r.skip(stop), at_group(g), q - stop);
                }
            }
        }
    }

    /// Scores an estimation question: the estimates are sorted by their
    /// distance to the solution; the first gets `ESTIMATE_1_POINTS`, the
    /// second `ESTIMATE_1_POINTS` when tied with the first and
    /// `ESTIMATE_2_POINTS` otherwise, and each following estimate tied with
    /// the one before gets what the second got.
    fn award_estimates(&mut self, estimate_keys: &Vec<Option<u64>>)
        requires
            old(self).current_question < old(self).questions@.len(),
            old(self).current() is Estimate,
            old(self).keys_fit(estimate_keys@),
            estimate_count(estimate_keys@) != 1,
            forall|i: int| 0 <= i < old(self).groups.order().len() ==>
                old(self).groups@[old(self).groups.order()[i]].score + #[trigger] old(self).points_at(estimate_keys@, i) <= isize::MAX,
        ensures
            final(self).groups.order() == old(self).groups.order(),
            final(self).groups@.dom() == old(self).groups@.dom(),
            forall|i: int| 0 <= i < old(self).groups.order().len() ==>
                final(self).groups@[old(self).groups.order()[i]] == (GroupData {
                    score: (old(self).groups@[old(self).groups.order()[i]].score + #[trigger] old(self).points_at(estimate_keys@, i)) as isize,
                    answer: old(self).groups@[old(self).groups.order()[i]].answer,
                }),
            final(self).questions == old(self).questions,
            final(self).current_question == old(self).current_question,
            final(self).display_buffer == old(self).display_buffer,
    {
        let ghost old_self = *self;
        let ghost keys = estimate_keys@;
        let n = self.groups.len();
        let mut list: Vec<Ranked> = Vec::new();
        let mut i: usize = 0;
        assert(keys.take(0) =~= Seq::<Option<u64>>::empty());
        while i < n
            invariant
                n == keys.len(),
                keys == estimate_keys@,
                i <= n,
                list@.len() == estimate_count(keys.take(i as int)),
                forall|v: u64| #[trigger] count_where(list@, below(v)) == closer_count(keys.take(i as int), v),
                forall|g: usize| (g as int) < keys.len() ==> #[trigger] count_where(list@, at_group(g))
                    == (if (g as int) < i && keys[g as int] is Some { 1nat } else { 0nat }),
                count_where(list@, misplaced(keys)) == 0,
            decreases n - i,
        {
            let ghost before = list@;
            assert(keys.take(i + 1).drop_last() =~= keys.take(i as int));
            assert(keys.take(i + 1).last() == keys[i as int]);
            match estimate_keys[i] {
                Some(k) => {
                    list.push((k, i));
                    assert(list@.drop_last() =~= before);
                    assert(list@.last() == (k, i));
                    assert forall|v: u64| #[trigger] count_where(list@, below(v)) == closer_count(keys.take(i + 1), v) by {
                        assert(count_where(before, below(v)) == closer_count(keys.take(i as int), v));
                    }
                    assert forall|g: usize| (g as int) < keys.len() implies #[trigger] count_where(list@, at_group(g))
                        == (if (g as int) < i + 1 && keys[g as int] is Some { 1nat } else { 0nat }) by {
                        assert(count_where(before, at_group(g)) == (if (g as int) < i && keys[g as int] is Some { 1nat } else { 0nat }));
                    }
                    assert(!misplaced(keys)((k, i)));
                },
                None => {
                    assert forall|v: u64| #[trigger] count_where(list@, below(v)) == closer_count(keys.take(i + 1), v) by {
                        assert(count_where(before, below(v)) == closer_count(keys.take(i as int), v));
                    }
                    assert forall|g: usize| (g as int) < keys.len() implies #[trigger] count_where(list@, at_group(g))
                        == (if (g as int) < i + 1 && keys[g as int] is Some { 1nat } else { 0nat }) by {
                        assert(count_where(before, at_group(g)) == (if (g as int) < i && keys[g as int] is Some { 1nat } else { 0nat }));
                    }
                },
            }
            i += 1;
        }
        assert(keys.take(n as int) =~= keys);
        let r = sort_by_distance(&list);
        let ghost rr = r@;
        assert forall|g: usize| (g as int) < keys.len() implies #[trigger] count_where(rr, at_group(g))
            == (if keys[g as int] is Some { 1nat } else { 0nat }) by {
            assert(count_where(rr, at_group(g)) == count_where(list@, at_group(g)));
        }
        assert forall|v: u64| #[trigger] count_where(rr, below(v)) == closer_count(keys, v) by {
            assert(count_where(rr, below(v)) == count_where(list@, below(v)));
        }
        assert(count_where(rr, misplaced(keys)) == count_where(list@, misplaced(keys)));
        assert(Self::ranking_facts(old_self, keys, rr));
        assert(rr.take(0) =~= Seq::<Ranked>::empty());
        assert(self.walk_state(old_self, keys, rr, 0));
        let len = r.len();
        if len > 0 {
            proof {
                lemma_first_is_closest(rr);
            }
            self.award_at(&r, 0, ESTIMATE_1_POINTS, Ghost(old_self), Ghost(keys));
            let est2 = if r[0].0 == r[1].0 { ESTIMATE_1_POINTS } else { ESTIMATE_2_POINTS };
            proof {
                assert(rr[0].0 <= rr[1].0);
                if rr[0].0 < rr[1].0 {
                    lemma_second_has_one_closer(rr);
                }
            }
            self.award_at(&r, 1, est2, Ghost(old_self), Ghost(keys));
            let mut j: usize = 2;
            while j < len && r[j].0 == r[j - 1].0
                invariant
                    2 <= j <= len,
                    len == rr.len(),
                    rr == r@,
                    Self::ranking_facts(old_self, keys, rr),
                    self.walk_state(old_self, keys, rr, j as int),
                    forall|q: int| 1 <= q < j ==> #[trigger] rr[q].0 == rr[1].0,
                    est2 == estimate_points(keys, rr[1].0),
                decreases len - j,
            {
                assert(rr[j as int].0 == rr[1].0);
                self.award_at(&r, j, est2, Ghost(old_self), Ghost(keys));
                j += 1;
            }
            proof {
                assert forall|q: int| j <= q < rr.len() implies estimate_points(keys, #[trigger] rr[q].0) == 0 by {
                    assert(rr[j - 1].0 == rr[1].0);
                    assert(rr[j - 1].0 <= rr[j as int].0);
                    assert(rr[j as int].0 <= rr[q].0);
                    lemma_two_closer(rr, rr[q].0);
                }
                self.lemma_walk_done(old_self, keys, rr, j as int);
            }
        } else {
            proof {
                self.lemma_walk_done(old_self, keys, rr, 0);
            }
        }
    }

    /// Whether `results` may score the round with these distances: there
    /// is a current question, the distances fit the groups, not exactly one
    /// group gave an estimate, and no score would overflow. Where this is
    /// false, the round cannot be scored.
    pub fn results_allowed(&self, estimate_keys: &Vec<Option<u64>>) -> (r: bool)
        ensures
            r == (self.current_question < self.questions@.len()
                && self.keys_fit(estimate_keys@)
                && estimate_count(estimate_keys@) != 1
                && forall|i: int| 0 <= i < self.groups.order().len() ==>
                    self.groups@[self.groups.order()[i]].score + #[trigger] self.points_at(estimate_keys@, i) <= isize::MAX),
    {
        if self.current_question >= self.questions.len() {
            return false;
        }
        let n = self.groups.len();
        if estimate_keys.len() != n {
            return false;
        }
        if count_estimates(estimate_keys) == 1 {
            return false;
        }
        let rule: Option<Rule> = match &self.questions[self.current_question] {
            Question::Normal { solution, .. } => Some(Rule::Normal(*solution)),
            Question::Sort { solution, .. } => Some(Rule::Sort(*solution)),
            Question::Estimate { .. } => None,
        };
        let mut i: usize = 0;
        while i < n
            invariant
                n == self.groups.order().len(),
                n == estimate_keys@.len(),
                i <= n,
                self.current_question < self.questions@.len(),
                match rule {
                    Some(Rule::Normal(s)) => (self.current() matches QuestionModel::Normal { solution, .. } && solution == s),
                    Some(Rule::Sort(s)) => (self.current() matches QuestionModel::Sort { solution, .. } && solution == s@),
                    None => self.current() is Estimate,
                },
                forall|j: int| 0 <= j < i ==>
                    ((#[trigger] estimate_keys@[j]) is Some <==> ranks_estimate(self.current(), self.groups@[self.groups.order()[j]].answer)),
                forall|j: int| 0 <= j < i ==>
                    self.groups@[self.groups.order()[j]].score + #[trigger] self.points_at(estimate_keys@, j) <= isize::MAX,
            decreases n - i,
        {
            let (_name, d) = self.groups.entry(i);
            let ranks = match rule {
                None => match d.answer {
                    Some(Answer::Estimate(_)) => true,
                    _ => false,
                },
                Some(_) => false,
            };
            if ranks != estimate_keys[i].is_some() {
                return false;
            }
            let points: isize = match rule {
                Some(Rule::Normal(s)) => match d.answer {
                    Some(Answer::Normal(a)) => if a == s { NORMAL_POINTS } else { 0 },
                    _ => 0,
                },
                Some(Rule::Sort(s)) => match d.answer {
                    Some(Answer::Sort(a)) => if same_order(&a, &s) { SORT_POINTS } else { 0 },
                    _ => 0,
                },
                None => match estimate_keys[i] {
                    Some(k) => {
                        let c = count_closer(estimate_keys, k);
                        if c == 0 {
                            ESTIMATE_1_POINTS
                        } else if c == 1 {
                            ESTIMATE_2_POINTS
                        } else {
                            0
                        }
                    },
                    None => 0,
                },
            };
            assert(points == self.points_at(estimate_keys@, i as int));
            if d.score > isize::MAX - points {
                return false;
            }
            i += 1;
        }
        true
    }
}

} // verus!
