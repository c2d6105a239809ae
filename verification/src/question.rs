//! Quiz questions and the one-line text format they are loaded from.
//!
//! A line is made of fields separated by `#`: the question type, the
//! question text, then what the type needs.
//! - `normal#text#A#B#C#D#x`: four answers and the letter `x` (`a`..`d`) of
//!   the right one;
//! - `schaetzen#text#n`: the number `n` to be estimated;
//! - `sortier#text#A#B#C#D#w#x#y#z`: four answers and the four letters of
//!   the right order.
//! Fields after those are ignored.

use vstd::prelude::*;
use crate::text::{texts, question_lines, spec_lines, keep_nonblank, letter_index, split_on, split_fields, lemma_split_on_nonempty, str_equals, parse_letter};

verus! {

/// Type name of a multiple-choice question.
pub const NORMAL_NAME: &'static str = "normal";
/// Type name of an estimation question.
pub const ESTIMATE_NAME: &'static str = "schaetzen";
/// Type name of an ordering question.
pub const SORT_NAME: &'static str = "sortier";

pub const ERR_NO_TYPE: &'static str = "No question type found";
pub const ERR_NO_TEXT: &'static str = "No question text found";
pub const ERR_ANSWER_NOT_FOUND: &'static str = "Answer not found";
pub const ERR_NO_SOLUTION: &'static str = "No solution found";
pub const ERR_INVALID_SOLUTION: &'static str = "Invalid solution";
pub const ERR_NOT_A_NUMBER: &'static str = "Estimate solution not a number";

/// A question of the quiz.
///
/// The solution of an estimation question is a 64-bit float; it is held
/// here as its IEEE 754 bit pattern (`f64::to_bits`).
pub enum Question {
    Normal { question: String, answers: [String; 4], solution: usize },
    Estimate { question: String, solution: u64 },
    Sort { question: String, answers: [String; 4], solution: [usize; 4] },
}

/// What a `Question` holds, with the texts taken as character sequences.
pub enum QuestionModel {
    Normal { question: Seq<char>, answers: Seq<Seq<char>>, solution: usize },
    Estimate { question: Seq<char>, solution: u64 },
    Sort { question: Seq<char>, answers: Seq<Seq<char>>, solution: Seq<usize> },
}

impl View for Question {
    type V = QuestionModel;

    open spec fn view(&self) -> QuestionModel {
        match self {
            Question::Normal { question, answers, solution } => QuestionModel::Normal {
                question: question@,
                answers: texts(answers@),
                solution: *solution,
            },
            Question::Estimate { question, solution } => QuestionModel::Estimate {
                question: question@,
                solution: *solution,
            },
            Question::Sort { question, answers, solution } => QuestionModel::Sort {
                question: question@,
                answers: texts(answers@),
                solution: solution@,
            },
        }
    }
}

impl Clone for Question {
    fn clone(&self) -> (r: Question)
        ensures
            r@ == self@,
    {
        match self {
            Question::Normal { question, answers, solution } => {
                let a = [answers[0].clone(), answers[1].clone(), answers[2].clone(), answers[3].clone()];
                assert(texts(a@) =~= texts(answers@));
                Question::Normal { question: question.clone(), answers: a, solution: *solution }
            },
            Question::Estimate { question, solution } => {
                Question::Estimate { question: question.clone(), solution: *solution }
            },
            Question::Sort { question, answers, solution } => {
                let a = [answers[0].clone(), answers[1].clone(), answers[2].clone(), answers[3].clone()];
                assert(texts(a@) =~= texts(answers@));
                Question::Sort { question: question.clone(), answers: a, solution: *solution }
            },
        }
    }
}

/// The name of a question's kind, as the screens' templates are named.
pub open spec fn kind_text(q: QuestionModel) -> Seq<char> {
    match q {
        QuestionModel::Normal { .. } => "normal"@,
        QuestionModel::Estimate { .. } => "estimate"@,
        QuestionModel::Sort { .. } => "sort"@,
    }
}

impl Question {
    /// The name of the question's kind, as the screens' templates are
    /// named: `normal`, `estimate` or `sort`.
    pub fn kind_name(&self) -> (r: &'static str)
        ensures
            r@ == kind_text(self@),
    {
        match self {
            Question::Normal { .. } => "normal",
            Question::Estimate { .. } => "estimate",
            Question::Sort { .. } => "sort",
        }
    }

    /// A multiple-choice question; `solution` is the index of the right answer.
    pub fn normal(question: &str, answers: &[String], solution: usize) -> (q: Question)
        requires
            answers@.len() == 4,
        ensures
            q@ == (QuestionModel::Normal { question: question@, answers: texts(answers@), solution }),
    {
        let a = [answers[0].clone(), answers[1].clone(), answers[2].clone(), answers[3].clone()];
        assert(texts(a@) =~= texts(answers@));
        Question::Normal { question: question.to_owned(), answers: a, solution }
    }

    /// An estimation question; `solution` is the bit pattern of the number.
    pub fn estimate(question: &str, solution: u64) -> (q: Question)
        ensures
            q@ == (QuestionModel::Estimate { question: question@, solution }),
    {
        Question::Estimate { question: question.to_owned(), solution }
    }

    /// An ordering question; `solution` lists the answer indices in the right order.
    pub fn sort(question: &str, answers: &[String], solution: &[usize]) -> (q: Question)
        requires
            answers@.len() == 4,
            solution@.len() == 4,
        ensures
            q@ == (QuestionModel::Sort {
                question: question@,
                answers: texts(answers@),
                solution: solution@,
            }),
    {
        let a = [answers[0].clone(), answers[1].clone(), answers[2].clone(), answers[3].clone()];
        assert(texts(a@) =~= texts(answers@));
        let s = [solution[0], solution[1], solution[2], solution[3]];
        assert(s@ =~= solution@);
        Question::Sort { question: question.to_owned(), answers: a, solution: s }
    }
}

/// A question line after the text-level parse. An estimation question
/// still holds its solution as text: reading that text as a number is left
/// to the caller, who hands the result to `finish`.
pub enum QuestionLine {
    Complete(Question),
    EstimatePending { question: String, solution_text: String },
}

/// What a `QuestionLine` holds.
pub enum LineModel {
    Complete(QuestionModel),
    EstimatePending { question: Seq<char>, solution_text: Seq<char> },
}

impl View for QuestionLine {
    type V = LineModel;

    open spec fn view(&self) -> LineModel {
        match self {
            QuestionLine::Complete(q) => LineModel::Complete(q@),
            QuestionLine::EstimatePending { question, solution_text } => LineModel::EstimatePending {
                question: question@,
                solution_text: solution_text@,
            },
        }
    }
}

/// Whether a type field names one of the three question types.
pub open spec fn is_question_type(t: Seq<char>) -> bool {
    t == NORMAL_NAME@ || t == ESTIMATE_NAME@ || t == SORT_NAME@
}

/// One letter field of an ordering question's solution: missing fields and
/// letters other than `a`..`d` are errors.
pub open spec fn sort_slot(f: Seq<Seq<char>>, idx: int) -> Result<usize, Seq<char>> {
    if f.len() <= idx {
        Err(ERR_ANSWER_NOT_FOUND@)
    } else {
        match letter_index(f[idx]) {
            Some(v) => Ok(v),
            None => Err(ERR_INVALID_SOLUTION@),
        }
    }
}

/// The four solution letters of an ordering question (fields 6 to 9), read
/// in order; the first field that fails gives the error.
pub open spec fn sort_solution(f: Seq<Seq<char>>) -> Result<Seq<usize>, Seq<char>> {
    match sort_slot(f, 6) {
        Err(e) => Err(e),
        Ok(a) => match sort_slot(f, 7) {
            Err(e) => Err(e),
            Ok(b) => match sort_slot(f, 8) {
                Err(e) => Err(e),
                Ok(c) => match sort_slot(f, 9) {
                    Err(e) => Err(e),
                    Ok(d) => Ok(seq![a, b, c, d]),
                },
            },
        },
    }
}

/// What a question line reads as, given its `#`-separated fields.
pub open spec fn spec_question_fields(f: Seq<Seq<char>>) -> Result<LineModel, Seq<char>> {
    if f.len() == 0 || !is_question_type(f[0]) {
        Err(ERR_NO_TYPE@)
    } else if f.len() < 2 {
        Err(ERR_NO_TEXT@)
    } else if f[0] == NORMAL_NAME@ {
        if f.len() < 6 {
            Err(ERR_ANSWER_NOT_FOUND@)
        } else if f.len() < 7 {
            Err(ERR_NO_SOLUTION@)
        } else {
            match letter_index(f[6]) {
                Some(v) => Ok(LineModel::Complete(QuestionModel::Normal {
                    question: f[1],
                    answers: f.subrange(2, 6),
                    solution: v,
                })),
                None => Err(ERR_INVALID_SOLUTION@),
            }
        }
    } else if f[0] == ESTIMATE_NAME@ {
        if f.len() < 3 {
            Err(ERR_NO_SOLUTION@)
        } else {
            Ok(LineModel::EstimatePending { question: f[1], solution_text: f[2] })
        }
    } else {
        if f.len() < 6 {
            Err(ERR_ANSWER_NOT_FOUND@)
        } else {
            match sort_solution(f) {
                Ok(sol) => Ok(LineModel::Complete(QuestionModel::Sort {
                    question: f[1],
                    answers: f.subrange(2, 6),
                    solution: sol,
                })),
                Err(e) => Err(e),
            }
        }
    }
}

/// What a question line reads as.
pub open spec fn spec_question_line(s: Seq<char>) -> Result<LineModel, Seq<char>> {
    spec_question_fields(split_on(s, '#'))
}

/// Reads one letter of an ordering question's solution.
fn read_sort_slot(fields: &Vec<String>, idx: usize) -> (r: Result<usize, &'static str>)
    ensures
        match r {
            Ok(v) => sort_slot(texts(fields@), idx as int) == Ok::<usize, Seq<char>>(v),
            Err(e) => sort_slot(texts(fields@), idx as int) == Err::<usize, Seq<char>>(e@),
        },
{
    if fields.len() <= idx {
        return Err(ERR_ANSWER_NOT_FOUND);
    }
    match parse_letter(fields[idx].as_str()) {
        Some(v) => Ok(v),
        None => Err(ERR_INVALID_SOLUTION),
    }
}

/// The four answer texts in fields 2 to 5.
fn answer_fields(fields: &Vec<String>) -> (r: Vec<String>)
    requires
        fields@.len() >= 6,
    ensures
        r@.len() == 4,
        texts(r@) == texts(fields@).subrange(2, 6),
{
    let mut r: Vec<String> = Vec::new();
    r.push(fields[2].clone());
    r.push(fields[3].clone());
    r.push(fields[4].clone());
    r.push(fields[5].clone());
    assert(texts(r@) =~= texts(fields@).subrange(2, 6));
    r
}

/// Reads a question line, as `Question`'s `FromStr` does, up to the reading
/// of an estimation question's number.
pub fn parse_question_line(s: &str) -> (r: Result<QuestionLine, &'static str>)
    ensures
        match r {
            Ok(l) => spec_question_line(s@) == Ok::<LineModel, Seq<char>>(l@),
            Err(e) => spec_question_line(s@) == Err::<LineModel, Seq<char>>(e@),
        },
{
    let fields = split_fields(s, '#');
    let ghost f = texts(fields@);
    proof {
        lemma_split_on_nonempty(s@, '#');
        assert(f == split_on(s@, '#'));
    }
    let t = fields[0].as_str();
    let is_normal = str_equals(t, NORMAL_NAME);
    let is_estimate = str_equals(t, ESTIMATE_NAME);
    let is_sort = str_equals(t, SORT_NAME);
    if !(is_normal || is_estimate || is_sort) {
        return Err(ERR_NO_TYPE);
    }
    if fields.len() < 2 {
        return Err(ERR_NO_TEXT);
    }
    let question = fields[1].as_str();
    if is_normal {
        if fields.len() < 6 {
            return Err(ERR_ANSWER_NOT_FOUND);
        }
        let answers = answer_fields(&fields);
        if fields.len() < 7 {
            return Err(ERR_NO_SOLUTION);
        }
        match parse_letter(fields[6].as_str()) {
            Some(v) => Ok(QuestionLine::Complete(Question::normal(question, answers.as_slice(), v))),
            None => Err(ERR_INVALID_SOLUTION),
        }
    } else if is_estimate {
        if fields.len() < 3 {
            return Err(ERR_NO_SOLUTION);
        }
        Ok(QuestionLine::EstimatePending {
            question: question.to_owned(),
            solution_text: fields[2].clone(),
        })
    } else {
        if fields.len() < 6 {
            return Err(ERR_ANSWER_NOT_FOUND);
        }
        let answers = answer_fields(&fields);
        let a = read_sort_slot(&fields, 6);
        let a = match a { Ok(v) => v, Err(e) => { return Err(e); } };
        let b = read_sort_slot(&fields, 7);
        let b = match b { Ok(v) => v, Err(e) => { return Err(e); } };
        let c = read_sort_slot(&fields, 8);
        let c = match c { Ok(v) => v, Err(e) => { return Err(e); } };
        let d = read_sort_slot(&fields, 9);
        let d = match d { Ok(v) => v, Err(e) => { return Err(e); } };
        let solution = [a, b, c, d];
        assert(solution@ =~= seq![a, b, c, d]);
        Ok(QuestionLine::Complete(Question::sort(question, answers.as_slice(), solution.as_slice())))
    }
}

/// What completing a question line with a number gives: a complete line
/// its question, an estimation line the estimation question with that
/// number, or the error when its text read as no number.
pub open spec fn finished(l: LineModel, number: Option<u64>) -> Result<QuestionModel, Seq<char>> {
    match l {
        LineModel::Complete(q) => Ok(q),
        LineModel::EstimatePending { question, solution_text } => match number {
            Some(n) => Ok(QuestionModel::Estimate { question, solution: n }),
            None => Err(ERR_NOT_A_NUMBER@),
        },
    }
}

/// Completing a list of lines, each with its number, in turn: the list of
/// questions, or the error of the first line that fails.
pub open spec fn finish_all(ls: Seq<LineModel>, ns: Seq<Option<u64>>) -> Result<Seq<QuestionModel>, Seq<char>>
    decreases ls.len(),
{
    if ls.len() == 0 {
        Ok(Seq::<QuestionModel>::empty())
    } else {
        match finish_all(ls.drop_last(), ns) {
            Err(e) => Err(e),
            Ok(v) => match finished(ls.last(), ns[ls.len() - 1]) {
                Ok(q) => Ok(v.push(q)),
                Err(e) => Err(e),
            },
        }
    }
}

/// The views of a list of questions.
pub open spec fn question_views(v: Seq<Question>) -> Seq<QuestionModel> {
    v.map_values(|q: Question| q@)
}

impl QuestionLine {
    /// Completes an estimation question with the number that its solution
    /// text reads as (`None` where it does not read as one). A complete
    /// question is handed back as it is.
    pub fn finish(self, number: Option<u64>) -> (r: Result<Question, &'static str>)
        ensures
            match r {
                Ok(x) => finished(self@, number) == Ok::<QuestionModel, Seq<char>>(x@),
                Err(e) => finished(self@, number) == Err::<QuestionModel, Seq<char>>(e@),
            },
    {
        match self {
            QuestionLine::Complete(q) => Ok(q),
            QuestionLine::EstimatePending { question, solution_text } => match number {
                Some(n) => Ok(Question::estimate(question.as_str(), n)),
                None => Err(ERR_NOT_A_NUMBER),
            },
        }
    }
}

/// What a list of question lines reads as: each line read in turn, and the
/// error of the first line that fails.
pub open spec fn spec_question_list(ls: Seq<Seq<char>>) -> Result<Seq<LineModel>, Seq<char>>
    decreases ls.len(),
{
    if ls.len() == 0 {
        Ok(Seq::<LineModel>::empty())
    } else {
        match spec_question_list(ls.drop_last()) {
            Err(e) => Err(e),
            Ok(v) => match spec_question_line(ls.last()) {
                Ok(l) => Ok(v.push(l)),
                Err(e) => Err(e),
            },
        }
    }
}

/// The views of a list of question lines.
pub open spec fn line_views(v: Seq<QuestionLine>) -> Seq<LineModel> {
    v.map_values(|l: QuestionLine| l@)
}

/// What a question file reads as: its lines that are not blank, each read
/// as a question line.
pub open spec fn spec_question_file(text: Seq<char>) -> Result<Seq<LineModel>, Seq<char>> {
    spec_question_list(keep_nonblank(spec_lines(text)))
}

/// Reads every line of a question file that is not blank; the first line
/// that fails gives the error.
pub fn parse_question_lines(text: &str) -> (r: Result<Vec<QuestionLine>, &'static str>)
    ensures
        match r {
            Ok(v) => spec_question_file(text@) == Ok::<Seq<LineModel>, Seq<char>>(line_views(v@)),
            Err(e) => spec_question_file(text@) == Err::<Seq<LineModel>, Seq<char>>(e@),
        },
{
    let lines = question_lines(text);
    let ghost ls = texts(lines@);
    let mut out: Vec<QuestionLine> = Vec::new();
    let mut i: usize = 0;
    assert(ls.take(0) =~= Seq::<Seq<char>>::empty());
    assert(line_views(out@) =~= Seq::<LineModel>::empty());
    while i < lines.len()
        invariant
            ls == texts(lines@),
            ls == keep_nonblank(spec_lines(text@)),
            i <= lines@.len(),
            spec_question_list(ls.take(i as int)) == Ok::<Seq<LineModel>, Seq<char>>(line_views(out@)),
        decreases lines@.len() - i,
    {
        assert(ls.take(i + 1).drop_last() =~= ls.take(i as int));
        assert(ls.take(i + 1).last() == lines@[i as int]@);
        match parse_question_line(lines[i].as_str()) {
            Ok(l) => {
                let ghost before = line_views(out@);
                out.push(l);
                assert(line_views(out@) =~= before.push(l@));
            },
            Err(e) => {
                proof {
                    lemma_question_list_prefix_err(ls, i as int + 1);
                }
                return Err(e);
            },
        }
        i += 1;
    }
    assert(ls.take(lines@.len() as int) =~= ls);
    Ok(out)
}

/// An error in the first `k` lines is the error of the whole list.
proof fn lemma_question_list_prefix_err(ls: Seq<Seq<char>>, k: int)
    requires
        0 <= k <= ls.len(),
        spec_question_list(ls.take(k)) is Err,
    ensures
        spec_question_list(ls) == spec_question_list(ls.take(k)),
    decreases ls.len() - k,
{
    if k < ls.len() {
        assert(ls.take(k + 1).drop_last() =~= ls.take(k));
        lemma_question_list_prefix_err(ls, k + 1);
    } else {
        assert(ls.take(k) =~= ls);
    }
}

/// Completes every question line with its number (`numbers[i]` for line
/// `i`); the first line that fails gives the error.
pub fn finish_lines(lines: Vec<QuestionLine>, numbers: &Vec<Option<u64>>) -> (r: Result<Vec<Question>, &'static str>)
    requires
        numbers@.len() == lines@.len(),
    ensures
        match r {
            Ok(qs) => finish_all(line_views(lines@), numbers@) == Ok::<Seq<QuestionModel>, Seq<char>>(question_views(qs@)),
            Err(e) => finish_all(line_views(lines@), numbers@) == Err::<Seq<QuestionModel>, Seq<char>>(e@),
        },
{
    let ghost ls = line_views(lines@);
    let mut out: Vec<Question> = Vec::new();
    let ghost n = ls.len();
    let mut pending = lines;
    let mut rest: Vec<QuestionLine> = Vec::new();
    while pending.len() > 0
        invariant
            ls == line_views(lines@),
            n == ls.len(),
            pending@.len() + rest@.len() == n,
            forall|k: int| 0 <= k < pending@.len() ==> #[trigger] pending@[k]@ == ls[k],
            forall|k: int| 0 <= k < rest@.len() ==> #[trigger] rest@[k]@ == ls[n - 1 - k],
        decreases pending@.len(),
    {
        let line = pending.pop().unwrap();
        rest.push(line);
    }
    let mut i: usize = 0;
    assert(ls.take(0) =~= Seq::<LineModel>::empty());
    assert(question_views(out@) =~= Seq::<QuestionModel>::empty());
    while i < numbers.len()
        invariant
            ls == line_views(lines@),
            n == ls.len(),
            numbers@.len() == n,
            i + rest@.len() == n,
            forall|k: int| 0 <= k < rest@.len() ==> #[trigger] rest@[k]@ == ls[n - 1 - k],
            finish_all(ls.take(i as int), numbers@) == Ok::<Seq<QuestionModel>, Seq<char>>(question_views(out@)),
        decreases rest@.len(),
    {
        let line = rest.pop().unwrap();
        assert(line@ == ls[i as int]);
        assert(ls.take(i + 1).drop_last() =~= ls.take(i as int));
        assert(ls.take(i + 1).last() == ls[i as int]);
        match line.finish(numbers[i]) {
            Ok(q) => {
                let ghost before = question_views(out@);
                out.push(q);
                assert(question_views(out@) =~= before.push(q@));
            },
            Err(e) => {
                proof {
                    lemma_finish_all_prefix_err(ls, numbers@, i as int + 1);
                }
                return Err(e);
            },
        }
        i += 1;
    }
    assert(ls.take(n as int) =~= ls);
    Ok(out)
}

/// An error in the first `k` lines is the error of the whole list.
proof fn lemma_finish_all_prefix_err(ls: Seq<LineModel>, ns: Seq<Option<u64>>, k: int)
    requires
        0 <= k <= ls.len(),
        finish_all(ls.take(k), ns) is Err,
    ensures
        finish_all(ls, ns) == finish_all(ls.take(k), ns),
    decreases ls.len() - k,
{
    if k < ls.len() {
        assert(ls.take(k + 1).drop_last() =~= ls.take(k));
        lemma_finish_all_prefix_err(ls, ns, k + 1);
    } else {
        assert(ls.take(k) =~= ls);
    }
}

} // verus!
