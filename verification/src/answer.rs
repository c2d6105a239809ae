//! Answers that groups give, read from the answer type and answer text
//! that a group sends.

use vstd::prelude::*;
use vstd::utf8::{encode_utf8, is_ascii_chars, is_ascii_chars_encode_utf8};
use crate::question::{NORMAL_NAME, ESTIMATE_NAME, SORT_NAME};
use crate::text::{spec_parse_usize, parse_number};

verus! {

/// An answer of a group to the current question.
///
/// An estimate is a 64-bit float, held as its IEEE 754 bit pattern.
#[derive(Clone, Copy)]
pub enum Answer {
    Normal(usize),
    Estimate(u64),
    Sort([usize; 4]),
}

/// What an `Answer` holds.
pub enum AnswerModel {
    Normal(usize),
    Estimate(u64),
    Sort(Seq<usize>),
}

impl View for Answer {
    type V = AnswerModel;

    open spec fn view(&self) -> AnswerModel {
        match self {
            Answer::Normal(n) => AnswerModel::Normal(*n),
            Answer::Estimate(e) => AnswerModel::Estimate(*e),
            Answer::Sort(s) => AnswerModel::Sort(s@),
        }
    }
}

/// Whether a character is one of the answer letters `a`..`d`.
pub open spec fn is_answer_letter(c: char) -> bool {
    'a' <= c && c <= 'd'
}

/// The index that an answer letter stands for.
pub open spec fn answer_letter_value(c: char) -> usize {
    (c as int - 'a' as int) as usize
}

/// Reads a string of answer letters as indices; fails at the first
/// character that is not one, giving that character.
pub open spec fn letter_values(l: Seq<char>) -> Result<Seq<usize>, char>
    decreases l.len(),
{
    if l.len() == 0 {
        Ok(Seq::<usize>::empty())
    } else if is_answer_letter(l[0]) {
        match letter_values(l.drop_first()) {
            Ok(rest) => Ok(seq![answer_letter_value(l[0])] + rest),
            Err(c) => Err(c),
        }
    } else {
        Err(l[0])
    }
}

/// The message for an ordering answer that is not four bytes long.
pub open spec fn not_a_sorting_answer_msg(l: Seq<char>) -> Seq<char> {
    "could not convert \""@ + l + "\" into a sorting answer"@
}

/// The message for a character that is not an answer letter.
pub open spec fn invalid_letter_msg(c: char) -> Seq<char> {
    "invalid letter: "@ + seq![c]
}

/// The message for an answer text that does not read as a number.
pub open spec fn not_a_number_msg(answer_type: Seq<char>) -> Seq<char> {
    "could not parse answer \""@ + answer_type + "\" as a number"@
}

/// The message for an unknown answer type.
pub open spec fn invalid_type_msg(answer_type: Seq<char>) -> Seq<char> {
    "invalid answer type: \""@ + answer_type + "\""@
}

/// What an ordering answer reads as: its UTF-8 length (as `str::len`
/// gives it, a `usize`) must be 4 bytes and each of its characters an
/// answer letter.
pub open spec fn spec_sort_letters(l: Seq<char>) -> Result<Seq<usize>, Seq<char>> {
    if encode_utf8(l).len() as usize != 4 {
        Err(not_a_sorting_answer_msg(l))
    } else {
        match letter_values(l) {
            Ok(v) => Ok(v),
            Err(c) => Err(invalid_letter_msg(c)),
        }
    }
}

/// What an answer of the given type and text reads as. `estimate` is what
/// the text reads as when taken as a 64-bit float (its bit pattern), or
/// `None` where it does not read as one.
pub open spec fn spec_parse_answer(
    answer_type: Seq<char>,
    text: Seq<char>,
    estimate: Option<u64>,
) -> Result<AnswerModel, Seq<char>> {
    if answer_type == NORMAL_NAME@ {
        match spec_parse_usize(text) {
            Some(n) => Ok(AnswerModel::Normal(n)),
            None => Err(not_a_number_msg(answer_type)),
        }
    } else if answer_type == ESTIMATE_NAME@ {
        match estimate {
            Some(e) => Ok(AnswerModel::Estimate(e)),
            None => Err(not_a_number_msg(answer_type)),
        }
    } else if answer_type == SORT_NAME@ {
        match spec_sort_letters(text) {
            Ok(v) => Ok(AnswerModel::Sort(v)),
            Err(m) => Err(m),
        }
    } else {
        Err(invalid_type_msg(answer_type))
    }
}

/// A string that reads as answer letters holds only answer letters, and
/// reads as one index per character.
proof fn lemma_letter_values_ok(l: Seq<char>)
    requires
        letter_values(l) is Ok,
    ensures
        letter_values(l)->Ok_0.len() == l.len(),
        forall|i: int| 0 <= i < l.len() ==> is_answer_letter(#[trigger] l[i]),
    decreases l.len(),
{
    if l.len() > 0 {
        lemma_letter_values_ok(l.drop_first());
        assert forall|i: int| 0 <= i < l.len() implies is_answer_letter(#[trigger] l[i]) by {
            if i > 0 {
                assert(l[i] == l.drop_first()[i - 1]);
            }
        }
    }
}

/// A string of answer letters is ASCII, so its UTF-8 length is its length.
proof fn lemma_letters_utf8_len(l: Seq<char>)
    requires
        letter_values(l) is Ok,
    ensures
        encode_utf8(l).len() == l.len(),
        letter_values(l)->Ok_0.len() == l.len(),
{
    lemma_letter_values_ok(l);
    assert(is_ascii_chars(l));
    is_ascii_chars_encode_utf8(l);
}

/// Reads the letters of an ordering answer (`"bacd"` gives `[1, 0, 2, 3]`).
pub fn convert_letters_to_numbers(letters: &str) -> (r: Result<[usize; 4], String>)
    ensures
        match r {
            Ok(a) => spec_sort_letters(letters@) == Ok::<Seq<usize>, Seq<char>>(a@),
            Err(m) => spec_sort_letters(letters@) == Err::<Seq<usize>, Seq<char>>(m@),
        },
{
    if letters.len() != 4 {
        let mut m = "could not convert \"".to_owned();
        m.append(letters);
        m.append("\" into a sorting answer");
        return Err(m);
    }
    let n = letters.unicode_len();
    let mut numbers: Vec<usize> = Vec::new();
    let mut i: usize = 0;
    proof {
        assert(letters@.skip(0) =~= letters@);
        assert(numbers@ + seq![] =~= numbers@);
    }
    while i < n
        invariant
            n == letters@.len(),
            encode_utf8(letters@).len() as usize == 4,
            i <= n,
            numbers@.len() == i,
            forall|j: int| 0 <= j < i ==> is_answer_letter(#[trigger] letters@[j]),
            match letter_values(letters@.skip(i as int)) {
                Ok(rest) => letter_values(letters@) == Ok::<Seq<usize>, char>(numbers@ + rest),
                Err(c) => letter_values(letters@) == Err::<Seq<usize>, char>(c),
            },
        decreases n - i,
    {
        let c = letters.get_char(i);
        let ghost tail = letters@.skip(i as int);
        assert(tail[0] == c);
        assert(tail.drop_first() =~= letters@.skip(i + 1));
        if c == 'a' || c == 'b' || c == 'c' || c == 'd' {
            let v: usize = if c == 'a' { 0 } else if c == 'b' { 1 } else if c == 'c' { 2 } else { 3 };
            let ghost before = numbers@;
            numbers.push(v);
            proof {
                match letter_values(letters@.skip(i + 1)) {
                    Ok(rest) => {
                        assert(before + (seq![v] + rest) =~= numbers@ + rest);
                    },
                    Err(_) => {},
                }
            }
        } else {
            let mut m = "invalid letter: ".to_owned();
            m.append(letters.substring_char(i, i + 1));
            assert(letters@.subrange(i as int, i + 1) =~= seq![c]);
            assert(tail.len() > 0);
            assert(letter_values(tail) == Err::<Seq<usize>, char>(c));
            assert(m@ == invalid_letter_msg(c));
            return Err(m);
        }
        i += 1;
    }
    proof {
        assert(letters@.skip(n as int) =~= Seq::<char>::empty());
        assert(numbers@ + Seq::<usize>::empty() =~= numbers@);
        lemma_letters_utf8_len(letters@);
    }
    let a = [numbers[0], numbers[1], numbers[2], numbers[3]];
    assert(a@ =~= numbers@);
    Ok(a)
}

impl Answer {
    /// Reads an answer from its type name and text. `estimate` is what the
    /// text reads as when taken as a 64-bit float (`None` where it does not
    /// read as one); only an estimation answer uses it.
    pub fn try_parse_answer(answer_type: &str, answer_string: &str, estimate: Option<u64>) -> (r: Result<Answer, String>)
        ensures
            match r {
                Ok(a) => spec_parse_answer(answer_type@, answer_string@, estimate)
                    == Ok::<AnswerModel, Seq<char>>(a@),
                Err(m) => spec_parse_answer(answer_type@, answer_string@, estimate)
                    == Err::<AnswerModel, Seq<char>>(m@),
            },
    {
        let s = answer_type;
        if crate::text::str_equals(s, NORMAL_NAME) {
            match parse_number(answer_string) {
                Some(n) => Ok(Answer::Normal(n)),
                None => Err(not_a_number(s)),
            }
        } else if crate::text::str_equals(s, ESTIMATE_NAME) {
            match estimate {
                Some(e) => Ok(Answer::Estimate(e)),
                None => Err(not_a_number(s)),
            }
        } else if crate::text::str_equals(s, SORT_NAME) {
            match convert_letters_to_numbers(answer_string) {
                Ok(v) => Ok(Answer::Sort(v)),
                Err(m) => Err(m),
            }
        } else {
            let mut m = "invalid answer type: \"".to_owned();
            m.append(s);
            m.append("\"");
            Err(m)
        }
    }
}

/// The message for an answer text that does not read as a number.
fn not_a_number(answer_type: &str) -> (m: String)
    ensures
        m@ == not_a_number_msg(answer_type@),
{
    let mut m = "could not parse answer \"".to_owned();
    m.append(answer_type);
    m.append("\" as a number");
    m
}

/// An answer as a group sends it: its name, the answer type and the text.
#[derive(Clone, PartialEq, Eq, Hash)]
pub struct AnswerData {
    pub group_name: String,
    pub answer_type: String,
    pub answer_string: String,
}

impl AnswerData {
    /// Reads the answer that the data carries; `estimate` is what the
    /// answer text reads as when taken as a 64-bit float.
    pub fn try_into_answer(self, estimate: Option<u64>) -> (r: Result<Answer, String>)
        ensures
            match r {
                Ok(a) => spec_parse_answer(self.answer_type@, self.answer_string@, estimate)
                    == Ok::<AnswerModel, Seq<char>>(a@),
                Err(m) => spec_parse_answer(self.answer_type@, self.answer_string@, estimate)
                    == Err::<AnswerModel, Seq<char>>(m@),
            },
    {
        Answer::try_parse_answer(self.answer_type.as_str(), self.answer_string.as_str(), estimate)
    }
}

/// A score for a group, as an operator sets or adds it.
#[derive(Clone, PartialEq, Eq, Hash)]
pub struct ScoreData {
    pub group_name: String,
    pub score: isize,
}

} // verus!
