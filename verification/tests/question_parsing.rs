use quiz_server::question::{parse_question_line, parse_question_lines, Question, QuestionLine};

fn strings(v: &[&str]) -> Vec<String> {
    v.iter().map(|s| s.to_string()).collect()
}

fn complete(line: &str) -> Question {
    match parse_question_line(line) {
        Ok(QuestionLine::Complete(q)) => q,
        Ok(QuestionLine::EstimatePending { .. }) => panic!("estimate pending"),
        Err(e) => panic!("error: {e}"),
    }
}

fn error(line: &str) -> &'static str {
    match parse_question_line(line) {
        Ok(_) => panic!("parsed"),
        Err(e) => e,
    }
}

#[test]
fn parses_normal_question() {
    match complete("normal#Capital of France?#Berlin#Paris#Rome#Madrid#b") {
        Question::Normal { question, answers, solution } => {
            assert_eq!(question, "Capital of France?");
            assert_eq!(answers.to_vec(), strings(&["Berlin", "Paris", "Rome", "Madrid"]));
            assert_eq!(solution, 1);
        }
        _ => panic!("wrong kind"),
    }
}

#[test]
fn parses_sort_question() {
    match complete("sortier#Order by size#Mouse#Cat#Horse#Whale#a#b#c#d") {
        Question::Sort { question, answers, solution } => {
            assert_eq!(question, "Order by size");
            assert_eq!(answers.to_vec(), strings(&["Mouse", "Cat", "Horse", "Whale"]));
            assert_eq!(solution, [0, 1, 2, 3]);
        }
        _ => panic!("wrong kind"),
    }
    match complete("sortier#q#w#x#y#z#d#c#a#b") {
        Question::Sort { solution, .. } => assert_eq!(solution, [3, 2, 0, 1]),
        _ => panic!("wrong kind"),
    }
}

#[test]
fn parses_estimate_question() {
    let line = parse_question_line("schaetzen#How tall is the Eiffel tower?#330").unwrap();
    match &line {
        QuestionLine::EstimatePending { question, solution_text } => {
            assert_eq!(question, "How tall is the Eiffel tower?");
            assert_eq!(solution_text, "330");
        }
        _ => panic!("not pending"),
    }
    let bits = 330.0f64.to_bits();
    match line.finish(Some(bits)).unwrap() {
        Question::Estimate { question, solution } => {
            assert_eq!(question, "How tall is the Eiffel tower?");
            assert_eq!(f64::from_bits(solution), 330.0);
        }
        _ => panic!("wrong kind"),
    }
}

#[test]
fn estimate_that_is_no_number_is_refused() {
    let line = parse_question_line("schaetzen#q#lots").unwrap();
    assert_eq!(line.finish(None).err(), Some("Estimate solution not a number"));
}

#[test]
fn complete_line_ignores_the_number() {
    let line = parse_question_line("normal#q#a#b#c#d#c").unwrap();
    match line.finish(Some(7)).unwrap() {
        Question::Normal { solution, .. } => assert_eq!(solution, 2),
        _ => panic!("wrong kind"),
    }
}

#[test]
fn reports_each_error() {
    assert_eq!(error("quiz#q"), "No question type found");
    assert_eq!(error(""), "No question type found");
    assert_eq!(error("Normal#q#a#b#c#d#a"), "No question type found");
    assert_eq!(error("normal"), "No question text found");
    assert_eq!(error("schaetzen"), "No question text found");
    assert_eq!(error("normal#q#a#b#c"), "Answer not found");
    assert_eq!(error("normal#q#a#b#c#d"), "No solution found");
    assert_eq!(error("normal#q#a#b#c#d#e"), "Invalid solution");
    assert_eq!(error("normal#q#a#b#c#d#ab"), "Invalid solution");
    assert_eq!(error("normal#q#a#b#c#d#"), "Invalid solution");
    assert_eq!(error("schaetzen#q"), "No solution found");
    assert_eq!(error("sortier#q#a#b#c"), "Answer not found");
    assert_eq!(error("sortier#q#a#b#c#d#a#b#c"), "Answer not found");
    assert_eq!(error("sortier#q#a#b#c#d#a#x#c#d"), "Invalid solution");
    assert_eq!(error("sortier#q#a#b#c#d#a#x"), "Invalid solution");
}

#[test]
fn extra_fields_are_ignored() {
    let a = complete("normal#q#w#x#y#z#d");
    let b = complete("normal#q#w#x#y#z#d#whatever#more");
    match (a, b) {
        (Question::Normal { solution: s1, answers: a1, .. }, Question::Normal { solution: s2, answers: a2, .. }) => {
            assert_eq!(s1, s2);
            assert_eq!(a1, a2);
        }
        _ => panic!("wrong kind"),
    }
}

#[test]
fn empty_fields_are_fields() {
    match complete("normal##a###d#a") {
        Question::Normal { question, answers, solution } => {
            assert_eq!(question, "");
            assert_eq!(answers.to_vec(), strings(&["a", "", "", "d"]));
            assert_eq!(solution, 0);
        }
        _ => panic!("wrong kind"),
    }
}

#[test]
fn question_file_skips_blank_lines() {
    let text = "normal#q1#a#b#c#d#a\r\n\n   \t\nschaetzen#q2#12.5\nsortier#q3#a#b#c#d#b#a#d#c\n";
    let lines = parse_question_lines(text).unwrap();
    assert_eq!(lines.len(), 3);
    match &lines[0] {
        QuestionLine::Complete(Question::Normal { question, solution, .. }) => {
            assert_eq!(question, "q1");
            assert_eq!(*solution, 0);
        }
        _ => panic!("first"),
    }
    match &lines[1] {
        QuestionLine::EstimatePending { question, solution_text } => {
            assert_eq!(question, "q2");
            assert_eq!(solution_text, "12.5");
        }
        _ => panic!("second"),
    }
    match &lines[2] {
        QuestionLine::Complete(Question::Sort { solution, .. }) => assert_eq!(*solution, [1, 0, 3, 2]),
        _ => panic!("third"),
    }
}

#[test]
fn question_file_reports_first_error() {
    let text = "normal#q#a#b#c#d#a\nnormal#q#a#b\nfoo\n";
    assert_eq!(parse_question_lines(text).err(), Some("Answer not found"));
    assert_eq!(parse_question_lines("\n\n").map(|v| v.len()).ok(), Some(0));
}

#[test]
fn carriage_return_kept_without_newline() {
    // A final "\r" that no "\n" follows stays part of the line.
    let lines = parse_question_lines("normal#q#a#b#c#d#a\r").err();
    assert_eq!(lines, Some("Invalid solution"));
    let ok = parse_question_lines("normal#q#a#b#c#d#a\r\n").unwrap();
    assert_eq!(ok.len(), 1);
}

#[test]
fn constructors_and_copies() {
    let answers = strings(&["a", "b", "c", "d"]);
    let q = Question::normal("q", &answers, 3);
    let c = q.clone();
    match c {
        Question::Normal { question, answers: a, solution } => {
            assert_eq!(question, "q");
            assert_eq!(a.to_vec(), answers);
            assert_eq!(solution, 3);
        }
        _ => panic!("wrong kind"),
    }
    let s = Question::sort("s", &answers, &[3, 1, 2, 0]);
    assert_eq!(s.kind_name(), "sort");
    match s.clone() {
        Question::Sort { solution, .. } => assert_eq!(solution, [3, 1, 2, 0]),
        _ => panic!("wrong kind"),
    }
    let e = Question::estimate("e", 2.5f64.to_bits());
    assert_eq!(e.kind_name(), "estimate");
    assert_eq!(q.kind_name(), "normal");
}

#[test]
fn written_lines_read_back() {
    match complete("sortier#Q#w#x#y#z#c#a#d#b#rest#more") {
        Question::Sort { question, answers, solution } => {
            assert_eq!(question, "Q");
            assert_eq!(answers.to_vec(), strings(&["w", "x", "y", "z"]));
            assert_eq!(solution, [2, 0, 3, 1]);
        }
        _ => panic!("wrong kind"),
    }
    match parse_question_line("schaetzen#Q#1.5#x").unwrap() {
        QuestionLine::EstimatePending { question, solution_text } => {
            assert_eq!(question, "Q");
            assert_eq!(solution_text, "1.5");
        }
        _ => panic!("not pending"),
    }
}

#[test]
fn solution_letters_typed_as_answer_match() {
    let line = "sortier#Q#w#x#y#z#c#a#d#b";
    let f: Vec<&str> = line.split('#').collect();
    let typed = [f[6], f[7], f[8], f[9]].concat();
    match (complete(line), quiz_server::answer::Answer::try_parse_answer("sortier", &typed, None)) {
        (Question::Sort { solution, .. }, Ok(quiz_server::answer::Answer::Sort(a))) => assert_eq!(solution, a),
        _ => panic!("mismatch"),
    }
}
