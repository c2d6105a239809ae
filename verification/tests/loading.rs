use quiz_server::question::{finish_lines, parse_question_lines, Question, QuestionLine};
use quiz_server::server_data::ServerData;
use quiz_server::text::parse_number;

/// The number each line completes with: an estimation line's solution text
/// read as a float, as the server does.
fn numbers_for(lines: &[QuestionLine]) -> Vec<Option<u64>> {
    lines
        .iter()
        .map(|l| match l {
            QuestionLine::EstimatePending { solution_text, .. } => {
                solution_text.parse::<f64>().ok().map(f64::to_bits)
            }
            QuestionLine::Complete(_) => None,
        })
        .collect()
}

const FILE: &str = "normal#Capital?#Berlin#Paris#Rome#Madrid#b\n\n   \nschaetzen#How tall?#8848.86\r\nsortier#Order#w#x#y#z#d#c#b#a\n";

#[test]
fn loading_keeps_file_order_and_resets_current() {
    let mut s = ServerData::new();
    s.load_questions(vec![Question::estimate("old", 0)]);
    s.set_question(0);
    let lines = parse_question_lines(FILE).unwrap();
    assert_eq!(lines.len(), 3);
    let numbers = numbers_for(&lines);
    assert_eq!(s.load_parsed_questions(lines, &numbers), Ok(()));
    assert_eq!(s.questions.len(), 3);
    assert_eq!(s.current_question, 0);
    match &s.questions[0] {
        Question::Normal { question, solution, .. } => {
            assert_eq!(question, "Capital?");
            assert_eq!(*solution, 1);
        }
        _ => panic!("wrong kind"),
    }
    match &s.questions[1] {
        Question::Estimate { question, solution } => {
            assert_eq!(question, "How tall?");
            assert_eq!(*solution, 8848.86f64.to_bits());
        }
        _ => panic!("wrong kind"),
    }
    match &s.questions[2] {
        Question::Sort { solution, .. } => assert_eq!(*solution, [3, 2, 1, 0]),
        _ => panic!("wrong kind"),
    }
}

#[test]
fn a_bad_estimate_leaves_the_questions_unchanged() {
    let mut s = ServerData::new();
    s.load_questions(vec![Question::estimate("old", 7)]);
    let lines = parse_question_lines("normal#Q#a#b#c#d#a\nschaetzen#Q#many\n").unwrap();
    let numbers = numbers_for(&lines);
    assert_eq!(numbers, vec![None, None]);
    assert_eq!(s.load_parsed_questions(lines, &numbers), Err("Estimate solution not a number"));
    assert_eq!(s.questions.len(), 1);
    match &s.questions[0] {
        Question::Estimate { question, solution } => {
            assert_eq!(question, "old");
            assert_eq!(*solution, 7);
        }
        _ => panic!("wrong kind"),
    }
}

#[test]
fn finishing_stops_at_the_first_failing_line() {
    let lines = parse_question_lines("schaetzen#A#x\nschaetzen#B#2").unwrap();
    match finish_lines(lines, &vec![None, Some(2)]) {
        Err(e) => assert_eq!(e, "Estimate solution not a number"),
        Ok(_) => panic!("finished"),
    }
    let lines = parse_question_lines("schaetzen#A#1\nschaetzen#B#2").unwrap();
    let qs = finish_lines(lines, &vec![Some(1), Some(2)]).unwrap();
    assert_eq!(qs.len(), 2);
    match &qs[1] {
        Question::Estimate { question, solution } => {
            assert_eq!(question, "B");
            assert_eq!(*solution, 2);
        }
        _ => panic!("wrong kind"),
    }
}

#[test]
fn page_follows_the_current_question() {
    let mut s = ServerData::new();
    assert_eq!(s.current_page("display", "display/estimate"), "display/estimate");
    assert_eq!(s.current_page("ui", "ui/waiting"), "ui/waiting");
    let answers: Vec<String> = ["a", "b", "c", "d"].iter().map(|x| x.to_string()).collect();
    s.load_questions(vec![
        Question::normal("n", &answers, 0),
        Question::estimate("e", 0),
        Question::sort("s", &answers, &[0, 1, 2, 3]),
    ]);
    assert_eq!(s.current_page("ui", "ui/waiting"), "ui/normal");
    s.set_question(1);
    assert_eq!(s.current_page("display", "display/estimate"), "display/estimate");
    s.set_question(2);
    assert_eq!(s.current_page("ui", "ui/waiting"), "ui/sort");
}

#[test]
fn numbers_read_like_usize_parse() {
    assert_eq!(parse_number(""), None);
    assert_eq!(parse_number("+"), None);
    assert_eq!(parse_number("-1"), None);
    assert_eq!(parse_number("007"), Some(7));
    assert_eq!(parse_number("12a"), None);
    assert_eq!(parse_number(" 5"), None);
    assert_eq!(parse_number(&usize::MAX.to_string()), Some(usize::MAX));
    assert_eq!(parse_number(&format!("{}0", usize::MAX)), None);
    assert_eq!(parse_number("99999999999999999999999999x"), None);
}
