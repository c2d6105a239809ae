use quiz_server::answer::Answer;
use quiz_server::groups::GroupData;
use quiz_server::question::Question;
use quiz_server::server_data::ServerData;

fn strings(v: &[&str]) -> Vec<String> {
    v.iter().map(|s| s.to_string()).collect()
}

fn score(s: &ServerData, name: &str) -> isize {
    s.groups.get(name).unwrap().score
}

fn game(questions: Vec<Question>, groups: &[&str]) -> ServerData {
    let mut s = ServerData::new();
    s.load_questions(questions);
    for g in groups {
        s.insert_group(g);
    }
    s
}

/// The keys that rank the estimates: the bit patterns of the distances.
fn keys_for(s: &ServerData) -> Vec<Option<u64>> {
    let solution = match &s.questions[s.current_question] {
        Question::Estimate { solution, .. } => f64::from_bits(*solution),
        _ => 0.0,
    };
    s.estimate_answers()
        .into_iter()
        .map(|a| a.map(|bits| (solution - f64::from_bits(bits)).abs().to_bits()))
        .collect()
}

fn estimate_game(order: &[(&str, f64)]) -> ServerData {
    let names: Vec<&str> = order.iter().map(|(n, _)| *n).collect();
    let mut s = game(vec![Question::estimate("How many?", 100.0f64.to_bits())], &names);
    for (n, v) in order {
        s.set_group_answer(n, Answer::Estimate(v.to_bits()));
    }
    s
}

#[test]
fn normal_question_scores_right_answers() {
    let q = Question::normal("q", &strings(&["a", "b", "c", "d"]), 2);
    let mut s = game(vec![q], &["owls", "bats", "cats"]);
    s.set_group_answer("owls", Answer::Normal(2));
    s.set_group_answer("bats", Answer::Normal(1));
    s.set_group_answer("cats", Answer::Sort([2, 2, 2, 2]));
    let keys = keys_for(&s);
    assert_eq!(keys, vec![None, None, None]);
    s.results(&keys);
    assert_eq!(score(&s, "owls"), 1);
    assert_eq!(score(&s, "bats"), 0);
    assert_eq!(score(&s, "cats"), 0);
    assert!(matches!(s.groups.get("owls").unwrap().answer, Some(Answer::Normal(2))));
}

#[test]
fn sort_question_scores_exact_order_only() {
    let q = Question::sort("q", &strings(&["a", "b", "c", "d"]), &[3, 0, 1, 2]);
    let mut s = game(vec![q], &["owls", "bats", "mice"]);
    s.set_group_answer("owls", Answer::Sort([3, 0, 1, 2]));
    s.set_group_answer("bats", Answer::Sort([3, 0, 2, 1]));
    let keys = keys_for(&s);
    s.results(&keys);
    assert_eq!(score(&s, "owls"), 1);
    assert_eq!(score(&s, "bats"), 0);
    assert_eq!(score(&s, "mice"), 0);
}

#[test]
fn closest_estimate_gets_two_next_gets_one() {
    let mut s = estimate_game(&[("a", 90.0), ("b", 101.0), ("c", 150.0), ("d", 95.0)]);
    let keys = keys_for(&s);
    s.results(&keys);
    assert_eq!(score(&s, "b"), 2);
    assert_eq!(score(&s, "d"), 1);
    assert_eq!(score(&s, "a"), 0);
    assert_eq!(score(&s, "c"), 0);
}

#[test]
fn tie_for_second_place_shares_the_point() {
    let mut s = estimate_game(&[("a", 104.0), ("b", 100.0), ("c", 96.0), ("d", 200.0), ("e", 104.0)]);
    let keys = keys_for(&s);
    s.results(&keys);
    assert_eq!(score(&s, "b"), 2);
    assert_eq!(score(&s, "a"), 1);
    assert_eq!(score(&s, "c"), 1);
    assert_eq!(score(&s, "e"), 1);
    assert_eq!(score(&s, "d"), 0);
}

#[test]
fn tie_for_first_place_gives_no_second() {
    let mut s = estimate_game(&[("a", 98.0), ("b", 102.0), ("c", 103.0), ("d", 98.0)]);
    let keys = keys_for(&s);
    s.results(&keys);
    assert_eq!(score(&s, "a"), 2);
    assert_eq!(score(&s, "b"), 2);
    assert_eq!(score(&s, "d"), 2);
    assert_eq!(score(&s, "c"), 0);
}

#[test]
fn estimate_points_do_not_depend_on_group_order() {
    let answers = [("a", 90.0), ("b", 101.0), ("c", 150.0), ("d", 95.0), ("e", 98.0)];
    let mut reversed = answers;
    reversed.reverse();
    let mut s1 = estimate_game(&answers);
    let mut s2 = estimate_game(&reversed);
    let k1 = keys_for(&s1);
    let k2 = keys_for(&s2);
    s1.results(&k1);
    s2.results(&k2);
    for (n, _) in answers {
        assert_eq!(score(&s1, n), score(&s2, n));
    }
    assert_eq!(score(&s1, "b"), 2);
    assert_eq!(score(&s1, "e"), 1);
}

#[test]
fn no_estimates_no_points() {
    let mut s = game(vec![Question::estimate("q", 1.0f64.to_bits())], &["a", "b"]);
    s.set_group_answer("a", Answer::Normal(1));
    let keys = keys_for(&s);
    assert_eq!(keys, vec![None, None]);
    s.results(&keys);
    assert_eq!(score(&s, "a"), 0);
    assert_eq!(score(&s, "b"), 0);
}

#[test]
fn results_add_to_existing_scores() {
    let q = Question::normal("q", &strings(&["a", "b", "c", "d"]), 0);
    let mut s = game(vec![q], &["a"]);
    s.set_group_points("a", 10, true);
    s.set_group_answer("a", Answer::Normal(0));
    let keys = keys_for(&s);
    s.results(&keys);
    s.results(&keys);
    assert_eq!(score(&s, "a"), 12);
}

#[test]
fn set_and_add_points() {
    let mut s = game(vec![], &["a", "b"]);
    s.set_group_points("a", 5, true);
    assert_eq!(score(&s, "a"), 5);
    s.set_group_points("a", 3, false);
    assert_eq!(score(&s, "a"), 8);
    s.set_group_points("a", -10, false);
    assert_eq!(score(&s, "a"), -2);
    s.set_group_points("a", 4, true);
    assert_eq!(score(&s, "a"), 4);
    assert_eq!(score(&s, "b"), 0);
}

#[test]
fn inserting_a_group_again_resets_it() {
    let mut s = game(vec![], &["a"]);
    s.set_group_points("a", 5, true);
    s.set_group_answer("a", Answer::Normal(1));
    s.insert_group("a");
    let d = s.groups.get("a").unwrap();
    assert_eq!(d.score, 0);
    assert!(d.answer.is_none());
    assert_eq!(s.groups.len(), 1);
}

#[test]
fn delete_group_removes_only_that_group() {
    let mut s = game(vec![], &["a", "b", "c"]);
    s.delete_group("b");
    assert!(s.groups.get("b").is_none());
    assert_eq!(s.groups.len(), 2);
    assert_eq!(s.groups.entry(0).0, "a");
    assert_eq!(s.groups.entry(1).0, "c");
    s.delete_group("zzz");
    assert_eq!(s.groups.len(), 2);
}

#[test]
fn moving_on_clears_answers_and_keeps_scores() {
    let q = Question::normal("q", &strings(&["a", "b", "c", "d"]), 0);
    let mut s = game(vec![q.clone(), q], &["a", "b"]);
    s.set_group_points("a", 3, true);
    s.set_group_answer("a", Answer::Normal(0));
    s.set_group_answer("b", Answer::Normal(1));
    s.next_question();
    assert_eq!(s.current_question, 1);
    assert!(s.groups.get("a").unwrap().answer.is_none());
    assert!(s.groups.get("b").unwrap().answer.is_none());
    assert_eq!(score(&s, "a"), 3);
    s.set_group_answer("b", Answer::Normal(1));
    s.set_question(0);
    assert_eq!(s.current_question, 0);
    assert!(s.groups.get("b").unwrap().answer.is_none());
}

#[test]
fn current_question_entry_bounds() {
    let mut s = ServerData::new();
    assert!(s.current_question_entry().is_none());
    s.load_questions(vec![Question::estimate("q", 3.0f64.to_bits())]);
    let (i, q) = s.current_question_entry().unwrap();
    assert_eq!(i, 0);
    assert_eq!(q.kind_name(), "estimate");
    s.next_question();
    assert!(s.current_question_entry().is_none());
}

#[test]
fn loading_questions_restarts() {
    let mut s = ServerData::new();
    s.set_question(4);
    s.load_questions(vec![Question::estimate("q", 3.0f64.to_bits())]);
    assert_eq!(s.current_question, 0);
    assert_eq!(s.questions.len(), 1);
}

#[test]
fn estimate_answers_follow_group_order() {
    let mut s = game(vec![Question::estimate("q", 1.0f64.to_bits())], &["a", "b", "c"]);
    s.set_group_answer("c", Answer::Estimate(7));
    s.set_group_answer("a", Answer::Normal(1));
    assert_eq!(s.estimate_answers(), vec![None, None, Some(7)]);
    let g: GroupData = s.groups.get("c").unwrap();
    assert!(matches!(g.answer, Some(Answer::Estimate(7))));
}

#[test]
fn results_allowed_checks_every_condition() {
    let mut s = estimate_game(&[("a", 90.0), ("b", 101.0)]);
    let keys = keys_for(&s);
    assert!(s.results_allowed(&keys));
    assert!(!s.results_allowed(&vec![None, None]));
    assert!(!s.results_allowed(&vec![Some(1)]));
    s.set_group_answer("b", Answer::Normal(1));
    let one = keys_for(&s);
    assert_eq!(one.iter().filter(|k| k.is_some()).count(), 1);
    assert!(!s.results_allowed(&one));
    let mut t = estimate_game(&[("a", 90.0), ("b", 101.0)]);
    t.set_group_points("b", isize::MAX - 1, true);
    let k2 = keys_for(&t);
    assert!(!t.results_allowed(&k2));
    t.set_group_points("b", isize::MAX - 2, true);
    assert!(t.results_allowed(&k2));
    t.results(&k2);
    assert_eq!(score(&t, "b"), isize::MAX);
    let mut empty = ServerData::new();
    assert!(!empty.results_allowed(&vec![]));
    empty.load_questions(vec![Question::estimate("q", 0)]);
    assert!(empty.results_allowed(&vec![]));
}

#[test]
fn group_question_state_shows_the_groups_answer() {
    let mut s = ServerData::new();
    s.insert_group("a");
    assert!(s.group_question_state(Some("a")).is_none());
    s.load_questions(vec![Question::estimate("q", 1.0f64.to_bits())]);
    assert!(matches!(s.group_question_state(Some("a")), Some(None)));
    s.set_group_answer("a", Answer::Estimate(9));
    assert!(matches!(s.group_question_state(Some("a")), Some(Some(Answer::Estimate(9)))));
    assert!(matches!(s.group_question_state(Some("zzz")), Some(None)));
    assert!(matches!(s.group_question_state(None), Some(None)));
}
