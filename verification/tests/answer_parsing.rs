use quiz_server::answer::{convert_letters_to_numbers, Answer, AnswerData};

fn normal(text: &str) -> Result<usize, String> {
    match Answer::try_parse_answer("normal", text, None) {
        Ok(Answer::Normal(n)) => Ok(n),
        Ok(_) => panic!("wrong kind"),
        Err(e) => Err(e),
    }
}

#[test]
fn reads_normal_answers() {
    assert_eq!(normal("2"), Ok(2));
    assert_eq!(normal("+7"), Ok(7));
    assert_eq!(normal("0003"), Ok(3));
    assert_eq!(normal("18446744073709551615"), Ok(18446744073709551615));
}

#[test]
fn normal_answer_errors_name_the_type() {
    let msg = "could not parse answer \"normal\" as a number".to_string();
    assert_eq!(normal("b"), Err(msg.clone()));
    assert_eq!(normal(""), Err(msg.clone()));
    assert_eq!(normal("+"), Err(msg.clone()));
    assert_eq!(normal("-1"), Err(msg.clone()));
    assert_eq!(normal(" 1"), Err(msg.clone()));
    assert_eq!(normal("18446744073709551616"), Err(msg));
}

#[test]
fn reads_estimates() {
    let bits = 12.25f64.to_bits();
    match Answer::try_parse_answer("schaetzen", "12.25", Some(bits)) {
        Ok(Answer::Estimate(b)) => assert_eq!(f64::from_bits(b), 12.25),
        _ => panic!("not an estimate"),
    }
    assert_eq!(
        Answer::try_parse_answer("schaetzen", "much", None).err(),
        Some("could not parse answer \"schaetzen\" as a number".to_string())
    );
}

#[test]
fn reads_sort_answers() {
    match Answer::try_parse_answer("sortier", "bacd", None) {
        Ok(Answer::Sort(v)) => assert_eq!(v, [1, 0, 2, 3]),
        _ => panic!("not a sort answer"),
    }
    assert_eq!(convert_letters_to_numbers("dcba"), Ok([3, 2, 1, 0]));
    assert_eq!(convert_letters_to_numbers("aaaa"), Ok([0, 0, 0, 0]));
}

#[test]
fn sort_answer_errors() {
    assert_eq!(
        convert_letters_to_numbers("abc"),
        Err("could not convert \"abc\" into a sorting answer".to_string())
    );
    assert_eq!(
        convert_letters_to_numbers("abcda"),
        Err("could not convert \"abcda\" into a sorting answer".to_string())
    );
    assert_eq!(convert_letters_to_numbers("abce"), Err("invalid letter: e".to_string()));
    assert_eq!(convert_letters_to_numbers("Abcd"), Err("invalid letter: A".to_string()));
    // Four bytes but three characters: the length counts bytes.
    assert_eq!(convert_letters_to_numbers("\u{e4}bc"), Err("invalid letter: \u{e4}".to_string()));
    assert_eq!(
        Answer::try_parse_answer("sortier", "ab", None).err(),
        Some("could not convert \"ab\" into a sorting answer".to_string())
    );
}

#[test]
fn unknown_answer_type() {
    assert_eq!(
        Answer::try_parse_answer("quiz", "1", None).err(),
        Some("invalid answer type: \"quiz\"".to_string())
    );
}

#[test]
fn answer_data_reads_its_answer() {
    let data = AnswerData {
        group_name: "owls".to_string(),
        answer_type: "normal".to_string(),
        answer_string: "3".to_string(),
    };
    match data.try_into_answer(None) {
        Ok(Answer::Normal(3)) => {}
        _ => panic!("wrong answer"),
    }
}
