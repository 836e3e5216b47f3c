use bendis::config::update_complete;
use bendis::prompt::answer_is_yes;

fn by_lower_case(answer: &str, empty_is_yes: bool) -> bool {
    let input = answer.trim().to_lowercase();
    (empty_is_yes && input.is_empty()) || input == "y" || input == "yes"
}

#[test]
fn answers_that_mean_yes() {
    for answer in ["y", "Y", "yes", "YES", "Yes", "yEs", " y\n", "\tyes \r\n"] {
        assert!(answer_is_yes(answer, false), "{:?}", answer);
        assert!(answer_is_yes(answer, true), "{:?}", answer);
    }
}

#[test]
fn answers_that_mean_no() {
    for answer in ["n", "no", "ye", "yess", "y es", "yes!", "ja", "1", "true", "ｙ", "ÿ"] {
        assert!(!answer_is_yes(answer, false), "{:?}", answer);
        assert!(!answer_is_yes(answer, true), "{:?}", answer);
    }
}

#[test]
fn empty_answer_counts_as_asked() {
    for answer in ["", "\n", "  \r\n", "\t"] {
        assert!(answer_is_yes(answer, true));
        assert!(!answer_is_yes(answer, false));
    }
}

#[test]
fn answer_agrees_with_lower_case_of_every_character() {
    for u in 0..=0x10FFFFu32 {
        if let Some(c) = char::from_u32(u) {
            let one = c.to_string();
            let three = format!("y{}s", c);
            let first = format!("{}es", c);
            let last = format!("ye{}", c);
            for answer in [one, three, first, last] {
                for empty_is_yes in [false, true] {
                    assert_eq!(
                        answer_is_yes(&answer, empty_is_yes),
                        by_lower_case(&answer, empty_is_yes),
                        "{:?}",
                        answer
                    );
                }
            }
        }
    }
}

#[test]
fn update_is_complete_where_all_is_there() {
    assert!(update_complete(true, true, true, true));
    assert!(!update_complete(false, true, true, true));
    assert!(!update_complete(true, false, true, true));
    assert!(!update_complete(true, true, false, true));
    assert!(!update_complete(true, true, true, false));
    assert!(!update_complete(false, false, false, false));
}
