use rust_dust::beat::Beat;
use rust_dust::words::{lines, words, words_of_lines, MyError};

#[test]
fn lines_are_the_three_lines() {
    let l: Vec<String> = lines().into_iter().map(|r| r.unwrap()).collect();
    assert_eq!(l, vec!["the first line", "the second line", "the third line"]);
}

#[test]
fn words_splits_all_lines() {
    assert_eq!(
        words().unwrap(),
        vec!["the", "first", "line", "the", "second", "line", "the", "third", "line"]
    );
}

#[test]
fn words_stop_at_first_error() {
    let r = words_of_lines(vec![
        Ok("a b".to_string()),
        Err(MyError("broken".to_string())),
        Err(MyError("later".to_string())),
    ]);
    match r {
        Err(MyError(m)) => assert_eq!(m, "broken"),
        Ok(_) => panic!("expected an error"),
    }
}

#[test]
fn beat_holds_its_fields() {
    let b = Beat { customer_id: String::from("1234ABC"), event_count: 10000 };
    assert_eq!(b.customer_id, "1234ABC");
    assert_eq!(b.event_count, 10000);
}
