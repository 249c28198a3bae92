use lisp_reader::data::LispData;
use lisp_reader::driver::{Action, Driver};
use lisp_reader::outcome::Reason;

fn pair(first: LispData, rest: LispData) -> LispData {
    LispData::Cons(Box::new(first), Box::new(rest))
}

fn one_two() -> LispData {
    pair(LispData::Num(1), pair(LispData::Num(2), LispData::Nil))
}

/// Feeds the chunks one at a time and collects every action but `NeedInput`.
fn run(chunks: &[&str]) -> Vec<Action> {
    let mut driver = Driver::new();
    let mut seen = Vec::new();
    for chunk in chunks {
        driver.feed(chunk);
        loop {
            match driver.step() {
                Action::NeedInput => break,
                action => seen.push(action),
            }
        }
    }
    seen
}

#[test]
fn new_driver_is_empty_and_needs_input() {
    let mut driver = Driver::new();
    assert!(driver.is_empty());
    assert_eq!(driver.step(), Action::NeedInput);
    assert!(driver.is_empty());
}

#[test]
fn datum_split_across_two_reads() {
    let mut driver = Driver::new();
    driver.feed("(1\n");
    assert_eq!(driver.step(), Action::NeedInput);
    assert!(!driver.is_empty());
    driver.feed("2)\n");
    assert_eq!(driver.step(), Action::Emit(one_two()));
    assert!(!driver.is_empty());
    assert_eq!(driver.step(), Action::NeedInput);
}

#[test]
fn error_discards_the_buffer_and_the_next_line_reads() {
    let mut driver = Driver::new();
    driver.feed("#z (1 2)\n");
    assert_eq!(driver.step(), Action::Report(Reason::UnknownSharp));
    assert!(driver.is_empty());
    assert_eq!(driver.step(), Action::NeedInput);
    driver.feed("(1 2)\n");
    assert_eq!(driver.step(), Action::Emit(one_two()));
}

#[test]
fn several_data_in_one_chunk() {
    let seen = run(&["1 2 (1 2) \n"]);
    assert_eq!(
        seen,
        vec![
            Action::Emit(LispData::Num(1)),
            Action::Emit(LispData::Num(2)),
            Action::Emit(one_two()),
        ]
    );
}

#[test]
fn any_split_gives_the_same_value() {
    let whole = "(1 2)\n";
    let expected = run(&[whole]);
    assert_eq!(expected, vec![Action::Emit(one_two())]);
    for cut in 1..whole.len() {
        assert_eq!(run(&[&whole[..cut], &whole[cut..]]), expected);
    }
    assert_eq!(run(&["(", "1", " ", "2", ")", "\n"]), expected);
}

#[test]
fn split_inside_tokens() {
    let expected = run(&["(hello \"a\\nb\" #xff . tail)\n"]);
    assert_eq!(expected.len(), 1);
    assert_eq!(
        run(&["(hel", "lo \"a\\", "nb\" #", "xf", "f .", " tai", "l)\n"]),
        expected
    );
}
