use lisp_reader::data::LispData;
use lisp_reader::outcome::Parsed;
use lisp_reader::reader::lisp_data;
use lisp_reader::render::{write_cdr, write_escaped, write_num};

fn sym(name: &str) -> LispData {
    LispData::Symbol(name.to_string())
}

fn pair(first: LispData, rest: LispData) -> LispData {
    LispData::Cons(Box::new(first), Box::new(rest))
}

fn printed(text: &str) -> String {
    match lisp_data(text) {
        Parsed::Complete(value, _) => value.to_text(),
        other => panic!("{:?}", other),
    }
}

#[test]
fn prints_atoms() {
    assert_eq!(LispData::Nil.to_text(), "()");
    assert_eq!(LispData::Bool(true).to_text(), "#t");
    assert_eq!(LispData::Bool(false).to_text(), "#f");
    assert_eq!(LispData::Num(0).to_text(), "0");
    assert_eq!(LispData::Num(42).to_text(), "42");
    assert_eq!(LispData::Num(-7).to_text(), "-7");
    assert_eq!(LispData::Num(1000).to_text(), "1000");
    assert_eq!(LispData::Num(i64::MAX).to_text(), "9223372036854775807");
    assert_eq!(LispData::Num(i64::MIN).to_text(), "-9223372036854775808");
    assert_eq!(sym("hello").to_text(), "hello");
}

#[test]
fn prints_strings_with_escapes() {
    assert_eq!(LispData::LispString("abc".to_string()).to_text(), "\"abc\"");
    assert_eq!(LispData::LispString(String::new()).to_text(), "\"\"");
    assert_eq!(
        LispData::LispString("a\"b\\c".to_string()).to_text(),
        "\"a\\\"b\\\\c\""
    );
    assert_eq!(
        LispData::LispString("line\nbreak".to_string()).to_text(),
        "\"line\nbreak\""
    );
}

#[test]
fn prints_vectors() {
    assert_eq!(LispData::Vector(vec![]).to_text(), "#()");
    assert_eq!(LispData::Vector(vec![LispData::Num(1)]).to_text(), "#(1)");
    assert_eq!(
        LispData::Vector(vec![LispData::Num(1), LispData::Num(2)]).to_text(),
        "#(1 2)"
    );
    assert_eq!(
        LispData::Vector(vec![sym("a"), LispData::Vector(vec![]), LispData::Nil]).to_text(),
        "#(a #() ())"
    );
}

#[test]
fn prints_lists() {
    assert_eq!(pair(sym("a"), LispData::Nil).to_text(), "(a)");
    assert_eq!(pair(sym("a"), sym("b")).to_text(), "(a . b)");
    assert_eq!(
        pair(
            LispData::Num(1),
            pair(LispData::Num(2), pair(LispData::Num(3), LispData::Nil))
        )
        .to_text(),
        "(1 2 3)"
    );
    assert_eq!(
        pair(LispData::Num(1), pair(LispData::Num(2), LispData::Num(3))).to_text(),
        "(1 2 . 3)"
    );
    assert_eq!(
        pair(pair(sym("a"), LispData::Nil), pair(LispData::Nil, LispData::Nil)).to_text(),
        "((a) ())"
    );
}

#[test]
fn fmt_appends() {
    let mut out = String::from("> ");
    LispData::Num(5).fmt(&mut out);
    sym("x").fmt(&mut out);
    assert_eq!(out, "> 5x");
}

#[test]
fn write_cdr_writes_the_rest_of_a_list() {
    let mut out = String::from("(a");
    write_cdr(&LispData::Nil, &mut out);
    assert_eq!(out, "(a");
    write_cdr(&pair(sym("b"), pair(sym("c"), LispData::Nil)), &mut out);
    assert_eq!(out, "(a b c");
    write_cdr(&sym("d"), &mut out);
    assert_eq!(out, "(a b c . d");
    let mut out = String::new();
    write_cdr(&pair(sym("x"), LispData::Num(1)), &mut out);
    assert_eq!(out, " x . 1");
}

#[test]
fn writes_numbers_and_escapes() {
    let mut out = String::new();
    write_num(-120, &mut out);
    write_num(9, &mut out);
    assert_eq!(out, "-1209");
    let mut out = String::from("[");
    write_escaped("say \"hi\" \\ bye", &mut out);
    assert_eq!(out, "[say \\\"hi\\\" \\\\ bye");
}

#[test]
fn scenario_list_prints_back() {
    assert_eq!(printed("(1 2 3)"), "(1 2 3)");
}

#[test]
fn scenario_quote_prints_as_list() {
    assert_eq!(printed("'a "), "(quote a)");
}

#[test]
fn scenario_true_prints_back() {
    assert_eq!(printed("#t"), "#t");
}

#[test]
fn scenario_vector_prints_back() {
    assert_eq!(printed("#(1 2)"), "#(1 2)");
}

#[test]
fn scenario_dotted_pair_prints_back() {
    assert_eq!(printed("(a . b)"), "(a . b)");
}

#[test]
fn radix_numbers_print_in_decimal() {
    assert_eq!(printed("#xff "), "255");
    assert_eq!(printed("#b-101 "), "-5");
    assert_eq!(printed("#o777 "), "511");
}

#[test]
fn printing_and_reading_round_trip() {
    let values = vec![
        LispData::Nil,
        LispData::Bool(true),
        LispData::Bool(false),
        LispData::Num(0),
        LispData::Num(-1),
        LispData::Num(i64::MAX),
        LispData::Num(i64::MIN),
        sym("abc"),
        sym("-"),
        sym("..."),
        LispData::LispString("with \"quotes\" and \\ and\nnewline".to_string()),
        LispData::Vector(vec![]),
        LispData::Vector(vec![LispData::Num(1), sym("b"), LispData::Nil]),
        pair(sym("a"), sym("b")),
        pair(sym("a"), pair(LispData::Num(1), LispData::Nil)),
        pair(
            pair(sym("x"), LispData::Vector(vec![sym("y")])),
            pair(LispData::LispString("z".to_string()), LispData::Num(-3)),
        ),
    ];
    for value in values {
        let mut text = value.to_text();
        text.push('\n');
        assert_eq!(lisp_data(&text), Parsed::Complete(value, "\n"));
    }
}

#[test]
fn clone_copies_the_whole_tree() {
    let value = pair(
        LispData::Vector(vec![sym("a"), LispData::LispString("b".to_string())]),
        pair(LispData::Num(3), LispData::Bool(true)),
    );
    let copy = value.clone();
    assert_eq!(copy, value);
    assert_eq!(copy.to_text(), "(#(a \"b\") 3 . #t)");
}
