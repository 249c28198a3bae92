use lisp_reader::data::LispData;
use lisp_reader::outcome::{Parsed, Reason};
use lisp_reader::reader::{
    any_comment, bin_digit1, block_comment, chain, comment, cons, datum_comment, dotted_tail,
    escaped_char, form, line_comment, lisp_data, lisptoken, many0_data, num, parse_num, quote,
    sharp, string, symbol, vector_rest,
};
use lisp_reader::token::{is_bin_digit, Radix};

fn sym(name: &str) -> LispData {
    LispData::Symbol(name.to_string())
}

fn text(s: &str) -> LispData {
    LispData::LispString(s.to_string())
}

fn pair(first: LispData, rest: LispData) -> LispData {
    LispData::Cons(Box::new(first), Box::new(rest))
}

fn list(items: Vec<LispData>) -> LispData {
    chain(items, LispData::Nil)
}

#[test]
fn proper_list_of_three() {
    let expected = pair(
        LispData::Num(1),
        pair(LispData::Num(2), pair(LispData::Num(3), LispData::Nil)),
    );
    assert_eq!(lisp_data("(1 2 3)"), Parsed::Complete(expected, ""));
}

#[test]
fn quote_mark_reads_as_quote_list() {
    let expected = pair(sym("quote"), pair(sym("a"), LispData::Nil));
    assert_eq!(lisp_data("'a "), Parsed::Complete(expected, " "));
}

#[test]
fn sharp_t_is_true() {
    assert_eq!(lisp_data("#t"), Parsed::Complete(LispData::Bool(true), ""));
    assert_eq!(lisp_data("#T"), Parsed::Complete(LispData::Bool(true), ""));
    assert_eq!(lisp_data("#f"), Parsed::Complete(LispData::Bool(false), ""));
    assert_eq!(lisp_data("#F rest"), Parsed::Complete(LispData::Bool(false), " rest"));
}

#[test]
fn vector_of_two() {
    let expected = LispData::Vector(vec![LispData::Num(1), LispData::Num(2)]);
    assert_eq!(lisp_data("#(1 2)"), Parsed::Complete(expected, ""));
    assert_eq!(lisp_data("#()"), Parsed::Complete(LispData::Vector(vec![]), ""));
    assert_eq!(
        lisp_data("#( a )x"),
        Parsed::Complete(LispData::Vector(vec![sym("a")]), "x")
    );
}

#[test]
fn dotted_pair() {
    assert_eq!(
        lisp_data("(a . b)"),
        Parsed::Complete(pair(sym("a"), sym("b")), "")
    );
    assert_eq!(
        lisp_data("(a b . c)"),
        Parsed::Complete(pair(sym("a"), pair(sym("b"), sym("c"))), "")
    );
    assert_eq!(
        lisp_data("(a .(b))"),
        Parsed::Complete(list(vec![sym("a"), sym("b")]), "")
    );
}

#[test]
fn list_split_in_two_is_incomplete_first() {
    assert_eq!(lisp_data("(1\n"), Parsed::Incomplete);
    assert_eq!(
        lisp_data("(1\n2)\n"),
        Parsed::Complete(list(vec![LispData::Num(1), LispData::Num(2)]), "\n")
    );
}

#[test]
fn unknown_sharp_is_an_error() {
    assert_eq!(lisp_data("#z"), Parsed::SyntaxError(Reason::UnknownSharp));
    assert_eq!(sharp("#z"), Parsed::SyntaxError(Reason::UnknownSharp));
    assert_eq!(lisp_data("(1 #z)"), Parsed::SyntaxError(Reason::UnknownSharp));
}

#[test]
fn empty_and_blank_text_is_incomplete() {
    assert_eq!(lisp_data(""), Parsed::Incomplete);
    assert_eq!(lisp_data(" \t\r\n"), Parsed::Incomplete);
}

#[test]
fn nil_is_the_empty_list() {
    assert_eq!(lisp_data("()"), Parsed::Complete(LispData::Nil, ""));
    assert_eq!(lisp_data(" ( ) "), Parsed::Complete(LispData::Nil, " "));
}

#[test]
fn atoms_wait_for_what_follows() {
    assert_eq!(lisp_data("42"), Parsed::Incomplete);
    assert_eq!(lisp_data("abc"), Parsed::Incomplete);
    assert_eq!(lisp_data("-"), Parsed::Incomplete);
    assert_eq!(lisp_data("'"), Parsed::Incomplete);
    assert_eq!(lisp_data("#"), Parsed::Incomplete);
    assert_eq!(lisp_data("."), Parsed::Incomplete);
    assert_eq!(lisp_data("42\n"), Parsed::Complete(LispData::Num(42), "\n"));
    assert_eq!(lisp_data("abc)"), Parsed::Complete(sym("abc"), ")"));
}

#[test]
fn numbers_in_base_ten() {
    assert_eq!(num("0 "), Parsed::Complete(LispData::Num(0), " "));
    assert_eq!(num("-17)"), Parsed::Complete(LispData::Num(-17), ")"));
    assert_eq!(num("007 "), Parsed::Complete(LispData::Num(7), " "));
    assert_eq!(num("12abc "), Parsed::Complete(LispData::Num(12), "abc "));
    assert_eq!(num("abc "), Parsed::SyntaxError(Reason::NoMatch));
    assert_eq!(num("-x"), Parsed::SyntaxError(Reason::NoMatch));
    assert_eq!(num(""), Parsed::Incomplete);
    assert_eq!(num("-"), Parsed::Incomplete);
    assert_eq!(num("12"), Parsed::Incomplete);
}

#[test]
fn numbers_at_the_edge_of_the_range() {
    assert_eq!(
        lisp_data("9223372036854775807 "),
        Parsed::Complete(LispData::Num(i64::MAX), " ")
    );
    assert_eq!(
        lisp_data("-9223372036854775808 "),
        Parsed::Complete(LispData::Num(i64::MIN), " ")
    );
    assert_eq!(
        lisp_data("9223372036854775808 "),
        Parsed::SyntaxError(Reason::NumberOutOfRange)
    );
    assert_eq!(
        lisp_data("-9223372036854775809 "),
        Parsed::SyntaxError(Reason::NumberOutOfRange)
    );
    assert_eq!(
        lisp_data("99999999999999999999999999999999999999999999 "),
        Parsed::SyntaxError(Reason::NumberOutOfRange)
    );
    assert_eq!(
        lisp_data("000000000000000000000000000000000000000000001 "),
        Parsed::Complete(LispData::Num(1), " ")
    );
    assert_eq!(
        lisp_data("#x7fffffffffffffff "),
        Parsed::Complete(LispData::Num(i64::MAX), " ")
    );
    assert_eq!(
        lisp_data("#x-8000000000000000 "),
        Parsed::Complete(LispData::Num(i64::MIN), " ")
    );
    assert_eq!(
        lisp_data("#x8000000000000000 "),
        Parsed::SyntaxError(Reason::NumberOutOfRange)
    );
}

#[test]
fn numbers_with_a_base() {
    assert_eq!(lisp_data("#b101 "), Parsed::Complete(LispData::Num(5), " "));
    assert_eq!(lisp_data("#B-11 "), Parsed::Complete(LispData::Num(-3), " "));
    assert_eq!(lisp_data("#o17 "), Parsed::Complete(LispData::Num(15), " "));
    assert_eq!(lisp_data("#O-10 "), Parsed::Complete(LispData::Num(-8), " "));
    assert_eq!(lisp_data("#d99 "), Parsed::Complete(LispData::Num(99), " "));
    assert_eq!(lisp_data("#D-1 "), Parsed::Complete(LispData::Num(-1), " "));
    assert_eq!(lisp_data("#xfF "), Parsed::Complete(LispData::Num(255), " "));
    assert_eq!(lisp_data("#X-a0 "), Parsed::Complete(LispData::Num(-160), " "));
    assert_eq!(lisp_data("#b12 "), Parsed::Complete(LispData::Num(1), "2 "));
    assert_eq!(lisp_data("#o8 "), Parsed::SyntaxError(Reason::NoMatch));
    assert_eq!(lisp_data("#b2 "), Parsed::SyntaxError(Reason::NoMatch));
    assert_eq!(lisp_data("#xg "), Parsed::SyntaxError(Reason::NoMatch));
    assert_eq!(lisp_data("#b"), Parsed::Incomplete);
    assert_eq!(lisp_data("#b10"), Parsed::Incomplete);
    assert_eq!(
        parse_num("777 ", Radix::Octal),
        Parsed::Complete(LispData::Num(511), " ")
    );
    assert_eq!(
        parse_num("-ff)", Radix::Hex),
        Parsed::Complete(LispData::Num(-255), ")")
    );
}

#[test]
fn binary_digit_runs() {
    assert_eq!(bin_digit1("0110 "), Parsed::Complete("0110", " "));
    assert_eq!(bin_digit1("012"), Parsed::Complete("01", "2"));
    assert_eq!(bin_digit1("2"), Parsed::SyntaxError(Reason::NoMatch));
    assert_eq!(bin_digit1("01"), Parsed::Incomplete);
    assert_eq!(bin_digit1(""), Parsed::Incomplete);
}

#[test]
fn symbols() {
    assert_eq!(symbol("abc "), Parsed::Complete(sym("abc"), " "));
    assert_eq!(symbol("a-b?c!("), Parsed::Complete(sym("a-b?c!"), "("));
    assert_eq!(symbol("λx\n"), Parsed::Complete(sym("λx"), "\n"));
    assert_eq!(symbol("a\tb "), Parsed::Complete(sym("a"), "\tb "));
    assert_eq!(symbol(".. "), Parsed::Complete(sym(".."), " "));
    assert_eq!(symbol(".a "), Parsed::Complete(sym(".a"), " "));
    assert_eq!(symbol(";c "), Parsed::Complete(sym(";c"), " "));
    assert_eq!(symbol("abc"), Parsed::Incomplete);
    assert_eq!(symbol(""), Parsed::Incomplete);
    assert_eq!(symbol(")"), Parsed::SyntaxError(Reason::NoMatch));
    assert_eq!(symbol(" a"), Parsed::SyntaxError(Reason::NoMatch));
    assert_eq!(lisp_data("-abc "), Parsed::Complete(sym("-abc"), " "));
    assert_eq!(lisp_data("- "), Parsed::Complete(sym("-"), " "));
}

#[test]
fn lone_dot_is_reserved() {
    assert_eq!(symbol(". "), Parsed::SyntaxError(Reason::ReservedDot));
    assert_eq!(lisp_data(". "), Parsed::SyntaxError(Reason::ReservedDot));
    assert_eq!(lisp_data(".)"), Parsed::SyntaxError(Reason::ReservedDot));
    assert_eq!(lisp_data("#(a . b)"), Parsed::SyntaxError(Reason::ReservedDot));
    assert_eq!(lisp_data("(a '. b)"), Parsed::SyntaxError(Reason::ReservedDot));
}

#[test]
fn symbol_characters() {
    assert_eq!(lisptoken("ab"), Parsed::Complete('a', "b"));
    assert_eq!(lisptoken(""), Parsed::Incomplete);
    for stop in ["'", "(", ")", "#", " ", "\"", "\r", "\n", "\t"] {
        assert_eq!(lisptoken(stop), Parsed::SyntaxError(Reason::NoMatch));
    }
}

#[test]
fn string_literals() {
    assert_eq!(lisp_data("\"abc\""), Parsed::Complete(text("abc"), ""));
    assert_eq!(lisp_data("\"\""), Parsed::Complete(text(""), ""));
    assert_eq!(string("\"a b\nc\"x"), Parsed::Complete(text("a b\nc"), "x"));
    assert_eq!(
        string("\"\\a\\b\\n\\r\\t\\\"\\\\\\|\""),
        Parsed::Complete(text("\x07\x08\n\r\t\"\\|"), "")
    );
    assert_eq!(string("\"abc"), Parsed::Incomplete);
    assert_eq!(string("\"abc\\"), Parsed::Incomplete);
    assert_eq!(string("\""), Parsed::Incomplete);
    assert_eq!(string(""), Parsed::Incomplete);
    assert_eq!(string("abc\""), Parsed::SyntaxError(Reason::NoMatch));
    assert_eq!(string("\"a\\zb\""), Parsed::SyntaxError(Reason::BadEscape));
    assert_eq!(lisp_data("\"\\u0041\""), Parsed::SyntaxError(Reason::BadEscape));
}

#[test]
fn escapes() {
    assert_eq!(escaped_char("\\a."), Parsed::Complete('\x07', "."));
    assert_eq!(escaped_char("\\b"), Parsed::Complete('\x08', ""));
    assert_eq!(escaped_char("\\n"), Parsed::Complete('\n', ""));
    assert_eq!(escaped_char("\\r"), Parsed::Complete('\r', ""));
    assert_eq!(escaped_char("\\t"), Parsed::Complete('\t', ""));
    assert_eq!(escaped_char("\\\""), Parsed::Complete('"', ""));
    assert_eq!(escaped_char("\\\\"), Parsed::Complete('\\', ""));
    assert_eq!(escaped_char("\\|"), Parsed::Complete('|', ""));
    assert_eq!(escaped_char("\\"), Parsed::Incomplete);
    assert_eq!(escaped_char(""), Parsed::Incomplete);
    assert_eq!(escaped_char("\\q"), Parsed::SyntaxError(Reason::BadEscape));
    assert_eq!(escaped_char("n"), Parsed::SyntaxError(Reason::NoMatch));
}

#[test]
fn block_comments() {
    assert_eq!(block_comment("#| hi |#x"), Parsed::Complete((), "x"));
    assert_eq!(block_comment("#||#"), Parsed::Complete((), ""));
    assert_eq!(block_comment("#| a |# b |#"), Parsed::Complete((), " b |#"));
    assert_eq!(block_comment("#|#"), Parsed::Incomplete);
    assert_eq!(block_comment("#| hi |"), Parsed::Incomplete);
    assert_eq!(block_comment("#"), Parsed::Incomplete);
    assert_eq!(block_comment(""), Parsed::Incomplete);
    assert_eq!(block_comment("#t"), Parsed::SyntaxError(Reason::NoMatch));
    assert_eq!(block_comment("a"), Parsed::SyntaxError(Reason::NoMatch));
    assert_eq!(
        lisp_data("#| one |# #| two |# 3 "),
        Parsed::Complete(LispData::Num(3), " ")
    );
}

#[test]
fn line_comments() {
    assert_eq!(line_comment("; hi\nx"), Parsed::Complete((), "x"));
    assert_eq!(line_comment(";\n"), Parsed::Complete((), ""));
    assert_eq!(line_comment("; hi\r\nx"), Parsed::Complete((), "x"));
    assert_eq!(line_comment("; hi"), Parsed::Incomplete);
    assert_eq!(line_comment(""), Parsed::Incomplete);
    assert_eq!(line_comment("x\n"), Parsed::SyntaxError(Reason::NoMatch));
    assert_eq!(
        lisp_data("; first\n  ; second\n(a) "),
        Parsed::Complete(list(vec![sym("a")]), " ")
    );
    assert_eq!(lisp_data("; only a comment\n"), Parsed::Incomplete);
}

#[test]
fn datum_comments() {
    assert_eq!(datum_comment("#;(a b) c"), Parsed::Complete((), " c"));
    assert_eq!(datum_comment("#; 1 2"), Parsed::Complete((), " 2"));
    assert_eq!(datum_comment("#;(a"), Parsed::Incomplete);
    assert_eq!(datum_comment("#"), Parsed::Incomplete);
    assert_eq!(datum_comment("#t"), Parsed::SyntaxError(Reason::NoMatch));
    assert_eq!(datum_comment("#;#z"), Parsed::SyntaxError(Reason::UnknownSharp));
    assert_eq!(
        lisp_data("#;(dropped) kept "),
        Parsed::Complete(sym("kept"), " ")
    );
    assert_eq!(
        lisp_data("(1 #;2 3)"),
        Parsed::Complete(list(vec![LispData::Num(1), LispData::Num(3)]), "")
    );
}

#[test]
fn a_comment_is_never_a_value() {
    assert_eq!(any_comment("#|x|#1"), Parsed::Complete((), "1"));
    assert_eq!(any_comment(";x\n1"), Parsed::Complete((), "1"));
    assert_eq!(any_comment("#;x 1"), Parsed::Complete((), " 1"));
    assert_eq!(any_comment("x"), Parsed::SyntaxError(Reason::NoMatch));
    assert_eq!(comment("#|x|#1 "), Parsed::Complete(LispData::Num(1), " "));
    assert_eq!(comment("1 "), Parsed::SyntaxError(Reason::NoMatch));
    assert_eq!(lisp_data(";c\n)"), Parsed::SyntaxError(Reason::NoMatch));
    assert_eq!(lisp_data("(1 ;c\n)"), Parsed::SyntaxError(Reason::NoMatch));
    assert_eq!(lisp_data("(1 #|c|# )"), Parsed::SyntaxError(Reason::NoMatch));
}

#[test]
fn quote_rule() {
    assert_eq!(
        quote("'(1)"),
        Parsed::Complete(
            list(vec![sym("quote"), list(vec![LispData::Num(1)])]),
            ""
        )
    );
    assert_eq!(
        quote("''a "),
        Parsed::Complete(
            list(vec![sym("quote"), list(vec![sym("quote"), sym("a")])]),
            " "
        )
    );
    assert_eq!(quote("' #t"), Parsed::Complete(list(vec![sym("quote"), LispData::Bool(true)]), ""));
    assert_eq!(quote("'"), Parsed::Incomplete);
    assert_eq!(quote(""), Parsed::Incomplete);
    assert_eq!(quote("a"), Parsed::SyntaxError(Reason::NoMatch));
    assert_eq!(quote("')"), Parsed::SyntaxError(Reason::NoMatch));
}

#[test]
fn list_rule() {
    assert_eq!(cons("()"), Parsed::Complete(LispData::Nil, ""));
    assert_eq!(
        cons("(a (b c) #(d))x"),
        Parsed::Complete(
            list(vec![
                sym("a"),
                list(vec![sym("b"), sym("c")]),
                LispData::Vector(vec![sym("d")]),
            ]),
            "x"
        )
    );
    assert_eq!(cons("(\n a\t)"), Parsed::Complete(list(vec![sym("a")]), ""));
    assert_eq!(cons("("), Parsed::Incomplete);
    assert_eq!(cons("(a"), Parsed::Incomplete);
    assert_eq!(cons("(a "), Parsed::Incomplete);
    assert_eq!(cons("(a ."), Parsed::Incomplete);
    assert_eq!(cons("(a . "), Parsed::Incomplete);
    assert_eq!(cons("(a . b"), Parsed::Incomplete);
    assert_eq!(cons("(a . b "), Parsed::Incomplete);
    assert_eq!(cons(""), Parsed::Incomplete);
    assert_eq!(cons("a"), Parsed::SyntaxError(Reason::NoMatch));
    assert_eq!(cons("(a . b c)"), Parsed::SyntaxError(Reason::NoMatch));
    assert_eq!(cons("(a . )"), Parsed::SyntaxError(Reason::NoMatch));
    assert_eq!(cons("(a . . b)"), Parsed::SyntaxError(Reason::ReservedDot));
    assert_eq!(cons("(a \"\\z\")"), Parsed::SyntaxError(Reason::BadEscape));
    assert_eq!(
        cons("( . a)"),
        Parsed::Complete(sym("a"), "")
    );
}

#[test]
fn elements_stop_at_what_is_no_datum() {
    assert_eq!(
        many0_data(" 1 2 )x"),
        Parsed::Complete((vec![LispData::Num(1), LispData::Num(2)], Reason::NoMatch), ")x")
    );
    assert_eq!(
        many0_data("a . b)"),
        Parsed::Complete((vec![sym("a")], Reason::ReservedDot), ". b)")
    );
    assert_eq!(
        many0_data("#z"),
        Parsed::Complete((vec![], Reason::UnknownSharp), "#z")
    );
    assert_eq!(many0_data("1 2 "), Parsed::Incomplete);
    assert_eq!(many0_data(""), Parsed::Incomplete);
}

#[test]
fn tail_after_the_dot() {
    assert_eq!(dotted_tail(" b )x"), Parsed::Complete(sym("b"), "x"));
    assert_eq!(dotted_tail("b)"), Parsed::Complete(sym("b"), ""));
    assert_eq!(dotted_tail(" b c)"), Parsed::SyntaxError(Reason::NoMatch));
    assert_eq!(dotted_tail(" b "), Parsed::Incomplete);
}

#[test]
fn vector_rule() {
    assert_eq!(
        vector_rest(" 1 \"two\" three)"),
        Parsed::Complete(
            LispData::Vector(vec![LispData::Num(1), text("two"), sym("three")]),
            ""
        )
    );
    assert_eq!(vector_rest("1 2"), Parsed::Incomplete);
    assert_eq!(vector_rest("1 #z)"), Parsed::SyntaxError(Reason::UnknownSharp));
    assert_eq!(sharp("#(#(1))"), Parsed::Complete(
        LispData::Vector(vec![LispData::Vector(vec![LispData::Num(1)])]),
        ""
    ));
    assert_eq!(sharp("x"), Parsed::SyntaxError(Reason::NoMatch));
    assert_eq!(sharp("#"), Parsed::Incomplete);
    assert_eq!(sharp(""), Parsed::Incomplete);
    assert_eq!(sharp("#|"), Parsed::SyntaxError(Reason::UnknownSharp));
}

#[test]
fn form_does_not_skip_blanks() {
    assert_eq!(form("a "), Parsed::Complete(sym("a"), " "));
    assert_eq!(form(""), Parsed::Incomplete);
    assert_eq!(form(")"), Parsed::SyntaxError(Reason::NoMatch));
    assert_eq!(form(" a "), Parsed::SyntaxError(Reason::NoMatch));
}

#[test]
fn chain_folds_from_the_right() {
    assert_eq!(chain(vec![], sym("x")), sym("x"));
    assert_eq!(
        chain(vec![LispData::Num(1), LispData::Num(2)], LispData::Nil),
        pair(LispData::Num(1), pair(LispData::Num(2), LispData::Nil))
    );
    assert_eq!(
        chain(vec![LispData::Num(1)], LispData::Num(2)),
        pair(LispData::Num(1), LispData::Num(2))
    );
}

#[test]
fn several_data_on_one_line() {
    let line = "1 (2) three\n";
    let rest = match lisp_data(line) {
        Parsed::Complete(v, rest) => {
            assert_eq!(v, LispData::Num(1));
            rest
        }
        other => panic!("{:?}", other),
    };
    let rest = match lisp_data(rest) {
        Parsed::Complete(v, rest) => {
            assert_eq!(v, list(vec![LispData::Num(2)]));
            rest
        }
        other => panic!("{:?}", other),
    };
    let rest = match lisp_data(rest) {
        Parsed::Complete(v, rest) => {
            assert_eq!(v, sym("three"));
            rest
        }
        other => panic!("{:?}", other),
    };
    assert_eq!(rest, "\n");
    assert_eq!(lisp_data(rest), Parsed::Incomplete);
}

#[test]
fn blanks_between_tokens_do_not_matter() {
    let plain = lisp_data("(a (b . c) #(1 2) 'd \"e f\")");
    let spaced = lisp_data("  (  a\n(\nb  .\r\n c  )   #(  1\n\n2  )  '  d   \"e f\"  )");
    match (plain, spaced) {
        (Parsed::Complete(p, _), Parsed::Complete(s, _)) => assert_eq!(p, s),
        other => panic!("{:?}", other),
    }
}

/// Every text made from `text` by putting `blanks` in at one of the places.
fn with_blanks_at(text: &str, places: &[usize], blanks: &str) -> Vec<String> {
    places
        .iter()
        .map(|&at| format!("{}{}{}", &text[..at], blanks, &text[at..]))
        .collect()
}

#[test]
fn blanks_at_any_gap_of_any_text() {
    let text = "(a 'b #;(c) #(1 2) ;x\n d . #|y|# e)";
    let expected = match lisp_data(text) {
        Parsed::Complete(value, "") => value,
        other => panic!("{:?}", other),
    };
    assert_eq!(
        expected,
        chain(
            vec![
                sym("a"),
                list(vec![sym("quote"), sym("b")]),
                LispData::Vector(vec![LispData::Num(1), LispData::Num(2)]),
                sym("d"),
            ],
            sym("e"),
        )
    );
    let gaps = [
        0, 1, 2, 3, 4, 5, 6, 8, 9, 10, 11, 12, 14, 15, 16, 17, 18, 19, 22, 23, 24, 25, 26, 27, 32, 33,
        34,
    ];
    for blanks in [" ", "\n", "\t \r\n  "] {
        for spaced in with_blanks_at(text, &gaps, blanks) {
            assert_eq!(
                lisp_data(&spaced),
                Parsed::Complete(chain(
                    vec![
                        sym("a"),
                        list(vec![sym("quote"), sym("b")]),
                        LispData::Vector(vec![LispData::Num(1), LispData::Num(2)]),
                        sym("d"),
                    ],
                    sym("e"),
                ), ""),
                "{:?}",
                spaced
            );
        }
    }
}

#[test]
fn blanks_inside_a_token_do_matter() {
    assert_eq!(lisp_data("# t"), Parsed::SyntaxError(Reason::UnknownSharp));
    assert_eq!(lisp_data("#b 1 "), Parsed::SyntaxError(Reason::NoMatch));
    assert_eq!(lisp_data("1 2 "), Parsed::Complete(LispData::Num(1), " 2 "));
    assert_eq!(lisp_data("# (1)"), Parsed::SyntaxError(Reason::UnknownSharp));
    assert_eq!(lisp_data("\"a b\""), Parsed::Complete(text("a b"), ""));
}

#[test]
fn what_follows_a_datum_matters_only_by_its_first_character() {
    for behind in [" x", ")", "(y", "\"z", "\n", "'q"] {
        let first = format!("abc{}", behind);
        assert_eq!(lisp_data(&first), Parsed::Complete(sym("abc"), behind));
        let second = format!("-12{}", behind);
        assert_eq!(lisp_data(&second), Parsed::Complete(LispData::Num(-12), behind));
        let third = format!("(a . b){}", behind);
        assert_eq!(
            lisp_data(&third),
            Parsed::Complete(pair(sym("a"), sym("b")), behind)
        );
    }
}

#[test]
fn characters_of_several_bytes() {
    assert_eq!(lisp_data("#é"), Parsed::SyntaxError(Reason::UnknownSharp));
    assert_eq!(block_comment("#é"), Parsed::SyntaxError(Reason::NoMatch));
    assert_eq!(block_comment("é"), Parsed::SyntaxError(Reason::NoMatch));
    assert_eq!(
        lisp_data("#| héllo → wörld |# 1 "),
        Parsed::Complete(LispData::Num(1), " ")
    );
    assert_eq!(
        lisp_data("; ünïcödé\nλ "),
        Parsed::Complete(sym("λ"), " ")
    );
    assert_eq!(
        lisp_data("\"héllo\\n→\"x"),
        Parsed::Complete(text("héllo\n→"), "x")
    );
    assert_eq!(escaped_char("\\é"), Parsed::SyntaxError(Reason::BadEscape));
    assert_eq!(lisptoken("→x"), Parsed::Complete('→', "x"));
    assert_eq!(
        lisp_data("(λ . → )"),
        Parsed::Complete(pair(sym("λ"), sym("→")), "")
    );
    assert_eq!(lisp_data("12é "), Parsed::Complete(LispData::Num(12), "é "));
    assert_eq!(lisp_data("-é "), Parsed::Complete(sym("-é"), " "));
}

#[test]
fn binary_digits() {
    assert!(is_bin_digit('0'));
    assert!(is_bin_digit('1'));
    assert!(!is_bin_digit('2'));
    assert!(!is_bin_digit('a'));
    assert!(!is_bin_digit(' '));
}
