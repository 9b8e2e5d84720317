use golfscript::{GSError, Interpreter, Item};

use Item::{Array, Num, Str};

fn s(x: &str) -> Item {
    Str(x.chars().collect())
}

fn eval_(input: &str) -> Result<Vec<Item>, GSError> {
    let mut it = Interpreter::new();
    it.exec(input)
}

fn eval(input: &str) -> Vec<Item> {
    eval_(input).unwrap()
}

fn is_parse(r: Result<Vec<Item>, GSError>) -> bool {
    matches!(r, Err(GSError::Parse(_)))
}

fn is_runtime(r: Result<Vec<Item>, GSError>) -> bool {
    matches!(r, Err(GSError::Runtime(_)))
}

// the quantified properties, on concrete values

#[test]
fn range_count_concrete() {
    assert_eq!(eval("5,,"), [Num(5)]);
    assert_eq!(eval("0,,"), [Num(0)]);
}

#[test]
fn self_equal_concrete() {
    assert_eq!(eval("[1 2 3].="), [Num(1)]);
    assert_eq!(eval("[].="), [Num(1)]);
}

#[test]
fn index_twice_concrete() {
    assert_eq!(eval("[7 8 9]. 1 = \\ 1 ="), [Num(8), Num(8)]);
}

#[test]
fn double_not_concrete() {
    assert_eq!(eval("0!!"), [Num(0)]);
    assert_eq!(eval("7!!"), [Num(1)]);
    assert_eq!(eval("\"\"!!"), [Num(0)]);
    assert_eq!(eval("\"x\"!!"), [Num(1)]);
    assert_eq!(eval("[]!!"), [Num(0)]);
    assert_eq!(eval("[0]!!"), [Num(1)]);
    assert_eq!(eval("{}!!"), [Num(0)]);
    assert_eq!(eval("{0}!!"), [Num(1)]);
}

#[test]
fn upcast_idempotent_concrete() {
    let v = Item::Num(65);
    let once = v.upcast_to_string();
    let twice = once.upcast_to_string();
    assert_eq!(twice, s("65"));
}

#[test]
fn display_round_trip_num() {
    assert_eq!(eval("-42`~"), [Num(-42)]);
    assert_eq!(eval("0`"), [s("0")]);
}

#[test]
fn display_round_trip_block() {
    let mut it = Interpreter::new();
    let st = it.exec("{1 -2 30}`~").unwrap();
    assert_eq!(st, vec![Item::Block(vec![Num(1), Num(-2), Num(30)])]);
}

#[test]
fn display_round_trip_array() {
    assert_eq!(
        eval("[1 -2 30]`~"),
        [Array(vec![Num(1), Num(-2), Num(30)])]
    );
}

#[test]
fn display_round_trip_block_in_array() {
    assert_eq!(
        eval("[1 {2 {3}}]`~"),
        [Array(vec![
            Num(1),
            Item::Block(vec![Num(2), Item::Block(vec![Num(3)])]),
        ])]
    );
}

#[test]
fn display_round_trip_nested_mixed() {
    assert_eq!(
        eval("[1 [2 \"hi\"] \"x\" []]`~"),
        [Array(vec![
            Num(1),
            Array(vec![Num(2), s("hi")]),
            s("x"),
            Array(vec![]),
        ])]
    );
}

// parse errors, each kind of bad input

#[test]
fn parse_error_unterminated_string() {
    assert!(is_parse(eval_("\"abc")));
}

#[test]
fn parse_error_trailing_escape() {
    assert!(is_parse(eval_("\"abc\\")));
}

#[test]
fn parse_error_unterminated_block() {
    assert!(is_parse(eval_("{1 2")));
}

#[test]
fn parse_error_empty_assign_name() {
    assert!(is_parse(eval_("1: ")));
}

#[test]
fn parse_error_symbol_assign_name() {
    assert!(is_parse(eval_("1:+")));
}

#[test]
fn parse_error_huge_number() {
    assert!(is_parse(eval_("99999999999999999999")));
}

#[test]
fn parse_keeps_state() {
    let mut it = Interpreter::new();
    assert!(it.exec("1 2").is_ok());
    assert!(matches!(it.exec("\"oops"), Err(GSError::Parse(_))));
    assert_eq!(it.exec(""), Ok(vec![Num(1), Num(2)]));
}

// runtime errors

#[test]
fn runtime_error_underflow() {
    assert!(is_runtime(eval_("+")));
    assert!(is_runtime(eval_("1+")));
}

#[test]
fn runtime_error_undefined_name() {
    assert!(is_runtime(eval_("nosuchname")));
}

#[test]
fn runtime_error_division_by_zero() {
    assert!(is_runtime(eval_("1 0/")));
    assert!(is_runtime(eval_("1 0%")));
}

#[test]
fn runtime_error_negative_power() {
    assert!(is_runtime(eval_("2 -1?")));
}

#[test]
fn runtime_error_negative_repeat() {
    assert!(is_runtime(eval_("\"ab\"-2*")));
}

#[test]
fn runtime_error_marker_underflow() {
    assert!(is_runtime(eval_("1 ]")));
}

#[test]
fn runtime_error_stack_index() {
    assert!(is_runtime(eval_("1 5$")));
    assert!(is_runtime(eval_("1 -1$")));
}

#[test]
fn runtime_error_rand_empty_range() {
    assert!(is_runtime(eval_("0rand")));
}

#[test]
fn runtime_error_abs_of_wrong_kind() {
    assert!(is_runtime(eval_("\"x\"abs")));
}

#[test]
fn runtime_error_mismatched_kinds() {
    assert!(is_runtime(eval_("{1}\"a\"<")));
}

#[test]
fn runtime_error_keeps_partial_state() {
    let mut it = Interpreter::new();
    assert!(matches!(it.exec("1 2 nosuchname"), Err(GSError::Runtime(_))));
    assert_eq!(it.exec(""), Ok(vec![Num(1), Num(2)]));
}

#[test]
fn overflow_is_an_error_not_silence() {
    assert!(is_runtime(eval_("9223372036854775807 1+")));
    assert!(is_runtime(eval_("-9223372036854775807 2-")));
    assert!(is_runtime(eval_("9223372036854775807 2*")));
    assert!(is_runtime(eval_("2 64?")));
}

// rand: in range, and it consumes its argument

#[test]
fn rand_stays_in_range() {
    let mut it = Interpreter::new();
    for _ in 0..50 {
        let st = it.exec("10rand").unwrap();
        match st.last() {
            Some(Num(k)) => assert!(0 <= *k && *k < 10),
            _ => panic!("rand must push an integer"),
        }
    }
    let mut neg = Interpreter::new();
    let st = neg.exec("-10rand").unwrap();
    match st.last() {
        Some(Num(k)) => assert!(-10 <= *k && *k < 0),
        _ => panic!("rand must push an integer"),
    }
}

#[test]
fn rand_handles_the_widest_range() {
    let mut it = Interpreter::new();
    let st = it.exec("-9223372036854775807 1- rand").unwrap();
    match st.last() {
        Some(Num(k)) => assert!(*k < 0),
        _ => panic!("rand must push an integer"),
    }
}

#[test]
fn runaway_recursion_is_an_error() {
    assert!(is_runtime(eval_("{a}:a;a")));
}

// print and the predefined blocks write to the output buffer

#[test]
fn print_writes_output() {
    let mut it = Interpreter::new();
    it.exec("5print").unwrap();
    assert_eq!(it.take_output(), "5\n");
    assert_eq!(it.exec(""), Ok(vec![]));
}

#[test]
fn puts_writes_display_form() {
    let mut it = Interpreter::new();
    it.exec("[1 2]puts").unwrap();
    assert_eq!(it.take_output(), "[1 2]\n\"\\n\"\n");
}

#[test]
fn p_writes_quoted_form() {
    let mut it = Interpreter::new();
    it.exec("\"hi\"p").unwrap();
    assert_eq!(it.take_output(), "\"\"hi\"\"\n\"\\n\"\n");
}

// display forms

#[test]
fn display_string_escapes_newline() {
    let v = s("a\nb");
    assert_eq!(v.display_string(), "\"a\\nb\"");
}

#[test]
fn display_string_nested() {
    let v = Array(vec![Num(1), Array(vec![Num(2)]), s("x")]);
    assert_eq!(v.display_string(), "[1 [2] \"x\"]");
}

// the string upcast turns code points into characters

#[test]
fn upcast_makes_characters_not_digits() {
    assert_eq!(eval("[65 66]\"\"+"), [s("AB")]);
}

#[test]
fn upcast_bad_code_point_is_an_error() {
    assert!(is_runtime(eval_("[-1]\"\"+")));
}

// sorting is stable and total across kinds

#[test]
fn sort_mixes_numbers_and_strings() {
    assert_eq!(
        eval("[\"2\" 10 1]$"),
        [Array(vec![Num(1), Num(10), s("2")])]
    );
}

#[test]
fn sort_by_key_is_stable() {
    assert_eq!(
        eval("[3 1 2 11]{;0}$"),
        [Array(vec![Num(3), Num(1), Num(2), Num(11)])]
    );
}

// splitting edge cases

#[test]
fn split_str_keeps_empty_pieces() {
    assert_eq!(eval("\"ab\" \"b\"/"), [Array(vec![s("a"), s("")])]);
}

#[test]
fn split_array_pattern_scan_restarts() {
    assert_eq!(
        eval("[1 2 2 3][2 3]/"),
        [Array(vec![Array(vec![Num(1), Num(2)])])]
    );
}

#[test]
fn every_second_element() {
    assert_eq!(eval("[1 2 3 4] 2%"), [Array(vec![Num(1), Num(3)])]);
}

// shadowing: a binding wins over a built-in name

#[test]
fn binding_shadows_nothing_until_used() {
    assert_eq!(eval("7:x;x x +"), [Num(14)]);
}

#[test]
fn block_binding_runs_when_named() {
    assert_eq!(eval("{2*}:double;21 double"), [Num(42)]);
}

#[test]
fn nested_blocks_nest() {
    assert_eq!(eval("{{1}~ 2+}~"), [Num(3)]);
}

#[test]
fn stack_items_copies_stack() {
    let mut it = Interpreter::new();
    it.exec("1 2").unwrap();
    assert_eq!(it.stack_items(), vec![Num(1), Num(2)]);
}

#[test]
fn lex_produces_tokens() {
    let toks = golfscript::lex("1 2+").unwrap();
    assert_eq!(toks, vec![Num(1), Num(2), Item::Var("+".chars().collect())]);
}

#[test]
fn negative_index_from_end() {
    assert_eq!(eval("[1 2 3] -3 ="), [Num(1)]);
    assert_eq!(eval("[1 2 3] 5 ="), []);
}

#[test]
fn if_pops_all_three() {
    assert_eq!(eval("9 1 2 3if"), [Num(9), Num(2)]);
}

// take and skip at zero: take first 0 is nothing, skip first 0 is everything

#[test]
fn take_zero_is_empty() {
    assert_eq!(eval("[1 2 3] 0 <"), [Array(vec![])]);
    assert_eq!(eval("\"abc\" 0 <"), [s("")]);
}

#[test]
fn skip_zero_is_everything() {
    assert_eq!(eval("[1 2 3] 0 >"), [Array(vec![Num(1), Num(2), Num(3)])]);
    assert_eq!(eval("\"abc\" 0 >"), [s("abc")]);
}

// the power uses the whole exponent, not its low 32 bits

#[test]
fn power_of_zero_with_a_huge_exponent() {
    assert_eq!(eval("0 4294967296?"), [Num(0)]);
    assert_eq!(eval("0 0?"), [Num(1)]);
    assert_eq!(eval("1 4294967296?"), [Num(1)]);
}
