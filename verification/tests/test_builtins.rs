use golfscript::{GSError, Interpreter, Item};

use Item::{Array, Block, Num, Str, Var};

fn s(x: &str) -> Item {
    Str(x.chars().collect())
}

fn var(x: &str) -> Item {
    Var(x.chars().collect())
}

fn eval_(input: &str) -> Result<Vec<Item>, GSError> {
    let mut it = Interpreter::new();
    it.exec(input)
}

fn eval(input: &str) -> Vec<Item> {
    eval_(input).unwrap()
}

// test~
#[test]
fn negate_num() {
    assert_eq!(eval("5~"), [Num(-6)])
}

#[test]
fn negate_str() {
    assert_eq!(eval("\"1 2+\"~"), [Num(3)]);
}

#[test]
fn negate_block() {
    assert_eq!(eval("{1 2+}~"), [Num(3)]);
}

#[test]
fn negate_array() {
    assert_eq!(eval("[1 2 3]~"), [Num(1), Num(2), Num(3)]);
}

// test`
#[test]
fn backtick_num() {
    assert_eq!(eval("1`"), [s("1")]);
}

#[test]
fn backtick_array() {
    assert_eq!(eval("[1 [2] \"asdf\"]`"), [s("[1 [2] \"asdf\"]")]);
}

#[test]
fn backtick_str() {
    assert_eq!(eval("\"1\"`"), [s("\"1\"")]);
}

#[test]
fn backtick_block() {
    assert_eq!(eval("{1}`"), [s("{1}")]);
}

// test!
#[test]
fn exclaim_num() {
    assert_eq!(eval("0!"), [Num(1)]);
    assert_eq!(eval("1!"), [Num(0)]);
}

#[test]
fn exclaim_array() {
    assert_eq!(eval("[]!"), [Num(1)]);
    assert_eq!(eval("[1 4]!"), [Num(0)]);
}

#[test]
fn exclaim_str() {
    assert_eq!(eval("\"\"!"), [Num(1)]);
    assert_eq!(eval("\"asdf\"!"), [Num(0)]);
}

#[test]
fn exclaim_block() {
    assert_eq!(eval("{}!"), [Num(1)]);
    assert_eq!(eval("{5}!"), [Num(0)]);
}

// test@
#[test]
fn at() {
    assert_eq!(eval("1 2 3 4 @"), [Num(1), Num(3), Num(4), Num(2)]);
}

// test#
#[test]
fn hash() {
    assert_eq!(eval("1 # Here is a comment"), [Num(1)]);
}

// test$
#[test]
fn dollar_num() {
    assert_eq!(
        eval("1 2 3 4 5 1$"),
        [Num(1), Num(2), Num(3), Num(4), Num(5), Num(4)]
    );
}

#[test]
fn dollar_str() {
    assert_eq!(eval("\"asdf\"$"), [s("adfs")]);
}

#[test]
fn dollar_array() {
    assert_eq!(
        eval("[5 4 3 1 2]$"),
        [Array(vec![Num(1), Num(2), Num(3), Num(4), Num(5)])]
    );
    assert_eq!(
        eval("[\"ccc\" \"bbb\" \"aaa\"]$"),
        [Array(vec![s("aaa"), s("bbb"), s("ccc")])]
    );
}

#[test]
fn dollar_block() {
    assert_eq!(
        eval("[5 4 3 1 2]{-1*}$"),
        [Array(vec![Num(5), Num(4), Num(3), Num(2), Num(1)])]
    );
    assert_eq!(eval("\"asdf\"{\"\"+}$"), [s("adfs")]);
}

// test+
#[test]
fn add_num() {
    assert_eq!(eval("5 7+"), [Num(12)]);
}

#[test]
fn add_str() {
    assert_eq!(eval("\"a\"\"b\"+"), [s("ab")]);
}

#[test]
fn add_array() {
    assert_eq!(eval("[1][2]+"), [Array(vec![Num(1), Num(2)])]);
}

#[test]
fn add_block() {
    assert_eq!(eval("{1}{2-}+"), [Block(vec![Num(1), Num(2), var("-")])]);
}

#[test]
fn add_coercion() {
    // to block
    assert_eq!(eval("\"a\"{2}+"), [Block(vec![s("a"), Num(2)])]);
    assert_eq!(eval("[1 2]{2}+"), [Block(vec![Num(1), Num(2), Num(2)])]);
    assert_eq!(eval("1{2}+"), [Block(vec![Num(1), Num(2)])]);

    // to string
    assert_eq!(eval("[50]\"b\"+"), [s("2b")]);
    assert_eq!(eval("1\"b\"+"), [s("1b")]);

    // to array
    assert_eq!(eval("1[2]+"), [Array(vec![Num(1), Num(2)])]);
}

// test-
#[test]
fn sub_num() {
    assert_eq!(eval("-1"), [Num(-1)]);
    assert_eq!(eval("1 2-3+"), [Num(1), Num(-1)]);
    assert_eq!(eval("1 2 -3+"), [Num(1), Num(-1)]);
    assert_eq!(eval("1 2- 3+"), [Num(2)]);
}

#[test]
fn sub_array() {
    assert_eq!(
        eval("[5 2 5 4 1 1][1 2]-"),
        [Array(vec![Num(5), Num(5), Num(4)])]
    );
}

#[test]
fn sub_coercion() {
    assert_eq!(eval("[1 2 3]2-"), [Array(vec![Num(1), Num(3)])]);
}

// test*
#[test]
fn mul_num() {
    assert_eq!(eval("2 4*"), [Num(8)]);
    assert_eq!(eval("4 2*"), [Num(8)]);
}

#[test]
fn mul_num_block() {
    assert_eq!(eval("2 {2*} 5*"), [Num(64)]);
    assert_eq!(eval("2 5 {2*}*"), [Num(64)]);
}

#[test]
fn mul_num_array() {
    assert_eq!(eval("[1 2] 2*"), [Array(vec![Num(1), Num(2), Num(1), Num(2)])]);
    assert_eq!(eval("2 [1 2]*"), [Array(vec![Num(1), Num(2), Num(1), Num(2)])]);
}

#[test]
fn mul_num_str() {
    assert_eq!(eval("\"asdf\"3*"), [s("asdfasdfasdf")]);
    assert_eq!(eval("3\"asdf\"*"), [s("asdfasdfasdf")]);
}

#[test]
fn mul_join_array_str() {
    assert_eq!(eval("[1 2]\",\"*"), [s("1,2")]);
    assert_eq!(eval("\",\"[1 2]*"), [s("1,2")]);
    assert_eq!(
        eval("[1 [2] [3 [4 [5]]]]\"-\"*"),
        [s("1-\u{2}-\u{3}\u{4}\u{5}")]
    );
    assert_eq!(
        eval("\"-\"[1 [2] [3 [4 [5]]]]*"),
        [s("1-\u{2}-\u{3}\u{4}\u{5}")]
    );
}

#[test]
fn mul_join_array_array() {
    assert_eq!(eval("[1 2][4]*"), [Array(vec![Num(1), Num(4), Num(2)])]);
    assert_eq!(
        eval("[1 [2] [3 [4 [5]]]] [6 7]*"),
        [Array(vec![
            Num(1),
            Num(6),
            Num(7),
            Num(2),
            Num(6),
            Num(7),
            Num(3),
            Array(vec![Num(4), Array(vec![Num(5)])])
        ])]
    );
}

#[test]
fn mul_join_str_str() {
    assert_eq!(eval("\"asdf\"\" \"*"), [s("a s d f")]);
}

#[test]
fn mul_fold_array() {
    assert_eq!(eval("[1 2 3 4]{+}*"), [Num(10)]);
    assert_eq!(eval("{+}[1 2 3 4]*"), [Num(10)]);
}

#[test]
fn mul_fold_str() {
    assert_eq!(eval("\"asdf\"{+}*"), [Num(414)]);
    assert_eq!(eval("{+}\"asdf\"*"), [Num(414)]);
}

// test/
#[test]
fn div_num() {
    assert_eq!(eval("7 3/"), [Num(2)]);
}

#[test]
fn div_split_array() {
    assert_eq!(
        eval("[1 2 3 4 2 3 5][2 3]/"),
        [Array(vec![
            Array(vec![Num(1)]),
            Array(vec![Num(4)]),
            Array(vec![Num(5)])
        ])]
    );
}

#[test]
fn div_split_str() {
    assert_eq!(
        eval("\"a s d f\"\" \"/"),
        [Array(vec![s("a"), s("s"), s("d"), s("f")])]
    );
}

#[test]
fn div_chunk() {
    assert_eq!(
        eval("[1 2 3 4 5]2/"),
        [Array(vec![
            Array(vec![Num(1), Num(2)]),
            Array(vec![Num(3), Num(4)]),
            Array(vec![Num(5)])
        ])]
    );
}

#[test]
fn div_unfold() {
    assert_eq!(
        eval("0 1 {10<}{.@+}/"),
        [
            Num(8),
            Array(vec![Num(1), Num(1), Num(2), Num(3), Num(5), Num(8)])
        ]
    );
}

#[test]
fn div_each() {
    assert_eq!(eval("[1 2 3]{1+}/"), [Num(2), Num(3), Num(4)]);
}

// test%
#[test]
fn mod_num() {
    assert_eq!(eval("7 3%"), [Num(1)]);
}

#[test]
fn mod_split_str() {
    assert_eq!(eval("\"assdfs\" \"s\"%"), [Array(vec![s("a"), s("df")])]);
}

#[test]
fn mod_array() {
    assert_eq!(eval("[1 2 3 4 5] 2%"), [Array(vec![Num(1), Num(3), Num(5)])]);
    assert_eq!(
        eval("[1 2 3 4 5] -1%"),
        [Array(vec![Num(5), Num(4), Num(3), Num(2), Num(1)])]
    );
}

#[test]
fn mod_map() {
    assert_eq!(
        eval("[1 2 3]{.}%"),
        [Array(vec![Num(1), Num(1), Num(2), Num(2), Num(3), Num(3)])]
    );
}

// test|
#[test]
fn or_num() {
    assert_eq!(eval("5 3|"), [Num(7)]);
}

#[test]
fn or_array() {
    assert_eq!(eval("[1 1 2 2][1 3]|"), [Array(vec![Num(1), Num(2), Num(3)])]);
}

#[test]
fn or_coercion() {
    assert_eq!(eval("[1 1 2 2] 3 |"), [Array(vec![Num(1), Num(2), Num(3)])]);
}

// test&
#[test]
fn and_num() {
    assert_eq!(eval("5 3&"), [Num(1)]);
}

#[test]
fn and_array() {
    assert_eq!(eval("[1 1 2 2][1 3]&"), [Array(vec![Num(1)])]);
}

#[test]
fn and_coercion() {
    assert_eq!(eval("[1 1 2 2] 1 &"), [Array(vec![Num(1)])]);
}

// test^
#[test]
fn xor_num() {
    assert_eq!(eval("5 3^"), [Num(6)]);
}

// test^
#[test]
fn xor_array() {
    assert_eq!(eval("[1 1 2 2][1 3]^"), [Array(vec![Num(2), Num(3)])]);
}

// test[]
#[test]
fn slice() {
    assert_eq!(eval("[1 2]"), [Array(vec![Num(1), Num(2)])]);
    assert_eq!(eval("1 2 [\\]"), [Array(vec![Num(2), Num(1)])]);
}

// test\
#[test]
fn swap() {
    assert_eq!(eval("1 2 3\\"), [Num(1), Num(3), Num(2)]);
}

//test: (assign)
#[test]
fn assign() {
    assert_eq!(eval("1:a a"), [Num(1), Num(1)]);
    assert_eq!(eval("1:a;a"), [Num(1)]);
}

#[test]
fn assign_block() {
    assert_eq!(eval("{-1*-}:plus;3 2 plus"), [Num(5)])
}

// test;
#[test]
fn pop_discard() {
    assert_eq!(eval("1;"), []);
    assert_eq!(eval("2 1;"), [Num(2)]);
}

// test<
#[test]
fn lt_num() {
    assert_eq!(eval("3 4<"), [Num(1)]);
    assert_eq!(eval("6 4<"), [Num(0)]);
}

#[test]
fn lt_str() {
    assert_eq!(eval("\"asdf\"\"asdg\"<"), [Num(1)]);
    assert_eq!(eval("\"fdfg\"\"aaad\"<"), [Num(0)]);
}

#[test]
fn lt_array_num() {
    assert_eq!(eval("[1 2 3]2<"), [Array(vec![Num(1), Num(2)])]);
    assert_eq!(eval("[1 2 3]-2<"), [Array(vec![Num(1)])]);
}

#[test]
fn lt_str_num() {
    assert_eq!(eval("\"asdf\" 1 <"), [s("a")]);
    assert_eq!(eval("\"asdf\" -1 <"), [s("asd")]);
}

// test>
#[test]
fn gt_num() {
    assert_eq!(eval("3 4>"), [Num(0)]);
    assert_eq!(eval("5 4>"), [Num(1)]);
}

#[test]
fn gt_str() {
    assert_eq!(eval("\"asdf\"\"asdg\">"), [Num(0)]);
    assert_eq!(eval("\"zzdf\"\"asdg\">"), [Num(1)]);
}

#[test]
fn gt_array_num() {
    assert_eq!(eval("[1 2 3]2>"), [Array(vec![Num(3)])]);
    assert_eq!(eval("[1 2 3]-2>"), [Array(vec![Num(2), Num(3)])]);
}

#[test]
fn gt_str_num() {
    assert_eq!(eval("\"asdf\" 1 >"), [s("sdf")]);
    assert_eq!(eval("\"asdf\" -1 >"), [s("f")]);
}

// test=
#[test]
fn eq_num() {
    assert_eq!(eval("3 4="), [Num(0)]);
    assert_eq!(eval("4 4="), [Num(1)]);
}

#[test]
fn eq_str() {
    assert_eq!(eval("\"asdf\"\"asdg\"="), [Num(0)]);
    assert_eq!(eval("\"asdg\"\"asdg\"="), [Num(1)]);
}

#[test]
fn eq_array() {
    assert_eq!(eval("[1 2 3] [1 1 3]="), [Num(0)]);
    assert_eq!(eval("[1 2 3] [1 2 3]="), [Num(1)]);
}

#[test]
fn eq_block() {
    assert_eq!(eval("{1 2 3} {1 1 3}="), [Num(0)]);
    assert_eq!(eval("{1 2 3} {1 2 3}="), [Num(1)]);
}

#[test]
fn eq_num_array() {
    assert_eq!(eval("[1 2 3]2="), [Num(3)]);
    assert_eq!(eval("[1 2 3]-1="), [Num(3)]);
}

#[test]
fn eq_num_str() {
    assert_eq!(eval("\"asdf\" -1 ="), [Num(102)]);
    assert_eq!(eval("\"asdf\" 2 ="), [Num(100)]);
}

//test,
#[test]
fn comma_num() {
    assert_eq!(eval("3,"), [Array(vec![Num(0), Num(1), Num(2)])]);
}

#[test]
fn comma_array() {
    assert_eq!(eval("[1,1,1],"), [Num(3)]);
    assert_eq!(eval("10,,"), [Num(10)]);
}

#[test]
fn comma_block() {
    assert_eq!(eval("5,{3%},"), [Array(vec![Num(1), Num(2), Num(4)])]);
}

// test.
#[test]
fn dot() {
    assert_eq!(eval("1."), [Num(1), Num(1)]);
    assert_eq!(eval("[1]."), [Array(vec![Num(1)]), Array(vec![Num(1)])]);
    assert_eq!(eval("\"asdf\"."), [s("asdf"), s("asdf")]);
    assert_eq!(eval("{1}."), [Block(vec![Num(1)]), Block(vec![Num(1)])]);
}

// test?
#[test]
fn qmark_num() {
    assert_eq!(eval("2 8?"), [Num(256)]);
}

#[test]
fn qmark_num_array() {
    assert_eq!(eval("5 [4 3 5 1]?"), [Num(2)]);
    assert_eq!(eval("10 [4 3 5 1]?"), [Num(-1)]);
}

#[test]
fn qmark_block_array() {
    assert_eq!(eval("[1 2 3 4 5 6] {.* 20>} ?"), [Num(5)]);
    assert_eq!(eval("[1 2 3 4 5 6] {.* -1=} ?"), []);
}

// test(
#[test]
fn dec_num() {
    assert_eq!(eval("5("), [Num(4)]);
}

#[test]
fn dec_array() {
    assert_eq!(eval("[1 2 3]("), [Array(vec![Num(2), Num(3)]), Num(1)]);
}

// test)
#[test]
fn inc_num() {
    assert_eq!(eval("5)"), [Num(6)]);
}

#[test]
fn inc_array() {
    assert_eq!(eval("[1 2 3])"), [Array(vec![Num(1), Num(2)]), Num(3)]);
}

//test lazy_bool
#[test]
fn lazy_bool_and() {
    assert_eq!(eval("5 {1 1+} and"), [Num(2)]);
}

#[test]
fn lazy_bool_or() {
    assert_eq!(eval("5 {1 0/} or"), [Num(5)]);
}

#[test]
fn lazy_bool_xor() {
    assert_eq!(eval("0 [3] xor"), [Array(vec![Num(3)])]);
    assert_eq!(eval("2 [3] xor"), [Num(0)]);
}

// test n
#[test]
fn builtin_n() {
    assert_eq!(eval("n"), [s("\n")]);
}

// test if
#[test]
fn builtin_if() {
    assert_eq!(eval("1 2 3if"), [Num(2)]);
    assert_eq!(eval("0 2 3if"), [Num(3)]);
}

#[test]
fn builtin_if_block() {
    assert_eq!(eval("0 2 {1.} if"), [Num(1), Num(1)]);
}

// test abs
#[test]
fn builtin_abs() {
    assert_eq!(eval("-2abs"), [Num(2)]);
}
