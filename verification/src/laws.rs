use vstd::prelude::*;

use crate::items::ItemV;
use crate::items::is_truthy;
use crate::items::upcast_arr;
use crate::items::upcast_arr_ok;
use crate::items::upcast_str;
use crate::items::upcast_str_ok;
use crate::items::upcast_blk;
use crate::items::upcast_blk_ok;
use crate::semantics::StateV;
use crate::semantics::Eval;
use crate::semantics::spec_eval;
use crate::semantics::step_token;
use crate::semantics::st_push;
use crate::semantics::st_pop;
use crate::semantics::clamp_markers;

verus! {

/// Every marker lies within the stack, as pushing markers and popping
/// values keep it.
pub open spec fn markers_ok(st: StateV) -> bool {
    forall|i: int| 0 <= i < st.markers.len() ==> 0 <= #[trigger] st.markers[i] <= st.stack.len()
}

/// The state after an operator that dipped one value below the top of
/// the entry stack: markers above that point were pulled down to it.
pub open spec fn with_stack(st: StateV, new_stack: Seq<ItemV>) -> StateV {
    StateV {
        stack: new_stack,
        markers: clamp_markers(st.markers, st.stack.len() - 1),
        ..st
    }
}

proof fn lemma_clamp_id(ms: Seq<int>, n: int)
    requires
        forall|i: int| 0 <= i < ms.len() ==> 0 <= #[trigger] ms[i] <= n,
    ensures
        clamp_markers(ms, n) == ms,
{
    assert(clamp_markers(ms, n) =~= ms);
}

proof fn lemma_clamp_mono(ms: Seq<int>, a: int, b: int)
    requires
        b <= a,
    ensures
        clamp_markers(clamp_markers(ms, a), b) == clamp_markers(ms, b),
        clamp_markers(clamp_markers(ms, b), a) == clamp_markers(ms, b),
{
    assert(clamp_markers(clamp_markers(ms, a), b) =~= clamp_markers(ms, b));
    assert(clamp_markers(clamp_markers(ms, b), a) =~= clamp_markers(ms, b));
}

/// A pop right after a push puts the state back, markers included.
proof fn lemma_pop_push(st: StateV, v: ItemV)
    requires
        markers_ok(st),
    ensures
        st_pop(st_push(st, v)) == st,
        markers_ok(st_push(st, v)),
{
    lemma_clamp_id(st.markers, st.stack.len() as int);
    assert(st_push(st, v).stack.drop_last() =~= st.stack);
    assert(st_pop(st_push(st, v)) =~= st);
}


/// What one operator token does, for the operators the laws use: the
/// name is unbound, so dispatch reaches the operator itself.
proof fn lemma_step_sym(st: StateV, name: Seq<char>, fuel: nat)
    requires
        fuel >= 1,
        !st.vars.contains_key(name),
    ensures
        name == "!"@ ==> step_token(st, ItemV::Var(name), fuel) == crate::semantics::step_not(st),
        name == "\\"@ ==> step_token(st, ItemV::Var(name), fuel) == crate::semantics::step_swap(
            st,
        ),
        name == "="@ ==> step_token(st, ItemV::Var(name), fuel) == crate::semantics::step_eq(st),
        name == "."@ ==> step_token(st, ItemV::Var(name), fuel) == crate::semantics::step_dup(st),
        name == ","@ ==> step_token(st, ItemV::Var(name), fuel) == crate::semantics::step_array(
            st,
            fuel,
        ),
        name == "["@ ==> step_token(st, ItemV::Var(name), fuel) == crate::semantics::step_marker(
            st,
        ),
        name == "]"@ ==> step_token(st, ItemV::Var(name), fuel) == crate::semantics::step_slice(
            st,
        ),
{
    reveal_strlit("+");
    reveal_strlit("-");
    reveal_strlit("!");
    reveal_strlit("@");
    reveal_strlit("$");
    reveal_strlit("*");
    reveal_strlit("/");
    reveal_strlit("%");
    reveal_strlit("|");
    reveal_strlit("&");
    reveal_strlit("^");
    reveal_strlit("\\");
    reveal_strlit(";");
    reveal_strlit("<");
    reveal_strlit(">");
    reveal_strlit("=");
    reveal_strlit(".");
    reveal_strlit("?");
    reveal_strlit("(");
    reveal_strlit(")");
    reveal_strlit("[");
    reveal_strlit("]");
    reveal_strlit("~");
    reveal_strlit("`");
    reveal_strlit(",");
    assert("+"@.len() == 1 && "+"@[0] == '+');
    assert("-"@.len() == 1 && "-"@[0] == '-');
    assert("!"@.len() == 1 && "!"@[0] == '!');
    assert("@"@.len() == 1 && "@"@[0] == '@');
    assert("$"@.len() == 1 && "$"@[0] == '$');
    assert("*"@.len() == 1 && "*"@[0] == '*');
    assert("/"@.len() == 1 && "/"@[0] == '/');
    assert("%"@.len() == 1 && "%"@[0] == '%');
    assert("|"@.len() == 1 && "|"@[0] == '|');
    assert("&"@.len() == 1 && "&"@[0] == '&');
    assert("^"@.len() == 1 && "^"@[0] == '^');
    assert("\\"@.len() == 1 && "\\"@[0] == '\\');
    assert(";"@.len() == 1 && ";"@[0] == ';');
    assert("<"@.len() == 1 && "<"@[0] == '<');
    assert(">"@.len() == 1 && ">"@[0] == '>');
    assert("="@.len() == 1 && "="@[0] == '=');
    assert("."@.len() == 1 && "."@[0] == '.');
    assert("?"@.len() == 1 && "?"@[0] == '?');
    assert("("@.len() == 1 && "("@[0] == '(');
    assert(")"@.len() == 1 && ")"@[0] == ')');
    assert("["@.len() == 1 && "["@[0] == '[');
    assert("]"@.len() == 1 && "]"@[0] == ']');
    assert("~"@.len() == 1 && "~"@[0] == '~');
    assert("`"@.len() == 1 && "`"@[0] == '`');
    assert(","@.len() == 1 && ","@[0] == ',');
}

/// Counting a counted range gives the count back: for every
/// non-negative machine integer n, the program `n , ,` pushes n.
pub proof fn law_range_count(st: StateV, n: int, fuel: nat)
    requires
        0 <= n <= i64::MAX,
        fuel >= 1,
        markers_ok(st),
        !st.vars.contains_key(","@),
    ensures
        spec_eval(st, seq![ItemV::Num(n), ItemV::Var(","@), ItemV::Var(","@)], fuel)
            == Eval::Next(st_push(st, ItemV::Num(n))),
{
    reveal_strlit("+");
    reveal_strlit("-");
    reveal_strlit("!");
    reveal_strlit("@");
    reveal_strlit("$");
    reveal_strlit("*");
    reveal_strlit("/");
    reveal_strlit("%");
    reveal_strlit("|");
    reveal_strlit("&");
    reveal_strlit("^");
    reveal_strlit("\\");
    reveal_strlit(";");
    reveal_strlit("<");
    reveal_strlit(">");
    reveal_strlit("=");
    reveal_strlit(".");
    reveal_strlit("?");
    reveal_strlit("(");
    reveal_strlit(")");
    reveal_strlit("[");
    reveal_strlit("]");
    reveal_strlit("~");
    reveal_strlit("`");
    reveal_strlit(",");
    let toks = seq![ItemV::Num(n), ItemV::Var(","@), ItemV::Var(","@)];
    let rest1 = seq![ItemV::Var(","@), ItemV::Var(","@)];
    let rest2 = seq![ItemV::Var(","@)];
    assert(toks.drop_first() =~= rest1);
    assert(rest1.drop_first() =~= rest2);
    assert(rest2.drop_first() =~= Seq::<ItemV>::empty());
    let st1 = st_push(st, ItemV::Num(n));
    lemma_pop_push(st, ItemV::Num(n));
    assert(step_token(st, toks[0], fuel) == Eval::Next(st1));
    assert(spec_eval(st, toks, fuel) == spec_eval(st1, rest1, fuel));
    let range = Seq::new(n as nat, |i: int| ItemV::Num(i));
    let st2 = st_push(st, ItemV::Array(range));
    lemma_step_sym(st1, ","@, fuel);
    assert(step_token(st1, rest1[0], fuel) == Eval::Next(st2));
    assert(spec_eval(st1, rest1, fuel) == spec_eval(st2, rest2, fuel));
    lemma_pop_push(st, ItemV::Array(range));
    assert(range.len() == n);
    lemma_step_sym(st2, ","@, fuel);
    assert(step_token(st2, rest2[0], fuel) == Eval::Next(st_push(st, ItemV::Num(n))));
    assert(spec_eval(st2, rest2, fuel) == spec_eval(
        st_push(st, ItemV::Num(n)),
        Seq::<ItemV>::empty(),
        fuel,
    ));
}

/// A value equals itself: with an array on top of the stack, the
/// program `. =` replaces it by 1.
pub proof fn law_self_equal(st: StateV, els: Seq<ItemV>, fuel: nat)
    requires
        fuel >= 1,
        markers_ok(st),
        !st.vars.contains_key("."@),
        !st.vars.contains_key("="@),
        st.stack.len() > 0,
        st.stack.last() == ItemV::Array(els),
    ensures
        spec_eval(st, seq![ItemV::Var("."@), ItemV::Var("="@)], fuel) == Eval::Next(
            with_stack(st, st.stack.drop_last().push(ItemV::Num(1))),
        ),
{
    reveal_strlit("+");
    reveal_strlit("-");
    reveal_strlit("!");
    reveal_strlit("@");
    reveal_strlit("$");
    reveal_strlit("*");
    reveal_strlit("/");
    reveal_strlit("%");
    reveal_strlit("|");
    reveal_strlit("&");
    reveal_strlit("^");
    reveal_strlit("\\");
    reveal_strlit(";");
    reveal_strlit("<");
    reveal_strlit(">");
    reveal_strlit("=");
    reveal_strlit(".");
    let toks = seq![ItemV::Var("."@), ItemV::Var("="@)];
    let rest1 = seq![ItemV::Var("="@)];
    assert(toks.drop_first() =~= rest1);
    assert(rest1.drop_first() =~= Seq::<ItemV>::empty());
    let a = st.stack.last();
    let len = st.stack.len() as int;
    let base = st_pop(st);
    // `.`
    let st1 = st_push(st_push(base, a), a);
    lemma_step_sym(st, "."@, fuel);
    assert(step_token(st, toks[0], fuel) == Eval::Next(st1));
    assert(spec_eval(st, toks, fuel) == spec_eval(st1, rest1, fuel));
    // `=`: both copies leave, 1 arrives
    assert(st1.stack.len() == len + 1);
    assert(st1.stack.last() == a);
    assert(st1.stack[st1.stack.len() - 2] == a);
    let st2 = st_pop(st_pop(st1));
    assert(st2.stack =~= base.stack);
    assert(st2.markers == clamp_markers(st.markers, len - 1)) by {
        assert(st1.stack.drop_last() =~= base.stack.push(a));
        lemma_clamp_mono(st.markers, len, len - 1);
        lemma_clamp_mono(st.markers, len - 1, len - 1);
    }
    lemma_step_sym(st1, "="@, fuel);
    assert(step_token(st1, rest1[0], fuel) == Eval::Next(st_push(st2, ItemV::Num(1))));
    assert(spec_eval(st1, rest1, fuel) == spec_eval(
        st_push(st2, ItemV::Num(1)),
        Seq::<ItemV>::empty(),
        fuel,
    ));
    assert(st_push(st2, ItemV::Num(1)) =~= with_stack(
        st,
        st.stack.drop_last().push(ItemV::Num(1)),
    ));
}

/// Indexing is repeatable: with an array on top and an index in range,
/// the program `. n = \ n =` leaves the same element twice.
pub proof fn law_index_twice(st: StateV, els: Seq<ItemV>, n: int, fuel: nat)
    requires
        fuel >= 1,
        markers_ok(st),
        !st.vars.contains_key("."@),
        !st.vars.contains_key("="@),
        !st.vars.contains_key("\\"@),
        0 <= n < els.len(),
        n <= i64::MAX,
        st.stack.len() > 0,
        st.stack.last() == ItemV::Array(els),
    ensures
        spec_eval(
            st,
            seq![
                ItemV::Var("."@),
                ItemV::Num(n),
                ItemV::Var("="@),
                ItemV::Var("\\"@),
                ItemV::Num(n),
                ItemV::Var("="@),
            ],
            fuel,
        ) == Eval::Next(
            with_stack(st, st.stack.drop_last().push(els[n]).push(els[n])),
        ),
{
    reveal_strlit("+");
    reveal_strlit("-");
    reveal_strlit("!");
    reveal_strlit("@");
    reveal_strlit("$");
    reveal_strlit("*");
    reveal_strlit("/");
    reveal_strlit("%");
    reveal_strlit("|");
    reveal_strlit("&");
    reveal_strlit("^");
    reveal_strlit("\\");
    reveal_strlit(";");
    reveal_strlit("<");
    reveal_strlit(">");
    reveal_strlit("=");
    reveal_strlit(".");
    let toks = seq![
        ItemV::Var("."@),
        ItemV::Num(n),
        ItemV::Var("="@),
        ItemV::Var("\\"@),
        ItemV::Num(n),
        ItemV::Var("="@),
    ];
    assert(toks.drop_first() =~= toks.subrange(1, 6));
    assert(toks.subrange(1, 6).drop_first() =~= toks.subrange(2, 6));
    assert(toks.subrange(2, 6).drop_first() =~= toks.subrange(3, 6));
    assert(toks.subrange(3, 6).drop_first() =~= toks.subrange(4, 6));
    assert(toks.subrange(4, 6).drop_first() =~= toks.subrange(5, 6));
    assert(toks.subrange(5, 6).drop_first() =~= Seq::<ItemV>::empty());
    assert(toks.subrange(1, 6)[0] == ItemV::Num(n));
    assert(toks.subrange(2, 6)[0] == ItemV::Var("="@));
    assert(toks.subrange(3, 6)[0] == ItemV::Var("\\"@));
    assert(toks.subrange(4, 6)[0] == ItemV::Num(n));
    assert(toks.subrange(5, 6)[0] == ItemV::Var("="@));
    let a = st.stack.last();
    let len = st.stack.len() as int;
    let base = st_pop(st);
    let ghost ms1 = clamp_markers(st.markers, len - 1);
    // `.`
    let st1 = st_push(st_push(base, a), a);
    lemma_step_sym(st, "."@, fuel);
    assert(step_token(st, toks[0], fuel) == Eval::Next(st1));
    assert(spec_eval(st, toks, fuel) == spec_eval(st1, toks.subrange(1, 6), fuel));
    // n
    let st2 = st_push(st1, ItemV::Num(n));
    assert(step_token(st1, ItemV::Num(n), fuel) == Eval::Next(st2));
    assert(spec_eval(st1, toks.subrange(1, 6), fuel) == spec_eval(
        st2,
        toks.subrange(2, 6),
        fuel,
    ));
    // `=`: index
    assert(st2.stack.last() == ItemV::Num(n));
    assert(st2.stack[st2.stack.len() - 2] == a);
    let st3p = st_pop(st_pop(st2));
    assert(st3p.stack =~= st1.stack.drop_last()) by {
        assert(st2.stack.drop_last() =~= st1.stack);
    }
    assert(st3p.stack =~= base.stack.push(a)) by {
        assert(st1.stack.drop_last() =~= base.stack.push(a));
    }
    assert(st3p.markers == ms1) by {
        lemma_clamp_mono(st.markers, len + 1, len - 1);
        lemma_clamp_mono(st.markers, len, len - 1);
        lemma_clamp_mono(st.markers, len - 1, len - 1);
    }
    let st3 = st_push(st3p, els[n]);
    lemma_step_sym(st2, "="@, fuel);
    assert(step_token(st2, ItemV::Var("="@), fuel) == Eval::Next(st3));
    assert(spec_eval(st2, toks.subrange(2, 6), fuel) == spec_eval(
        st3,
        toks.subrange(3, 6),
        fuel,
    ));
    // `\`
    assert(st3.stack.last() == els[n]);
    assert(st3.stack[st3.stack.len() - 2] == a);
    let st4p = st_pop(st_pop(st3));
    assert(st4p.stack =~= base.stack) by {
        assert(st3.stack.drop_last() =~= base.stack.push(a));
    }
    assert(st4p.markers == ms1) by {
        lemma_clamp_mono(st.markers, len, len - 1);
        lemma_clamp_mono(st.markers, len - 1, len - 1);
    }
    let st4 = st_push(st_push(st4p, els[n]), a);
    lemma_step_sym(st3, "\\"@, fuel);
    assert(step_token(st3, ItemV::Var("\\"@), fuel) == Eval::Next(st4));
    assert(spec_eval(st3, toks.subrange(3, 6), fuel) == spec_eval(
        st4,
        toks.subrange(4, 6),
        fuel,
    ));
    // n
    let st5 = st_push(st4, ItemV::Num(n));
    assert(step_token(st4, ItemV::Num(n), fuel) == Eval::Next(st5));
    assert(spec_eval(st4, toks.subrange(4, 6), fuel) == spec_eval(
        st5,
        toks.subrange(5, 6),
        fuel,
    ));
    // `=` again
    assert(st5.stack.last() == ItemV::Num(n));
    assert(st5.stack[st5.stack.len() - 2] == a);
    let st6p = st_pop(st_pop(st5));
    assert(st6p.stack =~= base.stack.push(els[n])) by {
        assert(st5.stack.drop_last() =~= st4.stack);
        assert(st4.stack.drop_last() =~= base.stack.push(els[n]));
    }
    assert(st6p.markers == ms1) by {
        lemma_clamp_mono(st.markers, len + 1, len - 1);
        lemma_clamp_mono(st.markers, len, len - 1);
        lemma_clamp_mono(st.markers, len - 1, len - 1);
    }
    let fin = st_push(st6p, els[n]);
    lemma_step_sym(st5, "="@, fuel);
    assert(step_token(st5, ItemV::Var("="@), fuel) == Eval::Next(fin));
    assert(spec_eval(st5, toks.subrange(5, 6), fuel) == spec_eval(
        fin,
        Seq::<ItemV>::empty(),
        fuel,
    ));
    assert(fin =~= with_stack(st, st.stack.drop_last().push(els[n]).push(els[n])));
}

/// Double negation is the truth value: with any value on top, the
/// program `! !` replaces it by 1 when it was true and by 0 when it
/// was false.
pub proof fn law_double_not(st: StateV, fuel: nat)
    requires
        fuel >= 1,
        markers_ok(st),
        !st.vars.contains_key("!"@),
        st.stack.len() > 0,
    ensures
        spec_eval(st, seq![ItemV::Var("!"@), ItemV::Var("!"@)], fuel) == Eval::Next(
            with_stack(
                st,
                st.stack.drop_last().push(
                    ItemV::Num(if is_truthy(st.stack.last()) { 1int } else { 0int }),
                ),
            ),
        ),
{
    reveal_strlit("+");
    reveal_strlit("-");
    reveal_strlit("!");
    let toks = seq![ItemV::Var("!"@), ItemV::Var("!"@)];
    let rest1 = seq![ItemV::Var("!"@)];
    assert(toks.drop_first() =~= rest1);
    assert(rest1.drop_first() =~= Seq::<ItemV>::empty());
    let x = st.stack.last();
    let len = st.stack.len() as int;
    let base = st_pop(st);
    let first = ItemV::Num(if is_truthy(x) { 0int } else { 1int });
    let st1 = st_push(base, first);
    lemma_step_sym(st, "!"@, fuel);
    assert(step_token(st, toks[0], fuel) == Eval::Next(st1));
    assert(spec_eval(st, toks, fuel) == spec_eval(st1, rest1, fuel));
    assert(st_pop(st1) =~= base) by {
        assert(st1.stack.drop_last() =~= base.stack);
        lemma_clamp_mono(st.markers, len - 1, len - 1);
    }
    assert(is_truthy(first) == !is_truthy(x));
    let fin = st_push(base, ItemV::Num(if is_truthy(x) { 1int } else { 0int }));
    lemma_step_sym(st1, "!"@, fuel);
    assert(step_token(st1, rest1[0], fuel) == Eval::Next(fin));
    assert(spec_eval(st1, rest1, fuel) == spec_eval(fin, Seq::<ItemV>::empty(), fuel));
    assert(fin =~= with_stack(
        st,
        st.stack.drop_last().push(ItemV::Num(if is_truthy(x) { 1int } else { 0int })),
    ));
}

/// The upcasts are idempotent within their target kinds.
pub proof fn law_upcast_idempotent(v: ItemV)
    ensures
        upcast_str_ok(v) ==> upcast_str_ok(upcast_str(v)) && upcast_str(upcast_str(v))
            == upcast_str(v),
        upcast_arr_ok(v) ==> upcast_arr_ok(upcast_arr(v)) && upcast_arr(upcast_arr(v))
            == upcast_arr(v),
        upcast_blk_ok(v) ==> upcast_blk_ok(upcast_blk(v)) && upcast_blk(upcast_blk(v))
            == upcast_blk(v),
{
}

} // verus!

verus! {

use crate::items::dec_chars;
use crate::items::dec_digits;
use crate::lexer::spec_lex;
use crate::lexer::spec_lex_from;
use crate::lexer::spec_lex_item;
use crate::lexer::LexStep;
use crate::lexer::advance;
use crate::lexer::scan_num;
use crate::lexer::is_dec_digit;
use crate::lexer::is_space;
use crate::lexer::is_symbol;

/// The running value of a left-to-right digit scan.
pub open spec fn run_val(ds: Seq<char>, acc: int) -> int
    decreases ds.len(),
{
    if ds.len() == 0 {
        acc
    } else {
        run_val(ds.drop_first(), acc * 10 + (ds[0] as u32 - 48))
    }
}

/// No step of the scan leaves the 64-bit range.
pub open spec fn scan_fits(ds: Seq<char>, acc: int) -> bool
    decreases ds.len(),
{
    ds.len() == 0 || (acc * 10 + (ds[0] as u32 - 48) <= i64::MAX && scan_fits(
        ds.drop_first(),
        acc * 10 + (ds[0] as u32 - 48),
    ))
}

proof fn lemma_run_val_push(ds: Seq<char>, d: char, acc: int)
    ensures
        run_val(ds.push(d), acc) == run_val(ds, acc) * 10 + (d as u32 - 48),
        scan_fits(ds.push(d), acc) == (scan_fits(ds, acc) && run_val(ds, acc) * 10 + (
        d as u32 - 48) <= i64::MAX),
    decreases ds.len(),
{
    reveal_with_fuel(run_val, 3);
    reveal_with_fuel(scan_fits, 3);
    if ds.len() == 0 {
        assert(ds.push(d).drop_first() =~= Seq::<char>::empty());
        assert(ds.push(d)[0] == d);
    } else {
        assert(ds.push(d).drop_first() =~= ds.drop_first().push(d));
        assert(ds.push(d)[0] == ds[0]);
        lemma_run_val_push(ds.drop_first(), d, acc * 10 + (ds[0] as u32 - 48));
    }
}

/// Every character of a decimal rendering is a digit.
proof fn lemma_dec_digits_are_digits(m: int)
    requires
        m >= 0,
    ensures
        dec_digits(m).len() >= 1,
        forall|i: int| 0 <= i < dec_digits(m).len() ==> is_dec_digit(#[trigger] dec_digits(m)[i]),
    decreases m,
{
    if m < 10 {
        assert(dec_digits(m) == seq![crate::items::digit_char(m)]);
        assert((48 + m) as char as u32 == 48 + m);
    } else {
        lemma_dec_digits_are_digits(m / 10);
        assert((48 + m % 10) as char as u32 == 48 + m % 10);
        assert(forall|i: int| 0 <= i < dec_digits(m).len() - 1 ==> dec_digits(m)[i]
            == dec_digits(m / 10)[i]);
    }
}

/// Scanning the decimal rendering of m from zero yields m, within the
/// 64-bit range at every step.
proof fn lemma_dec_digits_value(m: int)
    requires
        0 <= m <= i64::MAX,
    ensures
        run_val(dec_digits(m), 0) == m,
        scan_fits(dec_digits(m), 0),
    decreases m,
{
    reveal_with_fuel(run_val, 3);
    reveal_with_fuel(scan_fits, 3);
    if m < 10 {
        let d = crate::items::digit_char(m);
        assert((48 + m) as char as u32 == 48 + m);
        assert(dec_digits(m) == seq![d]);
        assert(seq![d].drop_first() =~= Seq::<char>::empty());
        assert(run_val(seq![d], 0) == m);
    } else {
        lemma_dec_digits_value(m / 10);
        let d = crate::items::digit_char(m % 10);
        assert((48 + m % 10) as char as u32 == 48 + m % 10);
        lemma_run_val_push(dec_digits(m / 10), d, 0);
        assert(run_val(dec_digits(m), 0) == (m / 10) * 10 + m % 10);
        assert((m / 10) * 10 + m % 10 == m);
    }
}

/// A digit run followed by a boundary scans to its running value.
proof fn lemma_scan_run(s: Seq<char>, pos: int, l: int, acc: int)
    requires
        0 <= pos,
        0 <= l,
        pos + l <= s.len(),
        forall|i: int| pos <= i < pos + l ==> is_dec_digit(#[trigger] s[i]),
        pos + l == s.len() || !is_dec_digit(s[pos + l]),
        0 <= acc,
        scan_fits(s.subrange(pos, pos + l), acc),
    ensures
        scan_num(s, pos, acc) == Some((run_val(s.subrange(pos, pos + l), acc), pos + l)),
    decreases l,
{
    let ds = s.subrange(pos, pos + l);
    if l == 0 {
        assert(run_val(ds, acc) == acc);
    } else {
        assert(is_dec_digit(s[pos]));
        assert(ds[0] == s[pos]);
        let a2 = acc * 10 + (s[pos] as u32 - 48);
        assert(ds.drop_first() =~= s.subrange(pos + 1, pos + l));
        assert(a2 <= i64::MAX);
        assert(a2 >= 0);
        lemma_scan_run(s, pos + 1, l - 1, a2);
    }
}

/// A decimal rendering is one number token: the lexer turns the
/// display form of an integer back into that integer, and evaluating
/// the token pushes it. The most negative machine integer is the one
/// value whose rendering does not scan back.
pub proof fn law_display_lex_int(st: StateV, n: int, fuel: nat)
    requires
        -i64::MAX <= n <= i64::MAX,
        fuel >= 1,
    ensures
        spec_lex(dec_chars(n)) == Some(seq![ItemV::Num(n)]),
        spec_eval(st, seq![ItemV::Num(n)], fuel) == Eval::Next(st_push(st, ItemV::Num(n))),
{
    let s = dec_chars(n);
    let m = if n < 0 { -n } else { n };
    let ds = dec_digits(m);
    let l = ds.len() as int;
    lemma_dec_digits_are_digits(m);
    lemma_dec_digits_value(m);
    let off: int = if n < 0 { 1 } else { 0 };
    assert(s.len() == off + l);
    assert(s.subrange(off, off + l) =~= ds);
    assert(forall|i: int| off <= i < off + l ==> is_dec_digit(#[trigger] s[i]));
    lemma_scan_run(s, off, l, 0);
    assert(scan_num(s, off, 0) == Some((m, s.len() as int)));
    // the first character is not skipped or misread
    if n < 0 {
        assert(s[0] == '-');
        assert(!('-' as u32 == 35));
        assert(!is_space('-')) by {
            assert('-' as u32 == 45);
        }
        assert(s[1] == ds[0]);
        assert(is_dec_digit(s[1]));
        assert(spec_lex_item(s, 0) == LexStep::Tok(
            ItemV::Num(n),
            advance(s.len() as int, 0, s.len() as int),
        ));
    } else {
        assert(s == ds);
        assert(is_dec_digit(s[0]));
        assert(48 <= s[0] as u32 <= 57);
        assert(!(s[0] == '#')) by {
            assert('#' as u32 == 35);
        }
        assert(!is_space(s[0]));
        assert(!(s[0] == '"')) by {
            assert('"' as u32 == 34);
        }
        assert(!(s[0] == '{')) by {
            assert('{' as u32 == 123);
        }
        assert(spec_lex_item(s, 0) == LexStep::Tok(
            ItemV::Num(n),
            advance(s.len() as int, 0, s.len() as int),
        ));
    }
    assert(advance(s.len() as int, 0, s.len() as int) == s.len() as int);
    assert(spec_lex_item(s, s.len() as int) == LexStep::End);
    assert(spec_lex_from(s, 0, Seq::empty()) == spec_lex_from(
        s,
        s.len() as int,
        seq![ItemV::Num(n)],
    ));
    assert(spec_lex(s) == Some(seq![ItemV::Num(n)]));
    // the token evaluates to a push
    let toks = seq![ItemV::Num(n)];
    assert(step_token(st, toks[0], fuel) == Eval::Next(st_push(st, ItemV::Num(n))));
    assert(toks.drop_first() =~= Seq::<ItemV>::empty());
    assert(spec_eval(st, toks, fuel) == spec_eval(
        st_push(st, ItemV::Num(n)),
        Seq::<ItemV>::empty(),
        fuel,
    ));
}

} // verus!

verus! {

use crate::items::escape_nl;
use crate::lexer::scan_str;
use crate::lexer::replace2;

/// Without newlines, the display escaping changes nothing.
proof fn lemma_escape_plain(s: Seq<char>)
    requires
        forall|i: int| 0 <= i < s.len() ==> s[i] != '\n',
    ensures
        escape_nl(s) == s,
    decreases s.len(),
{
    if s.len() > 0 {
        lemma_escape_plain(s.drop_last());
        assert(escape_nl(s) =~= s);
    } else {
        assert(escape_nl(s) =~= s);
    }
}

/// Without backslashes, the escape rewriting changes nothing.
proof fn lemma_replace2_plain(s: Seq<char>, p1: char, r: char)
    requires
        forall|i: int| 0 <= i < s.len() ==> s[i] != '\\',
    ensures
        replace2(s, '\\', p1, r) == s,
    decreases s.len(),
{
    if s.len() > 0 {
        assert(s.skip(1) =~= s.drop_first());
        assert(forall|i: int| 0 <= i < s.drop_first().len() ==> s.drop_first()[i] != '\\');
        lemma_replace2_plain(s.drop_first(), p1, r);
        assert(replace2(s, '\\', p1, r) =~= s);
    } else {
        assert(replace2(s, '\\', p1, r) =~= s);
    }
}

/// A run of plain characters up to a closing quote scans to exactly
/// those characters.
proof fn lemma_scan_str_plain(t: Seq<char>, pos: int, k: int, acc: Seq<char>)
    requires
        0 <= pos,
        0 <= k,
        pos + k < t.len(),
        forall|i: int| pos <= i < pos + k ==> t[i] != '\\' && #[trigger] t[i] != '"',
        t[pos + k] == '"',
    ensures
        scan_str(t, pos, acc) == Some((acc + t.subrange(pos, pos + k), pos + k + 1)),
    decreases k,
{
    if k == 0 {
        assert(acc + t.subrange(pos, pos) =~= acc);
    } else {
        lemma_scan_str_plain(t, pos + 1, k - 1, acc.push(t[pos]));
        assert(acc.push(t[pos]) + t.subrange(pos + 1, pos + k) =~= acc + t.subrange(
            pos,
            pos + k,
        ));
    }
}

/// A quoted plain string is one string token: the lexer turns the
/// display form of a string without quotes, backslashes and newlines
/// back into that string, and evaluating the token pushes it.
pub proof fn law_display_lex_str(st: StateV, s: Seq<char>, fuel: nat)
    requires
        fuel >= 1,
        forall|i: int| 0 <= i < s.len() ==> s[i] != '"' && #[trigger] s[i] != '\\' && s[i]
            != '\n',
    ensures
        spec_lex(crate::items::disp(ItemV::Str(s))) == Some(seq![ItemV::Str(s)]),
        spec_eval(st, seq![ItemV::Str(s)], fuel) == Eval::Next(st_push(st, ItemV::Str(s))),
{
    lemma_escape_plain(s);
    let t = crate::items::disp(ItemV::Str(s));
    assert(t == seq!['"'] + s + seq!['"']);
    assert(t.len() == s.len() + 2);
    assert(t[0] == '"');
    assert(forall|i: int| 1 <= i < s.len() as int + 1 ==> #[trigger] t[i] == s[i - 1]);
    assert(t[s.len() as int + 1] == '"');
    assert(forall|i: int| 1 <= i < s.len() as int + 1 ==> t[i] != '\\' && #[trigger] t[i] != '"');
    lemma_scan_str_plain(t, 1, s.len() as int, Seq::empty());
    assert(Seq::empty() + t.subrange(1, s.len() as int + 1) =~= s);
    assert(scan_str(t, 1, Seq::empty()) == Some((s, t.len() as int)));
    lemma_replace2_plain(s, '\\', '\\');
    lemma_replace2_plain(s, '"', '"');
    assert(!('"' as u32 == 35));
    assert(!is_space('"')) by {
        assert('"' as u32 == 34);
    }
    assert(spec_lex_item(t, 0) == LexStep::Tok(
        ItemV::Str(s),
        advance(t.len() as int, 0, t.len() as int),
    ));
    assert(advance(t.len() as int, 0, t.len() as int) == t.len() as int);
    assert(spec_lex_item(t, t.len() as int) == LexStep::End);
    assert(spec_lex_from(t, 0, Seq::empty()) == spec_lex_from(
        t,
        t.len() as int,
        seq![ItemV::Str(s)],
    ));
    assert(spec_lex(t) == Some(seq![ItemV::Str(s)]));
    let toks = seq![ItemV::Str(s)];
    assert(step_token(st, toks[0], fuel) == Eval::Next(st_push(st, ItemV::Str(s))));
    assert(toks.drop_first() =~= Seq::<ItemV>::empty());
    assert(spec_eval(st, toks, fuel) == spec_eval(
        st_push(st, ItemV::Str(s)),
        Seq::<ItemV>::empty(),
        fuel,
    ));
}

} // verus!

verus! {

use crate::items::disp;
use crate::items::disp_list;

/// One decimal rendering inside a larger text is one number token.
proof fn lemma_lex_one_num(t: Seq<char>, pos: int, n: int)
    requires
        -i64::MAX <= n <= i64::MAX,
        0 <= pos,
        pos + dec_chars(n).len() <= t.len(),
        t.subrange(pos, pos + dec_chars(n).len() as int) == dec_chars(n),
        pos + dec_chars(n).len() == t.len() || !is_dec_digit(t[pos + dec_chars(n).len()]),
    ensures
        dec_chars(n).len() >= 1,
        spec_lex_item(t, pos) == LexStep::Tok(
            ItemV::Num(n),
            pos + dec_chars(n).len(),
        ),
{
    let m = if n < 0 { -n } else { n };
    let ds = dec_digits(m);
    let l = ds.len() as int;
    lemma_dec_digits_are_digits(m);
    lemma_dec_digits_value(m);
    let off: int = if n < 0 { pos + 1 } else { pos };
    let dl = dec_chars(n).len() as int;
    assert forall|i: int| 0 <= i < l implies t.subrange(off, off + l)[i] == ds[i] by {
        assert(t.subrange(off, off + l)[i] == t[off + i]);
        assert(t[off + i] == t.subrange(pos, pos + dl)[off - pos + i]);
        if n < 0 {
            assert(dec_chars(n)[1 + i] == ds[i]);
        }
    }
    assert(t.subrange(off, off + l) =~= ds);
    assert(forall|i: int| off <= i < off + l ==> is_dec_digit(#[trigger] t[i])) by {
        assert(forall|i: int| off <= i < off + l ==> #[trigger] t[i] == t.subrange(
            off,
            off + l,
        )[i - off]);
    }
    lemma_scan_run(t, off, l, 0);
    assert(scan_num(t, off, 0) == Some((m, pos + dl)));
    if n < 0 {
        assert(t[pos] == dec_chars(n)[0]);
        assert(t[pos] == '-');
        assert(!('-' as u32 == 35));
        assert(!is_space('-')) by {
            assert('-' as u32 == 45);
        }
        assert(t[pos + 1] == ds[0]);
        assert(is_dec_digit(t[pos + 1]));
        assert(spec_lex_item(t, pos) == LexStep::Tok(
            ItemV::Num(n),
            advance(pos + dl, pos, t.len() as int),
        ));
    } else {
        assert(t[pos] == ds[0]);
        assert(is_dec_digit(t[pos]));
        assert(48 <= t[pos] as u32 <= 57);
        assert(!(t[pos] == '#')) by {
            assert('#' as u32 == 35);
        }
        assert(!is_space(t[pos]));
        assert(!(t[pos] == '"')) by {
            assert('"' as u32 == 34);
        }
        assert(!(t[pos] == '{')) by {
            assert('{' as u32 == 123);
        }
        assert(spec_lex_item(t, pos) == LexStep::Tok(
            ItemV::Num(n),
            advance(pos + dl, pos, t.len() as int),
        ));
    }
    assert(advance(pos + dl, pos, t.len() as int) == pos + dl);
}

/// The decimal renderings of a row of integers, single spaces between
/// them.
pub open spec fn nums_text(ns: Seq<int>) -> Seq<char>
    decreases ns.len(),
{
    if ns.len() == 0 {
        Seq::empty()
    } else if ns.len() == 1 {
        dec_chars(ns[0])
    } else {
        dec_chars(ns[0]) + seq![' '] + nums_text(ns.drop_first())
    }
}

/// The number tokens of a row of integers.
pub open spec fn num_toks(ns: Seq<int>) -> Seq<ItemV> {
    ns.map_values(|n: int| ItemV::Num(n))
}

/// The row text is the display of the corresponding values.
proof fn lemma_nums_text_push(ns: Seq<int>, n: int)
    ensures
        nums_text(ns.push(n)) == if ns.len() == 0 {
            dec_chars(n)
        } else {
            nums_text(ns) + seq![' '] + dec_chars(n)
        },
    decreases ns.len(),
{
    if ns.len() == 0 {
        assert(nums_text(ns.push(n)) == dec_chars(ns.push(n)[0]));
    } else {
        assert(ns.push(n).drop_first() =~= ns.drop_first().push(n));
        assert(ns.push(n)[0] == ns[0]);
        lemma_nums_text_push(ns.drop_first(), n);
        if ns.len() == 1 {
            assert(nums_text(ns.push(n)) =~= nums_text(ns) + seq![' '] + dec_chars(n));
        } else {
            assert(nums_text(ns.push(n)) =~= nums_text(ns) + seq![' '] + dec_chars(n));
        }
    }
}

proof fn lemma_disp_list_nums(ns: Seq<int>)
    ensures
        disp_list(num_toks(ns)) == nums_text(ns),
    decreases ns.len(),
{
    if ns.len() == 0 {
        assert(num_toks(ns).len() == 0);
    } else if ns.len() == 1 {
        assert(num_toks(ns).len() == 1);
        assert(disp_list(num_toks(ns)) == disp(num_toks(ns)[0]));
        assert(disp(ItemV::Num(ns[0])) == dec_chars(ns[0]));
    } else {
        lemma_disp_list_nums(ns.drop_last());
        assert(num_toks(ns).drop_last() =~= num_toks(ns.drop_last()));
        assert(num_toks(ns).last() == ItemV::Num(ns.last()));
        assert(disp(ItemV::Num(ns.last())) == dec_chars(ns.last()));
        assert(disp_list(num_toks(ns)) == disp_list(num_toks(ns.drop_last())) + seq![' ']
            + disp(num_toks(ns).last()));
        lemma_nums_text_push(ns.drop_last(), ns.last());
        assert(ns.drop_last().push(ns.last()) =~= ns);
        assert(nums_text(ns.drop_last().push(ns.last())) == nums_text(ns));
    }
}

/// A row of renderings inside a text, closed by `]`, lexes to its
/// number tokens, one after the other.
proof fn lemma_lex_num_row(t: Seq<char>, pos: int, ns: Seq<int>, acc: Seq<ItemV>)
    requires
        0 <= pos,
        pos + nums_text(ns).len() < t.len(),
        forall|i: int| 0 <= i < ns.len() ==> -i64::MAX <= #[trigger] ns[i] <= i64::MAX,
        t.subrange(pos, pos + nums_text(ns).len() as int) == nums_text(ns),
        t[pos + nums_text(ns).len()] == ']',
    ensures
        spec_lex_from(t, pos, acc) == spec_lex_from(
            t,
            pos + nums_text(ns).len(),
            acc + num_toks(ns),
        ),
    decreases ns.len(),
{
    let bl = nums_text(ns).len() as int;
    assert(!is_dec_digit(']')) by {
        assert(']' as u32 == 93);
    }
    assert(!is_dec_digit(' ')) by {
        assert(' ' as u32 == 32);
    }
    if ns.len() == 0 {
        assert(acc + num_toks(ns) =~= acc);
    } else {
        let n0 = ns[0];
        let d0 = dec_chars(n0);
        let dl = d0.len() as int;
        if ns.len() == 1 {
            assert(nums_text(ns) == d0);
            assert(t.subrange(pos, pos + dl) =~= d0);
            lemma_lex_one_num(t, pos, n0);
            assert(spec_lex_from(t, pos, acc) == spec_lex_from(
                t,
                advance(pos + dl, pos, t.len() as int),
                acc.push(ItemV::Num(n0)),
            ));
            assert(advance(pos + dl, pos, t.len() as int) == pos + dl);
            assert(acc.push(ItemV::Num(n0)) =~= acc + num_toks(ns));
        } else {
            let rest = ns.drop_first();
            assert(nums_text(ns) == d0 + seq![' '] + nums_text(rest));
            assert forall|i: int| 0 <= i < dl implies t.subrange(pos, pos + dl)[i] == d0[i] by {
                assert(t.subrange(pos, pos + dl)[i] == t[pos + i]);
                assert(t[pos + i] == t.subrange(pos, pos + bl)[i]);
                assert(nums_text(ns)[i] == (d0 + seq![' '] + nums_text(ns.drop_first()))[i]);
            }
            assert(t.subrange(pos, pos + dl) =~= d0);
            assert(t[pos + dl] == ' ') by {
                assert(t[pos + dl] == t.subrange(pos, pos + bl)[dl]);
                assert(nums_text(ns)[dl] == (d0 + seq![' '] + nums_text(ns.drop_first()))[dl]);
            }
            lemma_lex_one_num(t, pos, n0);
            let p1 = pos + dl;
            assert(spec_lex_from(t, pos, acc) == spec_lex_from(
                t,
                advance(p1, pos, t.len() as int),
                acc.push(ItemV::Num(n0)),
            ));
            assert(advance(p1, pos, t.len() as int) == p1);
            // the space before the next number is skipped
            let p2 = p1 + 1;
            assert(is_space(' ')) by {
                assert(' ' as u32 == 32);
            }
            assert(!(t[p1] == '#')) by {
                assert('#' as u32 == 35);
            }
            assert(spec_lex_item(t, p1) == spec_lex_item(t, p2));
            // the remaining row
            let bl2 = nums_text(rest).len() as int;
            assert forall|i: int| 0 <= i < bl2 implies t.subrange(p2, p2 + bl2)[i] == nums_text(
                rest,
            )[i] by {
                assert(t.subrange(p2, p2 + bl2)[i] == t[p2 + i]);
                assert(t[p2 + i] == t.subrange(pos, pos + bl)[dl + 1 + i]);
                assert(nums_text(ns)[dl + 1 + i] == (d0 + seq![' '] + nums_text(rest))[dl + 1
                    + i]);
            }
            assert(t.subrange(p2, p2 + bl2) =~= nums_text(rest));
            assert(t[p2 + bl2] == ']') by {
                assert(p2 + bl2 == pos + bl);
            }
            lemma_lex_num_row(t, p2, rest, acc.push(ItemV::Num(n0)));
            // the first token of the rest pins the step at the space
            let d1 = dec_chars(rest[0]);
            let dl1 = d1.len() as int;
            assert forall|i: int| 0 <= i < dl1 implies t.subrange(p2, p2 + dl1)[i] == d1[i] by {
                assert(t.subrange(p2, p2 + dl1)[i] == t[p2 + i]);
                assert(t[p2 + i] == t.subrange(p2, p2 + bl2)[i]);
                if rest.len() > 1 {
                    assert(nums_text(rest)[i] == (d1 + seq![' '] + nums_text(
                        rest.drop_first(),
                    ))[i]);
                }
            }
            assert(t.subrange(p2, p2 + dl1) =~= d1);
            assert(p2 + dl1 == t.len() || !is_dec_digit(t[p2 + dl1])) by {
                if rest.len() == 1 {
                    assert(dl1 == bl2);
                } else {
                    assert(nums_text(rest)[dl1] == (d1 + seq![' '] + nums_text(
                        rest.drop_first(),
                    ))[dl1]);
                    assert(t[p2 + dl1] == t.subrange(p2, p2 + bl2)[dl1]);
                    assert(t[p2 + dl1] == ' ');
                }
            }
            lemma_lex_one_num(t, p2, rest[0]);
            assert(spec_lex_from(t, p1, acc.push(ItemV::Num(n0))) == spec_lex_from(
                t,
                p2,
                acc.push(ItemV::Num(n0)),
            )) by {
                assert(spec_lex_item(t, p1) == LexStep::Tok(ItemV::Num(rest[0]), p2 + dl1));
                assert(advance(p2 + dl1, p1, t.len() as int) == p2 + dl1);
                assert(advance(p2 + dl1, p2, t.len() as int) == p2 + dl1);
            }
            assert(acc.push(ItemV::Num(n0)) + num_toks(rest) =~= acc + num_toks(ns));
        }
    }
}

/// Pushing number tokens one after the other piles their values onto
/// the stack.
proof fn lemma_eval_num_row(st: StateV, ns: Seq<int>, tail: Seq<ItemV>, fuel: nat)
    requires
        fuel >= 1,
        forall|i: int| 0 <= i < ns.len() ==> -i64::MAX <= #[trigger] ns[i] <= i64::MAX,
    ensures
        spec_eval(st, num_toks(ns) + tail, fuel) == spec_eval(
            StateV { stack: st.stack + num_toks(ns), ..st },
            tail,
            fuel,
        ),
    decreases ns.len(),
{
    if ns.len() == 0 {
        assert(num_toks(ns) + tail =~= tail);
        assert(StateV { stack: st.stack + num_toks(ns), ..st } =~= st);
    } else {
        let toks = num_toks(ns) + tail;
        assert(toks[0] == ItemV::Num(ns[0]));
        let st1 = st_push(st, ItemV::Num(ns[0]));
        assert(step_token(st, toks[0], fuel) == Eval::Next(st1));
        assert(toks.drop_first() =~= num_toks(ns.drop_first()) + tail);
        assert(spec_eval(st, toks, fuel) == spec_eval(st1, toks.drop_first(), fuel));
        lemma_eval_num_row(st1, ns.drop_first(), tail, fuel);
        assert(StateV { stack: st1.stack + num_toks(ns.drop_first()), ..st1 } =~= StateV {
            stack: st.stack + num_toks(ns),
            ..st
        });
    }
}

/// A bracketed row of decimal renderings is a row of tokens that
/// rebuilds the array: the display form of an array of integers lexes
/// back, and re-evaluating it pushes an equal array. The most negative
/// machine integer is again the one value left out.
pub proof fn law_display_lex_arr(st: StateV, ns: Seq<int>, fuel: nat)
    requires
        fuel >= 1,
        markers_ok(st),
        forall|i: int| 0 <= i < ns.len() ==> -i64::MAX <= #[trigger] ns[i] <= i64::MAX,
        !st.vars.contains_key("["@),
        !st.vars.contains_key("]"@),
    ensures
        spec_lex(disp(ItemV::Array(num_toks(ns)))) == Some(
            seq![ItemV::Var("["@)] + num_toks(ns) + seq![ItemV::Var("]"@)],
        ),
        spec_eval(st, seq![ItemV::Var("["@)] + num_toks(ns) + seq![ItemV::Var("]"@)], fuel)
            == Eval::Next(st_push(st, ItemV::Array(num_toks(ns)))),
{
    reveal_strlit("[");
    reveal_strlit("]");
    let t = disp(ItemV::Array(num_toks(ns)));
    lemma_disp_list_nums(ns);
    assert(t == seq!['['] + nums_text(ns) + seq![']']);
    let bl = nums_text(ns).len() as int;
    assert(t.len() == bl + 2);
    // lexing: `[`, the numbers, `]`, the end
    assert(t[0] == '[');
    assert(is_symbol('['));
    assert(!is_dec_digit('[') && !is_space('[')) by {
        assert('[' as u32 == 91);
    }
    assert(spec_lex_item(t, 0) == LexStep::Tok(ItemV::Var(seq!['[']), 1));
    assert(seq!['['] =~= "["@);
    assert(spec_lex_from(t, 0, Seq::empty()) == spec_lex_from(t, 1, seq![ItemV::Var("["@)]));
    assert forall|i: int| 0 <= i < bl implies t.subrange(1, 1 + bl)[i] == nums_text(ns)[i] by {
        assert(t.subrange(1, 1 + bl)[i] == t[1 + i]);
        assert(t[1 + i] == (seq!['['] + nums_text(ns) + seq![']'])[1 + i]);
    }
    assert(t.subrange(1, 1 + bl) =~= nums_text(ns));
    assert(t[1 + bl] == ']');
    lemma_lex_num_row(t, 1, ns, seq![ItemV::Var("["@)]);
    assert(is_symbol(']'));
    assert(!is_dec_digit(']') && !is_space(']') && !(']' == '#') && !(']' == '"') && !(']'
        == '{') && !(']' == '-')) by {
        assert(']' as u32 == 93);
        assert('#' as u32 == 35);
        assert('"' as u32 == 34);
        assert('{' as u32 == 123);
        assert('-' as u32 == 45);
    }
    assert(spec_lex_item(t, 1 + bl) == LexStep::Tok(ItemV::Var(seq![']']), t.len() as int));
    assert(seq![']'] =~= "]"@);
    assert(spec_lex_from(t, 1 + bl, seq![ItemV::Var("["@)] + num_toks(ns)) == spec_lex_from(
        t,
        t.len() as int,
        (seq![ItemV::Var("["@)] + num_toks(ns)).push(ItemV::Var("]"@)),
    ));
    assert(spec_lex_item(t, t.len() as int) == LexStep::End);
    assert((seq![ItemV::Var("["@)] + num_toks(ns)).push(ItemV::Var("]"@)) =~= seq![
        ItemV::Var("["@),
    ] + num_toks(ns) + seq![ItemV::Var("]"@)]);
    // evaluation: mark, pile the numbers, collect
    let toks = seq![ItemV::Var("["@)] + num_toks(ns) + seq![ItemV::Var("]"@)];
    assert(toks[0] == ItemV::Var("["@));
    lemma_step_sym(st, "["@, fuel);
    let m = st.stack.len() as int;
    let stm = StateV { markers: st.markers.push(m), ..st };
    assert(step_token(st, toks[0], fuel) == Eval::Next(stm));
    assert(toks.drop_first() =~= num_toks(ns) + seq![ItemV::Var("]"@)]);
    assert(spec_eval(st, toks, fuel) == spec_eval(
        stm,
        num_toks(ns) + seq![ItemV::Var("]"@)],
        fuel,
    ));
    lemma_eval_num_row(stm, ns, seq![ItemV::Var("]"@)], fuel);
    let stp = StateV { stack: st.stack + num_toks(ns), ..stm };
    lemma_step_sym(stp, "]"@, fuel);
    assert(stp.markers.last() == m);
    assert(stp.markers.drop_last() =~= st.markers);
    assert(stp.stack.take(m) =~= st.stack);
    assert(stp.stack.skip(m) =~= num_toks(ns));
    let fin = st_push(st, ItemV::Array(num_toks(ns)));
    assert(step_token(stp, ItemV::Var("]"@), fuel) == Eval::Next(fin)) by {
        assert(crate::semantics::step_slice(stp) == Eval::Next(
            StateV {
                stack: stp.stack.take(m).push(ItemV::Array(stp.stack.skip(m))),
                markers: stp.markers.drop_last(),
                ..stp
            },
        ));
        assert(StateV {
            stack: stp.stack.take(m).push(ItemV::Array(stp.stack.skip(m))),
            markers: stp.markers.drop_last(),
            ..stp
        } =~= fin);
    }
    let closer = seq![ItemV::Var("]"@)];
    assert(closer[0] == ItemV::Var("]"@));
    assert(closer.drop_first() =~= Seq::<ItemV>::empty());
    assert(spec_eval(stp, closer, fuel) == spec_eval(fin, Seq::<ItemV>::empty(), fuel));
}

} // verus!

verus! {

use crate::lexer::spec_lex_block;

/// Inside a block literal, a row of renderings closed by `}` gathers
/// into one block token.
proof fn lemma_lex_block_nums(t: Seq<char>, pos: int, ns: Seq<int>, acc: Seq<ItemV>)
    requires
        0 <= pos,
        pos + nums_text(ns).len() < t.len(),
        forall|i: int| 0 <= i < ns.len() ==> -i64::MAX <= #[trigger] ns[i] <= i64::MAX,
        t.subrange(pos, pos + nums_text(ns).len() as int) == nums_text(ns),
        t[pos + nums_text(ns).len()] == '}',
    ensures
        spec_lex_block(t, pos, acc) == LexStep::Tok(
            ItemV::Block(acc + num_toks(ns)),
            pos + nums_text(ns).len() + 1,
        ),
    decreases ns.len(),
{
    let bl = nums_text(ns).len() as int;
    assert(!is_dec_digit('}') && !is_space('}')) by {
        assert('}' as u32 == 125);
    }
    assert(!is_dec_digit(' ')) by {
        assert(' ' as u32 == 32);
    }
    if ns.len() == 0 {
        assert(acc + num_toks(ns) =~= acc);
    } else {
        let n0 = ns[0];
        let d0 = dec_chars(n0);
        let dl = d0.len() as int;
        let rest = ns.drop_first();
        if ns.len() == 1 {
            assert(nums_text(ns) == d0);
        } else {
            assert(nums_text(ns) == d0 + seq![' '] + nums_text(rest));
        }
        assert forall|i: int| 0 <= i < dl implies t.subrange(pos, pos + dl)[i] == d0[i] by {
            assert(t.subrange(pos, pos + dl)[i] == t[pos + i]);
            assert(t[pos + i] == t.subrange(pos, pos + bl)[i]);
            if ns.len() > 1 {
                assert(nums_text(ns)[i] == (d0 + seq![' '] + nums_text(rest))[i]);
            }
        }
        assert(t.subrange(pos, pos + dl) =~= d0);
        if ns.len() == 1 {
            assert(t[pos + dl] == '}');
        } else {
            assert(t[pos + dl] == ' ') by {
                assert(t[pos + dl] == t.subrange(pos, pos + bl)[dl]);
                assert(nums_text(ns)[dl] == (d0 + seq![' '] + nums_text(rest))[dl]);
            }
        }
        lemma_lex_one_num(t, pos, n0);
        // the first character of a rendering is a digit or a minus
        assert(t[pos] == d0[0]);
        assert(d0[0] == '-' || is_dec_digit(d0[0])) by {
            lemma_dec_digits_are_digits(if n0 < 0 { -n0 } else { n0 });
            if n0 >= 0 {
                assert(d0[0] == dec_digits(n0)[0]);
            }
        }
        assert(!(t[pos] == '}') && !is_space(t[pos])) by {
            assert('-' as u32 == 45);
        }
        let p1 = pos + dl;
        assert(spec_lex_block(t, pos, acc) == spec_lex_block(
            t,
            advance(p1, pos, t.len() as int),
            acc.push(ItemV::Num(n0)),
        ));
        assert(advance(p1, pos, t.len() as int) == p1);
        if ns.len() == 1 {
            assert(spec_lex_block(t, p1, acc.push(ItemV::Num(n0))) == LexStep::Tok(
                ItemV::Block(acc.push(ItemV::Num(n0))),
                p1 + 1,
            ));
            assert(acc.push(ItemV::Num(n0)) =~= acc + num_toks(ns));
        } else {
            assert(is_space(' ')) by {
                assert(' ' as u32 == 32);
            }
            assert(spec_lex_block(t, p1, acc.push(ItemV::Num(n0))) == spec_lex_block(
                t,
                p1 + 1,
                acc.push(ItemV::Num(n0)),
            ));
            let p2 = p1 + 1;
            let bl2 = nums_text(rest).len() as int;
            assert forall|i: int| 0 <= i < bl2 implies t.subrange(p2, p2 + bl2)[i] == nums_text(
                rest,
            )[i] by {
                assert(t.subrange(p2, p2 + bl2)[i] == t[p2 + i]);
                assert(t[p2 + i] == t.subrange(pos, pos + bl)[dl + 1 + i]);
                assert(nums_text(ns)[dl + 1 + i] == (d0 + seq![' '] + nums_text(rest))[dl + 1
                    + i]);
            }
            assert(t.subrange(p2, p2 + bl2) =~= nums_text(rest));
            assert(t[p2 + bl2] == '}') by {
                assert(p2 + bl2 == pos + bl);
            }
            lemma_lex_block_nums(t, p2, rest, acc.push(ItemV::Num(n0)));
            assert(acc.push(ItemV::Num(n0)) + num_toks(rest) =~= acc + num_toks(ns));
        }
    }
}

/// A braced row of decimal renderings is one block token: the display
/// form of a block of integers lexes back, and re-evaluating it pushes
/// an equal block.
pub proof fn law_display_lex_blk(st: StateV, ns: Seq<int>, fuel: nat)
    requires
        fuel >= 1,
        forall|i: int| 0 <= i < ns.len() ==> -i64::MAX <= #[trigger] ns[i] <= i64::MAX,
    ensures
        spec_lex(disp(ItemV::Block(num_toks(ns)))) == Some(seq![ItemV::Block(num_toks(ns))]),
        spec_eval(st, seq![ItemV::Block(num_toks(ns))], fuel) == Eval::Next(
            st_push(st, ItemV::Block(num_toks(ns))),
        ),
{
    let t = disp(ItemV::Block(num_toks(ns)));
    lemma_disp_list_nums(ns);
    assert(t == seq!['{'] + nums_text(ns) + seq!['}']);
    let bl = nums_text(ns).len() as int;
    assert(t.len() == bl + 2);
    assert(t[0] == '{');
    assert(!('{' == '#') && !is_space('{') && !('{' == '"')) by {
        assert('{' as u32 == 123);
        assert('#' as u32 == 35);
        assert('"' as u32 == 34);
    }
    assert forall|i: int| 0 <= i < bl implies t.subrange(1, 1 + bl)[i] == nums_text(ns)[i] by {
        assert(t.subrange(1, 1 + bl)[i] == t[1 + i]);
        assert(t[1 + i] == (seq!['{'] + nums_text(ns) + seq!['}'])[1 + i]);
    }
    assert(t.subrange(1, 1 + bl) =~= nums_text(ns));
    assert(t[1 + bl] == '}');
    lemma_lex_block_nums(t, 1, ns, Seq::empty());
    assert(Seq::empty() + num_toks(ns) =~= num_toks(ns));
    assert(spec_lex_item(t, 0) == LexStep::Tok(ItemV::Block(num_toks(ns)), t.len() as int));
    assert(spec_lex_from(t, 0, Seq::empty()) == spec_lex_from(
        t,
        t.len() as int,
        seq![ItemV::Block(num_toks(ns))],
    )) by {
        assert(advance(t.len() as int, 0, t.len() as int) == t.len() as int);
    }
    assert(spec_lex_item(t, t.len() as int) == LexStep::End);
    let toks = seq![ItemV::Block(num_toks(ns))];
    assert(step_token(st, toks[0], fuel) == Eval::Next(st_push(st, toks[0])));
    assert(toks.drop_first() =~= Seq::<ItemV>::empty());
    assert(spec_eval(st, toks, fuel) == spec_eval(
        st_push(st, toks[0]),
        Seq::<ItemV>::empty(),
        fuel,
    ));
}

} // verus!

verus! {

/// A value a literal can spell and the lexer can read back: an integer
/// above the most negative machine integer, a string free of quotes,
/// backslashes and newlines, or an array of such values, nested to any
/// depth.
/// A token a block literal can carry and the lexer reads back as
/// itself: a number, a plain string, or a nested block of such tokens.
/// An array value is no such token: its display spells bracket
/// operators, which lex to operator tokens, not to the array.
pub open spec fn blk_ok(v: ItemV) -> bool
    decreases v, 1nat,
{
    match v {
        ItemV::Num(n) => -i64::MAX <= n <= i64::MAX,
        ItemV::Str(s) => forall|i: int|
            0 <= i < s.len() ==> s[i] != '"' && #[trigger] s[i] != '\\' && s[i] != '\n',
        ItemV::Block(els) => blk_list_ok(els),
        _ => false,
    }
}

pub open spec fn blk_list_ok(els: Seq<ItemV>) -> bool
    decreases els, 0nat,
{
    els.len() == 0 || (blk_ok(els[0]) && blk_list_ok(els.drop_first()))
}

pub open spec fn lit_ok(v: ItemV) -> bool
    decreases v, 1nat,
{
    match v {
        ItemV::Num(n) => -i64::MAX <= n <= i64::MAX,
        ItemV::Str(s) => forall|i: int|
            0 <= i < s.len() ==> s[i] != '"' && #[trigger] s[i] != '\\' && s[i] != '\n',
        ItemV::Array(els) => lit_list_ok(els),
        ItemV::Block(els) => blk_list_ok(els),
        _ => false,
    }
}

pub open spec fn lit_list_ok(els: Seq<ItemV>) -> bool
    decreases els, 0nat,
{
    els.len() == 0 || (lit_ok(els[0]) && lit_list_ok(els.drop_first()))
}

/// The tokens the display form of a literal value lexes to: the value
/// itself, or the bracketed row of its elements' tokens.
pub open spec fn lit_toks(v: ItemV) -> Seq<ItemV>
    decreases v, 1nat,
{
    match v {
        ItemV::Array(els) => seq![ItemV::Var("["@)] + lit_list_toks(els) + seq![
            ItemV::Var("]"@),
        ],
        _ => seq![v],
    }
}

pub open spec fn lit_list_toks(els: Seq<ItemV>) -> Seq<ItemV>
    decreases els, 0nat,
{
    if els.len() == 0 {
        Seq::empty()
    } else {
        lit_toks(els[0]) + lit_list_toks(els.drop_first())
    }
}

/// The row of display forms, read from its first element.
proof fn lemma_disp_list_first(els: Seq<ItemV>)
    requires
        els.len() >= 1,
    ensures
        els.len() == 1 ==> disp_list(els) == disp(els[0]),
        els.len() > 1 ==> disp_list(els) == disp(els[0]) + seq![' '] + disp_list(
            els.drop_first(),
        ),
    decreases els.len(),
{
    if els.len() == 1 {
    } else if els.len() == 2 {
        assert(els.drop_last()[0] == els[0]);
        assert(els.drop_first() =~= seq![els.last()]);
        assert(disp_list(els.drop_last()) == disp(els[0]));
        assert(disp_list(els.drop_first()) == disp(els.last()));
    } else {
        lemma_disp_list_first(els.drop_last());
        assert(els.drop_last()[0] == els[0]);
        assert(els.drop_last().drop_first() =~= els.drop_first().drop_last());
        assert(els.drop_first().last() == els.last());
        assert(els.drop_first().len() > 1);
        assert(disp_list(els) == disp_list(els.drop_last()) + seq![' '] + disp(els.last()));
        assert(disp_list(els.drop_last()) == disp(els[0]) + seq![' '] + disp_list(
            els.drop_first().drop_last(),
        ));
        assert(disp_list(els.drop_first()) == disp_list(els.drop_first().drop_last())
            + seq![' '] + disp(els.last()));
        assert(disp(els[0]) + seq![' '] + disp_list(els.drop_first().drop_last()) + seq![' ']
            + disp(els.last()) =~= disp(els[0]) + seq![' '] + disp_list(els.drop_first()));
    }
}

/// A quoted plain string inside a larger text is one string token.
proof fn lemma_lex_one_str(t: Seq<char>, pos: int, s: Seq<char>)
    requires
        0 <= pos,
        pos + s.len() + 2 <= t.len(),
        forall|i: int| 0 <= i < s.len() ==> s[i] != '"' && #[trigger] s[i] != '\\' && s[i]
            != '\n',
        t.subrange(pos, pos + s.len() as int + 2) == seq!['"'] + s + seq!['"'],
    ensures
        spec_lex_item(t, pos) == LexStep::Tok(ItemV::Str(s), pos + s.len() + 2),
{
    let sl = s.len() as int;
    assert(t[pos] == '"') by {
        assert(t[pos] == t.subrange(pos, pos + sl + 2)[0]);
    }
    assert(forall|i: int| pos + 1 <= i < pos + 1 + sl ==> #[trigger] t[i] == s[i - pos - 1]) by {
        assert(forall|i: int| pos + 1 <= i < pos + 1 + sl ==> #[trigger] t[i] == t.subrange(
            pos,
            pos + sl + 2,
        )[i - pos]);
    }
    assert(t[pos + 1 + sl] == '"') by {
        assert(t[pos + 1 + sl] == t.subrange(pos, pos + sl + 2)[1 + sl]);
    }
    assert(forall|i: int| pos + 1 <= i < pos + 1 + sl ==> t[i] != '\\' && #[trigger] t[i]
        != '"');
    lemma_scan_str_plain(t, pos + 1, sl, Seq::empty());
    assert(Seq::empty() + t.subrange(pos + 1, pos + 1 + sl) =~= s);
    assert(scan_str(t, pos + 1, Seq::empty()) == Some((s, pos + sl + 2)));
    lemma_replace2_plain(s, '\\', '\\');
    lemma_replace2_plain(s, '"', '"');
    assert(!('"' == '#') && !is_space('"')) by {
        assert('"' as u32 == 34);
        assert('#' as u32 == 35);
    }
    assert(spec_lex_item(t, pos) == LexStep::Tok(
        ItemV::Str(s),
        advance(pos + sl + 2, pos, t.len() as int),
    ));
    assert(advance(pos + sl + 2, pos, t.len() as int) == pos + sl + 2);
}

/// The display form of a block-literal token inside a larger text is
/// one token: the token itself.
proof fn lemma_lex_blk_item(t: Seq<char>, pos: int, v: ItemV)
    requires
        blk_ok(v),
        0 <= pos,
        pos + disp(v).len() <= t.len(),
        t.subrange(pos, pos + disp(v).len() as int) == disp(v),
        pos + disp(v).len() == t.len() || !is_dec_digit(t[pos + disp(v).len()]),
    ensures
        spec_lex_item(t, pos) == LexStep::Tok(v, pos + disp(v).len()),
        disp(v).len() >= 1,
    decreases v, 1nat,
{
    match v {
        ItemV::Num(n) => {
            assert(disp(v) == dec_chars(n));
            lemma_lex_one_num(t, pos, n);
        }
        ItemV::Str(s) => {
            lemma_escape_plain(s);
            assert(disp(v) == seq!['"'] + s + seq!['"']);
            lemma_lex_one_str(t, pos, s);
        }
        ItemV::Block(els) => {
            let bl = disp_list(els).len() as int;
            assert(disp(v) == seq!['{'] + disp_list(els) + seq!['}']);
            assert(disp(v).len() == bl + 2);
            assert(t[pos] == '{') by {
                assert(t[pos] == t.subrange(pos, pos + bl + 2)[0]);
            }
            assert(!('{' == '#') && !is_space('{') && !('{' == '"')) by {
                assert('{' as u32 == 123);
                assert('#' as u32 == 35);
                assert('"' as u32 == 34);
            }
            let p1 = pos + 1;
            assert forall|i: int| 0 <= i < bl implies t.subrange(p1, p1 + bl)[i] == disp_list(
                els,
            )[i] by {
                assert(t.subrange(p1, p1 + bl)[i] == t[p1 + i]);
                assert(t[p1 + i] == t.subrange(pos, pos + bl + 2)[1 + i]);
                assert(disp(v)[1 + i] == (seq!['{'] + disp_list(els) + seq!['}'])[1 + i]);
            }
            assert(t.subrange(p1, p1 + bl) =~= disp_list(els));
            assert(t[p1 + bl] == '}') by {
                assert(t[p1 + bl] == t.subrange(pos, pos + bl + 2)[1 + bl]);
            }
            lemma_lex_blk_row(t, p1, els, Seq::empty());
            assert(Seq::empty() + els =~= els);
        }
        _ => {}
    }
}

/// A row of block-literal tokens closed by `}` gathers into one block
/// token holding exactly those tokens.
proof fn lemma_lex_blk_row(t: Seq<char>, pos: int, els: Seq<ItemV>, acc: Seq<ItemV>)
    requires
        blk_list_ok(els),
        0 <= pos,
        pos + disp_list(els).len() < t.len(),
        t.subrange(pos, pos + disp_list(els).len() as int) == disp_list(els),
        t[pos + disp_list(els).len()] == '}',
    ensures
        spec_lex_block(t, pos, acc) == LexStep::Tok(
            ItemV::Block(acc + els),
            pos + disp_list(els).len() + 1,
        ),
    decreases els, 0nat,
{
    let bl = disp_list(els).len() as int;
    assert(!is_dec_digit('}') && !is_dec_digit(' ') && !is_space('}')) by {
        assert('}' as u32 == 125);
        assert(' ' as u32 == 32);
    }
    if els.len() == 0 {
        assert(acc + els =~= acc);
    } else {
        lemma_disp_list_first(els);
        let v0 = els[0];
        let d0 = disp(v0);
        let d0l = d0.len() as int;
        let rest = els.drop_first();
        assert forall|i: int| 0 <= i < d0l implies t.subrange(pos, pos + d0l)[i] == d0[i] by {
            assert(t.subrange(pos, pos + d0l)[i] == t[pos + i]);
            assert(t[pos + i] == t.subrange(pos, pos + bl)[i]);
            if els.len() > 1 {
                assert(disp_list(els)[i] == (d0 + seq![' '] + disp_list(rest))[i]);
            }
        }
        assert(t.subrange(pos, pos + d0l) =~= d0);
        if els.len() > 1 {
            assert(disp_list(els) == d0 + seq![' '] + disp_list(rest));
            assert(t[pos + d0l] == ' ') by {
                assert(t[pos + d0l] == t.subrange(pos, pos + bl)[d0l]);
                assert(disp_list(els)[d0l] == (d0 + seq![' '] + disp_list(rest))[d0l]);
            }
        } else {
            assert(d0l == bl);
            assert(t[pos + d0l] == '}');
        }
        lemma_lex_blk_item(t, pos, v0);
        // the first character of a token's display opens no brace row
        assert(t[pos] == d0[0]) by {
            assert(t[pos] == t.subrange(pos, pos + d0l)[0]);
        }
        assert(blk_ok(v0));
        assert(!(t[pos] == '}') && !is_space(t[pos])) by {
            match v0 {
                ItemV::Num(n) => {
                    let m = if n < 0 { -n } else { n };
                    lemma_dec_digits_are_digits(m);
                    if n < 0 {
                        assert(d0[0] == '-');
                        assert('-' as u32 == 45);
                    } else {
                        assert(d0[0] == dec_digits(n)[0]);
                        assert(48 <= d0[0] as u32 <= 57);
                    }
                }
                ItemV::Str(s) => {
                    lemma_escape_plain(s);
                    assert(d0[0] == '"');
                    assert('"' as u32 == 34);
                }
                ItemV::Block(_) => {
                    assert(d0[0] == '{');
                    assert('{' as u32 == 123);
                }
                _ => {}
            }
        }
        assert(spec_lex_block(t, pos, acc) == spec_lex_block(
            t,
            advance(pos + d0l, pos, t.len() as int),
            acc.push(v0),
        ));
        assert(advance(pos + d0l, pos, t.len() as int) == pos + d0l);
        if els.len() == 1 {
            assert(spec_lex_block(t, pos + d0l, acc.push(v0)) == LexStep::Tok(
                ItemV::Block(acc.push(v0)),
                pos + bl + 1,
            ));
            assert(acc.push(v0) =~= acc + els);
        } else {
            let p1 = pos + d0l;
            assert(is_space(' ')) by {
                assert(' ' as u32 == 32);
            }
            assert(spec_lex_block(t, p1, acc.push(v0)) == spec_lex_block(
                t,
                p1 + 1,
                acc.push(v0),
            ));
            let p2 = p1 + 1;
            let bl2 = disp_list(rest).len() as int;
            assert forall|i: int| 0 <= i < bl2 implies t.subrange(p2, p2 + bl2)[i] == disp_list(
                rest,
            )[i] by {
                assert(t.subrange(p2, p2 + bl2)[i] == t[p2 + i]);
                assert(t[p2 + i] == t.subrange(pos, pos + bl)[d0l + 1 + i]);
                assert(disp_list(els)[d0l + 1 + i] == (d0 + seq![' '] + disp_list(rest))[d0l
                    + 1 + i]);
            }
            assert(t.subrange(p2, p2 + bl2) =~= disp_list(rest));
            assert(p2 + bl2 == pos + bl);
            assert(t[p2 + bl2] == '}');
            lemma_lex_blk_row(t, p2, rest, acc.push(v0));
            assert(acc.push(v0) + rest =~= acc + els);
        }
    }
}

/// The display form of a literal value inside a larger text lexes to
/// its tokens, however deeply its arrays and blocks nest.
proof fn lemma_lex_lit(t: Seq<char>, pos: int, v: ItemV, acc: Seq<ItemV>)
    requires
        lit_ok(v),
        0 <= pos,
        pos + disp(v).len() <= t.len(),
        t.subrange(pos, pos + disp(v).len() as int) == disp(v),
        pos + disp(v).len() == t.len() || !is_dec_digit(t[pos + disp(v).len()]),
    ensures
        spec_lex_from(t, pos, acc) == spec_lex_from(t, pos + disp(v).len(), acc + lit_toks(v)),
        spec_lex_item(t, pos) is Tok,
    decreases v, 1nat,
{
    match v {
        ItemV::Num(n) => {
            assert(disp(v) == dec_chars(n));
            lemma_lex_one_num(t, pos, n);
            let dl = dec_chars(n).len() as int;
            assert(spec_lex_from(t, pos, acc) == spec_lex_from(
                t,
                advance(pos + dl, pos, t.len() as int),
                acc.push(ItemV::Num(n)),
            ));
            assert(advance(pos + dl, pos, t.len() as int) == pos + dl);
            assert(acc.push(ItemV::Num(n)) =~= acc + lit_toks(v));
        }
        ItemV::Str(s) => {
            lemma_escape_plain(s);
            assert(disp(v) == seq!['"'] + s + seq!['"']);
            let dl = s.len() as int + 2;
            assert(disp(v).len() == dl);
            lemma_lex_one_str(t, pos, s);
            assert(spec_lex_from(t, pos, acc) == spec_lex_from(
                t,
                advance(pos + dl, pos, t.len() as int),
                acc.push(ItemV::Str(s)),
            ));
            assert(advance(pos + dl, pos, t.len() as int) == pos + dl);
            assert(acc.push(ItemV::Str(s)) =~= acc + lit_toks(v));
        }
        ItemV::Array(els) => {
            reveal_strlit("[");
            reveal_strlit("]");
            assert("["@ =~= seq!['[']);
            assert("]"@ =~= seq![']']);
            let bl = disp_list(els).len() as int;
            assert(disp(v) == seq!['['] + disp_list(els) + seq![']']);
            assert(disp(v).len() == bl + 2);
            assert(t[pos] == '[') by {
                assert(t[pos] == t.subrange(pos, pos + bl + 2)[0]);
            }
            assert(!('[' == '#') && !is_space('[') && !('[' == '"') && !('[' == '{')
                && !is_dec_digit('[') && !('[' == '-') && is_symbol('[')) by {
                assert('[' as u32 == 91);
                assert('#' as u32 == 35);
                assert('"' as u32 == 34);
                assert('{' as u32 == 123);
                assert('-' as u32 == 45);
            }
            assert(spec_lex_item(t, pos) == LexStep::Tok(ItemV::Var(seq!['[']), pos + 1));
            assert(spec_lex_from(t, pos, acc) == spec_lex_from(
                t,
                advance(pos + 1, pos, t.len() as int),
                acc.push(ItemV::Var("["@)),
            ));
            assert(advance(pos + 1, pos, t.len() as int) == pos + 1);
            let p1 = pos + 1;
            assert forall|i: int| 0 <= i < bl implies t.subrange(p1, p1 + bl)[i] == disp_list(
                els,
            )[i] by {
                assert(t.subrange(p1, p1 + bl)[i] == t[p1 + i]);
                assert(t[p1 + i] == t.subrange(pos, pos + bl + 2)[1 + i]);
                assert(disp(v)[1 + i] == (seq!['['] + disp_list(els) + seq![']'])[1 + i]);
            }
            assert(t.subrange(p1, p1 + bl) =~= disp_list(els));
            let p3 = p1 + bl;
            assert(t[p3] == ']') by {
                assert(t[p3] == t.subrange(pos, pos + bl + 2)[1 + bl]);
            }
            lemma_lex_lit_list(t, p1, els, acc.push(ItemV::Var("["@)));
            assert(!(']' == '#') && !is_space(']') && !(']' == '"') && !(']' == '{')
                && !is_dec_digit(']') && !(']' == '-') && is_symbol(']')) by {
                assert(']' as u32 == 93);
                assert('#' as u32 == 35);
                assert('"' as u32 == 34);
                assert('{' as u32 == 123);
                assert('-' as u32 == 45);
            }
            assert(spec_lex_item(t, p3) == LexStep::Tok(ItemV::Var(seq![']']), p3 + 1));
            let acc3 = acc.push(ItemV::Var("["@)) + lit_list_toks(els);
            assert(spec_lex_from(t, p3, acc3) == spec_lex_from(
                t,
                advance(p3 + 1, p3, t.len() as int),
                acc3.push(ItemV::Var("]"@)),
            ));
            assert(advance(p3 + 1, p3, t.len() as int) == p3 + 1);
            assert(acc3.push(ItemV::Var("]"@)) =~= acc + lit_toks(v));
        }
        ItemV::Block(els) => {
            assert(blk_ok(v));
            lemma_lex_blk_item(t, pos, v);
            let dl = disp(v).len() as int;
            assert(spec_lex_from(t, pos, acc) == spec_lex_from(
                t,
                advance(pos + dl, pos, t.len() as int),
                acc.push(v),
            ));
            assert(advance(pos + dl, pos, t.len() as int) == pos + dl);
            assert(acc.push(v) =~= acc + lit_toks(v));
        }
        _ => {}
    }
}

/// A row of literal display forms closed by `]` lexes to the row of
/// the elements' tokens.
proof fn lemma_lex_lit_list(t: Seq<char>, pos: int, els: Seq<ItemV>, acc: Seq<ItemV>)
    requires
        lit_list_ok(els),
        0 <= pos,
        pos + disp_list(els).len() < t.len(),
        t.subrange(pos, pos + disp_list(els).len() as int) == disp_list(els),
        t[pos + disp_list(els).len()] == ']',
    ensures
        spec_lex_from(t, pos, acc) == spec_lex_from(
            t,
            pos + disp_list(els).len(),
            acc + lit_list_toks(els),
        ),
        els.len() > 0 ==> spec_lex_item(t, pos) is Tok,
    decreases els, 0nat,
{
    let bl = disp_list(els).len() as int;
    assert(!is_dec_digit(']') && !is_dec_digit(' ')) by {
        assert(']' as u32 == 93);
        assert(' ' as u32 == 32);
    }
    if els.len() == 0 {
        assert(acc + lit_list_toks(els) =~= acc);
    } else {
        lemma_disp_list_first(els);
        let v0 = els[0];
        let d0 = disp(v0);
        let d0l = d0.len() as int;
        let rest = els.drop_first();
        assert forall|i: int| 0 <= i < d0l implies t.subrange(pos, pos + d0l)[i] == d0[i] by {
            assert(t.subrange(pos, pos + d0l)[i] == t[pos + i]);
            assert(t[pos + i] == t.subrange(pos, pos + bl)[i]);
            if els.len() > 1 {
                assert(disp_list(els)[i] == (d0 + seq![' '] + disp_list(rest))[i]);
            }
        }
        assert(t.subrange(pos, pos + d0l) =~= d0);
        if els.len() == 1 {
            assert(d0l == bl);
            assert(t[pos + d0l] == ']');
            lemma_lex_lit(t, pos, v0, acc);
            assert(acc + lit_toks(v0) =~= acc + lit_list_toks(els));
        } else {
            assert(disp_list(els) == d0 + seq![' '] + disp_list(rest));
            assert(t[pos + d0l] == ' ') by {
                assert(t[pos + d0l] == t.subrange(pos, pos + bl)[d0l]);
                assert(disp_list(els)[d0l] == (d0 + seq![' '] + disp_list(rest))[d0l]);
            }
            lemma_lex_lit(t, pos, v0, acc);
            let p1 = pos + d0l;
            let acc2 = acc + lit_toks(v0);
            let p2 = p1 + 1;
            assert(is_space(' ') && !(' ' == '#')) by {
                assert(' ' as u32 == 32);
                assert('#' as u32 == 35);
            }
            assert(spec_lex_item(t, p1) == spec_lex_item(t, p2));
            let bl2 = disp_list(rest).len() as int;
            assert forall|i: int| 0 <= i < bl2 implies t.subrange(p2, p2 + bl2)[i] == disp_list(
                rest,
            )[i] by {
                assert(t.subrange(p2, p2 + bl2)[i] == t[p2 + i]);
                assert(t[p2 + i] == t.subrange(pos, pos + bl)[d0l + 1 + i]);
                assert(disp_list(els)[d0l + 1 + i] == (d0 + seq![' '] + disp_list(rest))[d0l
                    + 1 + i]);
            }
            assert(t.subrange(p2, p2 + bl2) =~= disp_list(rest));
            assert(p2 + bl2 == pos + bl);
            assert(t[p2 + bl2] == ']');
            lemma_lex_lit_list(t, p2, rest, acc2);
            crate::lexer::lemma_lex_item_advances(t, p2);
            match spec_lex_item(t, p2) {
                LexStep::Tok(tk, np) => {
                    assert(p2 < np <= t.len());
                    assert(advance(np, p1, t.len() as int) == np);
                    assert(advance(np, p2, t.len() as int) == np);
                    assert(spec_lex_from(t, p1, acc2) == spec_lex_from(t, np, acc2.push(tk)));
                    assert(spec_lex_from(t, p2, acc2) == spec_lex_from(t, np, acc2.push(tk)));
                }
                _ => {
                    assert(false);
                }
            }
            assert(acc2 + lit_list_toks(rest) =~= acc + lit_list_toks(els));
        }
    }
}

/// Evaluating the tokens of a literal value pushes the value itself,
/// however deeply its arrays nest.
proof fn lemma_eval_lit(st: StateV, v: ItemV, tail: Seq<ItemV>, fuel: nat)
    requires
        fuel >= 1,
        lit_ok(v),
        markers_ok(st),
        !st.vars.contains_key("["@),
        !st.vars.contains_key("]"@),
    ensures
        spec_eval(st, lit_toks(v) + tail, fuel) == spec_eval(st_push(st, v), tail, fuel),
    decreases v, 1nat,
{
    match v {
        ItemV::Array(els) => {
            let toks = lit_toks(v) + tail;
            assert(toks[0] == ItemV::Var("["@));
            lemma_step_sym(st, "["@, fuel);
            let m = st.stack.len() as int;
            let stm = StateV { markers: st.markers.push(m), ..st };
            assert(step_token(st, toks[0], fuel) == Eval::Next(stm));
            assert(toks.drop_first() =~= lit_list_toks(els) + (seq![ItemV::Var("]"@)] + tail));
            assert(spec_eval(st, toks, fuel) == spec_eval(
                stm,
                lit_list_toks(els) + (seq![ItemV::Var("]"@)] + tail),
                fuel,
            ));
            assert(markers_ok(stm));
            lemma_eval_lit_list(stm, els, seq![ItemV::Var("]"@)] + tail, fuel);
            let stp = StateV { stack: stm.stack + els, ..stm };
            lemma_step_sym(stp, "]"@, fuel);
            assert(stp.markers.last() == m);
            assert(stp.markers.drop_last() =~= st.markers);
            assert(stp.stack.take(m) =~= st.stack);
            assert(stp.stack.skip(m) =~= els);
            let fin = st_push(st, ItemV::Array(els));
            assert(step_token(stp, ItemV::Var("]"@), fuel) == Eval::Next(fin)) by {
                assert(crate::semantics::step_slice(stp) == Eval::Next(
                    StateV {
                        stack: stp.stack.take(m).push(ItemV::Array(stp.stack.skip(m))),
                        markers: stp.markers.drop_last(),
                        ..stp
                    },
                ));
                assert(StateV {
                    stack: stp.stack.take(m).push(ItemV::Array(stp.stack.skip(m))),
                    markers: stp.markers.drop_last(),
                    ..stp
                } =~= fin);
            }
            let closer = seq![ItemV::Var("]"@)] + tail;
            assert(closer[0] == ItemV::Var("]"@));
            assert(closer.drop_first() =~= tail);
            assert(spec_eval(stp, closer, fuel) == spec_eval(fin, tail, fuel));
        }
        _ => {
            let toks = lit_toks(v) + tail;
            assert(lit_toks(v) == seq![v]);
            assert(toks[0] == v);
            assert(step_token(st, v, fuel) == Eval::Next(st_push(st, v)));
            assert(toks.drop_first() =~= tail);
            assert(spec_eval(st, toks, fuel) == spec_eval(st_push(st, v), tail, fuel));
        }
    }
}

/// Evaluating a row of literal tokens piles the values onto the stack
/// in order.
proof fn lemma_eval_lit_list(st: StateV, els: Seq<ItemV>, tail: Seq<ItemV>, fuel: nat)
    requires
        fuel >= 1,
        lit_list_ok(els),
        markers_ok(st),
        !st.vars.contains_key("["@),
        !st.vars.contains_key("]"@),
    ensures
        spec_eval(st, lit_list_toks(els) + tail, fuel) == spec_eval(
            StateV { stack: st.stack + els, ..st },
            tail,
            fuel,
        ),
    decreases els, 0nat,
{
    if els.len() == 0 {
        assert(lit_list_toks(els) + tail =~= tail);
        assert(StateV { stack: st.stack + els, ..st } =~= st);
    } else {
        let rest = els.drop_first();
        assert(lit_list_toks(els) + tail =~= lit_toks(els[0]) + (lit_list_toks(rest) + tail));
        lemma_eval_lit(st, els[0], lit_list_toks(rest) + tail, fuel);
        let st1 = st_push(st, els[0]);
        assert(markers_ok(st1));
        lemma_eval_lit_list(st1, rest, tail, fuel);
        assert(StateV { stack: st1.stack + rest, ..st1 } =~= StateV {
            stack: st.stack + els,
            ..st
        });
    }
}

/// A literal value survives the round through its display form: the
/// text the value displays as lexes back to its tokens, and evaluating
/// those tokens on any stack pushes an equal value. This holds for
/// every integer above the most negative machine integer, every string
/// free of quotes, backslashes and newlines, every block of such
/// numbers, strings and nested blocks, and every array of such values,
/// nested to any depth, as long as the bracket names are not rebound.
/// An array inside a block is the one literal shape left out: its
/// display spells bracket operators, which lex to operator tokens
/// inside the block, not to the array.
pub proof fn law_display_lex_value(st: StateV, v: ItemV, fuel: nat)
    requires
        fuel >= 1,
        lit_ok(v),
        markers_ok(st),
        !st.vars.contains_key("["@),
        !st.vars.contains_key("]"@),
    ensures
        spec_lex(disp(v)) == Some(lit_toks(v)),
        spec_eval(st, lit_toks(v), fuel) == Eval::Next(st_push(st, v)),
{
    let t = disp(v);
    assert(t.subrange(0, t.len() as int) =~= t);
    lemma_lex_lit(t, 0, v, Seq::empty());
    assert(spec_lex_item(t, t.len() as int) == LexStep::End);
    assert(Seq::empty() + lit_toks(v) =~= lit_toks(v));
    assert(spec_lex(t) == Some(lit_toks(v)));
    lemma_eval_lit(st, v, Seq::empty(), fuel);
    assert(lit_toks(v) + Seq::<ItemV>::empty() =~= lit_toks(v));
    assert(spec_eval(st_push(st, v), Seq::<ItemV>::empty(), fuel) == Eval::Next(
        st_push(st, v),
    ));
}

} // verus!
