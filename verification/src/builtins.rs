use vstd::prelude::*;

use crate::items::GSError;
use crate::items::Item;
use crate::items::ItemV;
use crate::items::views_of;
use crate::items::lemma_views_of;
use crate::items::lemma_views_of_push;
use crate::items::lemma_views_of_concat;
use crate::items::clone_item;
use crate::items::item_eq;
use crate::items::contains_item;
use crate::items::cmp_chars_exec;
use crate::interp::Interpreter;
use crate::interp::runtime_err;
use crate::semantics::StateV;
use crate::semantics::eval_matches;
use crate::semantics::st_push;
use crate::semantics::coerce_ok;
use crate::semantics::coerce_v;
use crate::semantics::step_add;
use crate::semantics::step_sub;
use crate::semantics::step_or;
use crate::semantics::step_and;
use crate::semantics::step_xor;
use crate::semantics::step_not;
use crate::semantics::step_at;
use crate::semantics::step_swap;
use crate::semantics::step_drop;
use crate::semantics::step_dup;
use crate::semantics::step_marker;
use crate::semantics::step_slice;
use crate::semantics::step_backtick;
use crate::semantics::step_abs;
use crate::semantics::step_dec;
use crate::semantics::step_inc;
use crate::semantics::step_lt;
use crate::semantics::step_gt;
use crate::semantics::step_eq;
use crate::semantics::step_rand;
use crate::semantics::rand_draw;
use crate::semantics::rand_zone;
use crate::semantics::RAND_TRIES;
use crate::semantics::lcg;
use crate::semantics::step_print;
use crate::semantics::step_assign;
use crate::semantics::dedup_first;
use crate::semantics::keep_in;
use crate::semantics::keep_not_in;
use crate::semantics::take_amount;

verus! {

/// Coerce a pair toward the higher kind, as the binary operators do.
/// The pair is ordered top first; a pair that cannot be coerced is a
/// runtime error.
pub(crate) fn coerce(x: Item, y: Item) -> (r: Result<(Item, Item), GSError>)
    ensures
        coerce_ok(x@, y@) ==> (r matches Ok(p) && p.0@ == coerce_v(x@, y@).0 && p.1@ == coerce_v(
            x@,
            y@,
        ).1),
        !coerce_ok(x@, y@) ==> (r matches Err(e) && e is Runtime),
{
    let x_blk = matches!(x, Item::Block(_));
    let y_blk = matches!(y, Item::Block(_));
    let x_str = matches!(x, Item::Str(_));
    let y_str = matches!(y, Item::Str(_));
    let x_arr = matches!(x, Item::Array(_));
    let y_arr = matches!(y, Item::Array(_));
    if x_blk || y_blk {
        if x.upcast_blk_defined() && y.upcast_blk_defined() {
            Ok((x.upcast_to_block(), y.upcast_to_block()))
        } else {
            Err(runtime_err("unsupported operand types"))
        }
    } else if x_str || y_str {
        if x.upcast_str_defined() && y.upcast_str_defined() {
            Ok((x.upcast_to_string(), y.upcast_to_string()))
        } else {
            Err(runtime_err("unsupported operand types"))
        }
    } else if x_arr || y_arr {
        if x.upcast_arr_defined() && y.upcast_arr_defined() {
            Ok((x.upcast_to_array(), y.upcast_to_array()))
        } else {
            Err(runtime_err("unsupported operand types"))
        }
    } else {
        Ok((x, y))
    }
}

fn concat_chars(b: Vec<char>, mut a: Vec<char>) -> (r: Vec<char>)
    ensures
        r@ == b@ + a@,
{
    let mut r = b;
    r.append(&mut a);
    r
}

fn concat_items(b: Vec<Item>, mut a: Vec<Item>) -> (r: Vec<Item>)
    ensures
        views_of(r@) == views_of(b@) + views_of(a@),
{
    let ghost a0 = a@;
    let ghost b0 = b@;
    let mut r = b;
    r.append(&mut a);
    proof {
        assert(r@ == b0 + a0);
        lemma_views_of_concat(b0, a0);
    }
    r
}

/// Relies on itertools::Itertools::unique: the first occurrence of
/// each element is kept, in the order seen; equality and hashing are
/// the derived structural ones, which agree with equality of views.
#[verifier::external_body]
fn unique_items(v: Vec<Item>) -> (r: Vec<Item>)
    ensures
        views_of(r@) == dedup_first(views_of(v@)),
{
    let kept: Vec<&Item> = itertools::Itertools::unique(v.iter()).collect();
    kept.into_iter().map(crate::items::clone_item).collect()
}

fn keep_in_exec(s: Vec<Item>, t: &Vec<Item>) -> (r: Vec<Item>)
    ensures
        views_of(r@) == keep_in(views_of(s@), views_of(t@)),
{
    let mut r: Vec<Item> = Vec::new();
    let mut i: usize = 0;
    proof {
        lemma_views_of(s@);
        assert(views_of(s@.take(0)) =~= Seq::<ItemV>::empty());
    }
    while i < s.len()
        invariant
            i <= s@.len(),
            views_of(r@) == keep_in(views_of(s@.take(i as int)), views_of(t@)),
        decreases s@.len() - i,
    {
        proof {
            lemma_views_of(s@);
            lemma_views_of_push(s@.take(i as int), s@[i as int]);
            assert(s@.take(i as int).push(s@[i as int]) =~= s@.take(i + 1));
            assert(views_of(s@.take(i + 1)).drop_last() =~= views_of(s@.take(i as int)));
        }
        if contains_item(t, &s[i]) {
            let c = clone_item(&s[i]);
            proof {
                lemma_views_of_push(r@, c);
            }
            r.push(c);
        }
        i = i + 1;
    }
    assert(s@.take(s@.len() as int) =~= s@);
    r
}

fn keep_not_in_exec(s: Vec<Item>, t: &Vec<Item>) -> (r: Vec<Item>)
    ensures
        views_of(r@) == keep_not_in(views_of(s@), views_of(t@)),
{
    let mut r: Vec<Item> = Vec::new();
    let mut i: usize = 0;
    proof {
        lemma_views_of(s@);
        assert(views_of(s@.take(0)) =~= Seq::<ItemV>::empty());
    }
    while i < s.len()
        invariant
            i <= s@.len(),
            views_of(r@) == keep_not_in(views_of(s@.take(i as int)), views_of(t@)),
        decreases s@.len() - i,
    {
        proof {
            lemma_views_of(s@);
            lemma_views_of_push(s@.take(i as int), s@[i as int]);
            assert(s@.take(i as int).push(s@[i as int]) =~= s@.take(i + 1));
            assert(views_of(s@.take(i + 1)).drop_last() =~= views_of(s@.take(i as int)));
        }
        if !contains_item(t, &s[i]) {
            let c = clone_item(&s[i]);
            proof {
                lemma_views_of_push(r@, c);
            }
            r.push(c);
        }
        i = i + 1;
    }
    assert(s@.take(s@.len() as int) =~= s@);
    r
}

impl Interpreter {
    /// `+`: sum of integers; concatenation of strings, arrays or
    /// blocks, the below operand first, after coercion.
    pub fn add(&mut self) -> (r: Result<(), GSError>)
        ensures
            eval_matches(step_add(old(self)@), final(self)@, r),
    {
        let (x, y) = match self.pop2() {
            Ok(p) => p,
            Err(e) => {
                return Err(e);
            }
        };
        let (cx, cy) = match coerce(x, y) {
            Ok(p) => p,
            Err(e) => {
                return Err(e);
            }
        };
        match (cx, cy) {
            (Item::Num(a), Item::Num(b)) => {
                match b.checked_add(a) {
                    Some(s) => {
                        self.push(Item::Num(s));
                        Ok(())
                    }
                    None => Err(runtime_err("sum leaves the 64-bit range")),
                }
            }
            (Item::Str(a), Item::Str(b)) => {
                self.push(Item::Str(concat_chars(b, a)));
                Ok(())
            }
            (Item::Array(a), Item::Array(b)) => {
                self.push(Item::Array(concat_items(b, a)));
                Ok(())
            }
            (Item::Block(a), Item::Block(b)) => {
                self.push(Item::Block(concat_items(b, a)));
                Ok(())
            }
            _ => Err(runtime_err("unsupported operand types")),
        }
    }

    /// `-`: difference of integers; the below elements not occurring
    /// in the top, after coercion.
    pub fn sub(&mut self) -> (r: Result<(), GSError>)
        ensures
            eval_matches(step_sub(old(self)@), final(self)@, r),
    {
        let (x, y) = match self.pop2() {
            Ok(p) => p,
            Err(e) => {
                return Err(e);
            }
        };
        let (cx, cy) = match coerce(x, y) {
            Ok(p) => p,
            Err(e) => {
                return Err(e);
            }
        };
        match (cx, cy) {
            (Item::Num(a), Item::Num(b)) => {
                match b.checked_sub(a) {
                    Some(s) => {
                        self.push(Item::Num(s));
                        Ok(())
                    }
                    None => Err(runtime_err("difference leaves the 64-bit range")),
                }
            }
            (Item::Array(a), Item::Array(b)) => {
                self.push(Item::Array(keep_not_in_exec(b, &a)));
                Ok(())
            }
            _ => Err(runtime_err("unsupported operand types")),
        }
    }

    /// `|`: bitwise or of integers; union of arrays, first-seen order,
    /// deduplicated, after coercion.
    pub fn or(&mut self) -> (r: Result<(), GSError>)
        ensures
            eval_matches(step_or(old(self)@), final(self)@, r),
    {
        let (x, y) = match self.pop2() {
            Ok(p) => p,
            Err(e) => {
                return Err(e);
            }
        };
        let (cx, cy) = match coerce(x, y) {
            Ok(p) => p,
            Err(e) => {
                return Err(e);
            }
        };
        match (cx, cy) {
            (Item::Num(a), Item::Num(b)) => {
                self.push(Item::Num(b | a));
                Ok(())
            }
            (Item::Array(a), Item::Array(b)) => {
                self.push(Item::Array(unique_items(concat_items(b, a))));
                Ok(())
            }
            _ => Err(runtime_err("unsupported operand types")),
        }
    }

    /// `&`: bitwise and of integers; intersection of arrays,
    /// first-seen order, deduplicated, after coercion.
    pub fn and(&mut self) -> (r: Result<(), GSError>)
        ensures
            eval_matches(step_and(old(self)@), final(self)@, r),
    {
        let (x, y) = match self.pop2() {
            Ok(p) => p,
            Err(e) => {
                return Err(e);
            }
        };
        let (cx, cy) = match coerce(x, y) {
            Ok(p) => p,
            Err(e) => {
                return Err(e);
            }
        };
        match (cx, cy) {
            (Item::Num(a), Item::Num(b)) => {
                self.push(Item::Num(b & a));
                Ok(())
            }
            (Item::Array(a), Item::Array(b)) => {
                self.push(Item::Array(unique_items(keep_in_exec(b, &a))));
                Ok(())
            }
            _ => Err(runtime_err("unsupported operand types")),
        }
    }

    /// `^`: bitwise xor of integers; symmetric difference of arrays,
    /// the below side first, deduplicated, after coercion.
    pub fn xor(&mut self) -> (r: Result<(), GSError>)
        ensures
            eval_matches(step_xor(old(self)@), final(self)@, r),
    {
        let (x, y) = match self.pop2() {
            Ok(p) => p,
            Err(e) => {
                return Err(e);
            }
        };
        let (cx, cy) = match coerce(x, y) {
            Ok(p) => p,
            Err(e) => {
                return Err(e);
            }
        };
        match (cx, cy) {
            (Item::Num(a), Item::Num(b)) => {
                self.push(Item::Num(b ^ a));
                Ok(())
            }
            (Item::Array(a), Item::Array(b)) => {
                let only_b = keep_not_in_exec(unique_items(crate::items::clone_items(&b)), &a);
                let only_a = keep_not_in_exec(unique_items(a), &b);
                self.push(Item::Array(concat_items(only_b, only_a)));
                Ok(())
            }
            _ => Err(runtime_err("unsupported operand types")),
        }
    }
}

} // verus!

verus! {

use crate::items::lemma_views_of_parts;

impl Interpreter {
    /// `!`: 1 on a false value, 0 on a true one.
    pub fn not(&mut self) -> (r: Result<(), GSError>)
        ensures
            eval_matches(step_not(old(self)@), final(self)@, r),
    {
        let v = match self.pop() {
            Ok(v) => v,
            Err(e) => {
                return Err(e);
            }
        };
        if v.is_true() {
            self.push(Item::Num(0));
        } else {
            self.push(Item::Num(1));
        }
        Ok(())
    }

    /// `@`: rotate the third value to the top.
    pub fn at(&mut self) -> (r: Result<(), GSError>)
        ensures
            eval_matches(step_at(old(self)@), final(self)@, r),
    {
        let (x, y) = match self.pop2() {
            Ok(p) => p,
            Err(e) => {
                return Err(e);
            }
        };
        let z = match self.pop() {
            Ok(v) => v,
            Err(e) => {
                return Err(e);
            }
        };
        self.push(y);
        self.push(x);
        self.push(z);
        Ok(())
    }

    /// `\`: swap the top two values.
    pub fn swap(&mut self) -> (r: Result<(), GSError>)
        ensures
            eval_matches(step_swap(old(self)@), final(self)@, r),
    {
        let (x, y) = match self.pop2() {
            Ok(p) => p,
            Err(e) => {
                return Err(e);
            }
        };
        self.push(x);
        self.push(y);
        Ok(())
    }

    /// `;`: drop the top value.
    pub fn pop_discard(&mut self) -> (r: Result<(), GSError>)
        ensures
            eval_matches(step_drop(old(self)@), final(self)@, r),
    {
        match self.pop() {
            Ok(_) => Ok(()),
            Err(e) => Err(e),
        }
    }

    /// `.`: duplicate the top value.
    pub fn dup(&mut self) -> (r: Result<(), GSError>)
        ensures
            eval_matches(step_dup(old(self)@), final(self)@, r),
    {
        let v = match self.pop() {
            Ok(v) => v,
            Err(e) => {
                return Err(e);
            }
        };
        let c = clone_item(&v);
        self.push(c);
        self.push(v);
        Ok(())
    }

    /// `` ` ``: replace the top value by its display form.
    pub fn backtick(&mut self) -> (r: Result<(), GSError>)
        ensures
            eval_matches(step_backtick(old(self)@), final(self)@, r),
    {
        let v = match self.pop() {
            Ok(v) => v,
            Err(e) => {
                return Err(e);
            }
        };
        let d = v.display_chars();
        self.push(Item::Str(d));
        Ok(())
    }

    /// `abs`: the absolute value of an integer.
    pub fn builtin_abs(&mut self) -> (r: Result<(), GSError>)
        ensures
            eval_matches(step_abs(old(self)@), final(self)@, r),
    {
        let v = match self.pop() {
            Ok(v) => v,
            Err(e) => {
                return Err(e);
            }
        };
        match v {
            Item::Num(n) => {
                if n == i64::MIN {
                    Err(runtime_err("absolute value leaves the 64-bit range"))
                } else {
                    self.push(Item::Num(if n < 0 { -n } else { n }));
                    Ok(())
                }
            }
            _ => Err(runtime_err("abs takes an integer")),
        }
    }

    /// `n` as a built-in: push a newline string.
    pub fn builtin_n(&mut self) -> (r: Result<(), GSError>)
        ensures
            r is Ok,
            final(self)@ == st_push(old(self)@, ItemV::Str("\n"@)),
    {
        self.push(Item::Str(crate::lexer::chars_of_str("\n")));
        Ok(())
    }

    /// `:name`: bind the name to the top of the stack, which stays.
    pub fn assign(&mut self, name: Vec<char>) -> (r: Result<(), GSError>)
        ensures
            eval_matches(step_assign(old(self)@, name@), final(self)@, r),
    {
        let v = match self.peek() {
            Ok(v) => v,
            Err(e) => {
                return Err(e);
            }
        };
        self.add_variable(name, v);
        Ok(())
    }

    /// `[`: remember the stack length.
    pub fn marker(&mut self) -> (r: Result<(), GSError>)
        ensures
            eval_matches(step_marker(old(self)@), final(self)@, r),
    {
        self.push_marker();
        Ok(())
    }

    /// `]`: collect everything above the last marker into one array.
    pub fn slice(&mut self) -> (r: Result<(), GSError>)
        ensures
            eval_matches(step_slice(old(self)@), final(self)@, r),
    {
        let m = match self.take_marker() {
            Some(m) => m,
            None => {
                return Err(runtime_err("marker stack underflow"));
            }
        };
        if m > self.stack_len() {
            return Err(runtime_err("marker beyond the stack"));
        }
        self.collect_from(m);
        Ok(())
    }

    /// `rand`: a value in `[0, n)` for positive n, `[n, 0)` for
    /// negative; an empty range is a runtime error. Draws at or above
    /// the largest multiple of the span are rejected and the generator
    /// stepped again, so the remainder that is kept is unbiased.
    pub fn builtin_rand(&mut self) -> (r: Result<(), GSError>)
        ensures
            eval_matches(step_rand(old(self)@), final(self)@, r),
    {
        let v = match self.pop() {
            Ok(v) => v,
            Err(e) => {
                return Err(e);
            }
        };
        match v {
            Item::Num(n) => {
                if n == 0 {
                    return Err(runtime_err("empty random range"));
                }
                let ghost mid = self@;
                let span: u64 = if n == i64::MIN {
                    9223372036854775808u64
                } else if n < 0 {
                    (-n) as u64
                } else {
                    n as u64
                };
                let ghost span_i: int = if n < 0 { -(n as int) } else { n as int };
                let q: u128 = 0x1_0000_0000_0000_0000u128 / (span as u128);
                proof {
                    vstd::arithmetic::div_mod::lemma_fundamental_div_mod(
                        0x1_0000_0000_0000_0000,
                        span as int,
                    );
                    vstd::arithmetic::div_mod::lemma_mod_bound(
                        0x1_0000_0000_0000_0000,
                        span as int,
                    );
                }
                let zone: u128 = q * (span as u128);
                let mut tries: u64 = RAND_TRIES;
                let mut s2 = self.next_rng();
                while (s2 as u128) >= zone && tries > 0
                    invariant
                        1 <= span,
                        span as int == span_i,
                        zone as int == rand_zone(span_i),
                        self@ == (StateV { rng: s2, ..mid }),
                        rand_draw(lcg(mid.rng), span_i, RAND_TRIES as nat) == rand_draw(
                            s2,
                            span_i,
                            tries as nat,
                        ),
                    decreases tries,
                {
                    s2 = self.next_rng();
                    tries = tries - 1;
                }
                let k = s2 % span;
                let lo: i64 = if n < 0 { n } else { 0 };
                let val = lo + (k as i64);
                self.push(Item::Num(val));
                Ok(())
            }
            _ => Err(runtime_err("rand takes an integer")),
        }
    }

    /// `print`: append the display form of the top value and a newline
    /// to the output.
    pub fn builtin_print(&mut self) -> (r: Result<(), GSError>)
        ensures
            eval_matches(step_print(old(self)@), final(self)@, r),
    {
        let v = match self.pop() {
            Ok(v) => v,
            Err(e) => {
                return Err(e);
            }
        };
        let d = v.display_chars();
        self.write_line(&d);
        Ok(())
    }

    /// `(`: decrement an integer; pull the first element off an array.
    pub fn dec(&mut self) -> (r: Result<(), GSError>)
        ensures
            eval_matches(step_dec(old(self)@), final(self)@, r),
    {
        let v = match self.pop() {
            Ok(v) => v,
            Err(e) => {
                return Err(e);
            }
        };
        match v {
            Item::Num(n) => {
                match n.checked_sub(1) {
                    Some(m) => {
                        self.push(Item::Num(m));
                        Ok(())
                    }
                    None => Err(runtime_err("decrement leaves the 64-bit range")),
                }
            }
            Item::Array(mut els) => {
                if els.len() == 0 {
                    Ok(())
                } else {
                    let ghost els0 = els@;
                    proof {
                        lemma_views_of(els0);
                    }
                    let head = els.remove(0);
                    proof {
                        assert(els@ =~= els0.skip(1));
                        lemma_views_of_parts(els0, 1);
                        assert(views_of(els0).drop_first() =~= views_of(els0).skip(1));
                    }
                    self.push(Item::Array(els));
                    self.push(head);
                    Ok(())
                }
            }
            _ => Err(runtime_err("unsupported operand type")),
        }
    }

    /// `)`: increment an integer; pull the last element off an array.
    pub fn inc(&mut self) -> (r: Result<(), GSError>)
        ensures
            eval_matches(step_inc(old(self)@), final(self)@, r),
    {
        let v = match self.pop() {
            Ok(v) => v,
            Err(e) => {
                return Err(e);
            }
        };
        match v {
            Item::Num(n) => {
                match n.checked_add(1) {
                    Some(m) => {
                        self.push(Item::Num(m));
                        Ok(())
                    }
                    None => Err(runtime_err("increment leaves the 64-bit range")),
                }
            }
            Item::Array(mut els) => {
                if els.len() == 0 {
                    Ok(())
                } else {
                    let ghost els0 = els@;
                    let last = match els.pop() {
                        Some(x) => x,
                        None => {
                            return Err(runtime_err("unreachable"));
                        }
                    };
                    proof {
                        assert(els@ =~= els0.drop_last());
                        assert(views_of(els0).drop_last() =~= views_of(els0.drop_last()));
                    }
                    self.push(Item::Array(els));
                    self.push(last);
                    Ok(())
                }
            }
            _ => Err(runtime_err("unsupported operand type")),
        }
    }
}

} // verus!

verus! {

/// The first `eff` of `n`-and-`len` as the take rule gives it, as a
/// machine index.
fn take_len(n: i64, len: usize) -> (r: usize)
    ensures
        r as int == take_amount(n as int, len as int),
{
    if n >= 0 {
        if n as i128 > len as i128 {
            len
        } else {
            n as usize
        }
    } else {
        let amt: i128 = len as i128 + n as i128;
        if amt < 0 {
            len
        } else {
            amt as usize
        }
    }
}

impl Interpreter {
    /// `<`: order test on two integers or two strings; the first part
    /// of an array or string otherwise.
    pub fn lt(&mut self) -> (r: Result<(), GSError>)
        ensures
            eval_matches(step_lt(old(self)@), final(self)@, r),
    {
        let (y, x) = match self.pop2() {
            Ok(p) => p,
            Err(e) => {
                return Err(e);
            }
        };
        match (y, x) {
            (Item::Num(a), Item::Num(b)) => {
                self.push(Item::Num(if b < a { 1 } else { 0 }));
                Ok(())
            }
            (Item::Str(a), Item::Str(b)) => {
                let c = cmp_chars_exec(&b, &a);
                self.push(Item::Num(if c < 0 { 1 } else { 0 }));
                Ok(())
            }
            (Item::Num(n), Item::Array(mut els)) => {
                proof {
                    lemma_views_of(els@);
                }
                let ghost els0 = els@;
                let eff = take_len(n, els.len());
                els.truncate(eff);
                proof {
                    lemma_views_of_parts(els0, eff as int);
                }
                self.push(Item::Array(els));
                Ok(())
            }
            (Item::Array(mut els), Item::Num(n)) => {
                proof {
                    lemma_views_of(els@);
                }
                let ghost els0 = els@;
                let eff = take_len(n, els.len());
                els.truncate(eff);
                proof {
                    lemma_views_of_parts(els0, eff as int);
                }
                self.push(Item::Array(els));
                Ok(())
            }
            (Item::Num(n), Item::Str(mut s)) => {
                let eff = take_len(n, s.len());
                s.truncate(eff);
                self.push(Item::Str(s));
                Ok(())
            }
            (Item::Str(mut s), Item::Num(n)) => {
                let eff = take_len(n, s.len());
                s.truncate(eff);
                self.push(Item::Str(s));
                Ok(())
            }
            _ => Err(runtime_err("unsupported operand types")),
        }
    }

    /// `>`: order test on two integers or two strings; the rest of an
    /// array or string otherwise.
    pub fn gt(&mut self) -> (r: Result<(), GSError>)
        ensures
            eval_matches(step_gt(old(self)@), final(self)@, r),
    {
        let (y, x) = match self.pop2() {
            Ok(p) => p,
            Err(e) => {
                return Err(e);
            }
        };
        match (y, x) {
            (Item::Num(a), Item::Num(b)) => {
                self.push(Item::Num(if b > a { 1 } else { 0 }));
                Ok(())
            }
            (Item::Str(a), Item::Str(b)) => {
                let c = cmp_chars_exec(&b, &a);
                self.push(Item::Num(if c > 0 { 1 } else { 0 }));
                Ok(())
            }
            (Item::Num(n), Item::Str(mut s)) => {
                let eff = take_len(n, s.len());
                let rest = s.split_off(eff);
                self.push(Item::Str(rest));
                Ok(())
            }
            (Item::Str(mut s), Item::Num(n)) => {
                let eff = take_len(n, s.len());
                let rest = s.split_off(eff);
                self.push(Item::Str(rest));
                Ok(())
            }
            (Item::Num(n), Item::Array(mut els)) => {
                proof {
                    lemma_views_of(els@);
                }
                let ghost els0 = els@;
                let eff = take_len(n, els.len());
                let rest = els.split_off(eff);
                proof {
                    lemma_views_of_parts(els0, eff as int);
                }
                self.push(Item::Array(rest));
                Ok(())
            }
            (Item::Array(mut els), Item::Num(n)) => {
                proof {
                    lemma_views_of(els@);
                }
                let ghost els0 = els@;
                let eff = take_len(n, els.len());
                let rest = els.split_off(eff);
                proof {
                    lemma_views_of_parts(els0, eff as int);
                }
                self.push(Item::Array(rest));
                Ok(())
            }
            _ => Err(runtime_err("unsupported operand types")),
        }
    }

    /// `=`: equality of two values of the same kind; indexing with an
    /// integer beside an array or string, a negative index counting
    /// from the end, out of range pushing nothing.
    pub fn eq(&mut self) -> (r: Result<(), GSError>)
        ensures
            eval_matches(step_eq(old(self)@), final(self)@, r),
    {
        let (y, x) = match self.pop2() {
            Ok(p) => p,
            Err(e) => {
                return Err(e);
            }
        };
        match (&y, &x) {
            (Item::Num(_), Item::Num(_))
            | (Item::Str(_), Item::Str(_))
            | (Item::Array(_), Item::Array(_))
            | (Item::Block(_), Item::Block(_)) => {
                let same = item_eq(&x, &y);
                self.push(Item::Num(if same { 1 } else { 0 }));
                Ok(())
            }
            _ => {
                match (y, x) {
                    (Item::Num(n), Item::Array(els)) => {
                        proof {
                            lemma_views_of(els@);
                        }
                        let os: i128 = if n < 0 {
                            els.len() as i128 + n as i128
                        } else {
                            n as i128
                        };
                        if 0 <= os && os < els.len() as i128 {
                            let el = clone_item(&els[os as usize]);
                            self.push(el);
                        }
                        Ok(())
                    }
                    (Item::Array(els), Item::Num(n)) => {
                        proof {
                            lemma_views_of(els@);
                        }
                        let os: i128 = if n < 0 {
                            els.len() as i128 + n as i128
                        } else {
                            n as i128
                        };
                        if 0 <= os && os < els.len() as i128 {
                            let el = clone_item(&els[os as usize]);
                            self.push(el);
                        }
                        Ok(())
                    }
                    (Item::Num(n), Item::Str(s)) => {
                        let os: i128 = if n < 0 {
                            s.len() as i128 + n as i128
                        } else {
                            n as i128
                        };
                        if 0 <= os && os < s.len() as i128 {
                            let c = s[os as usize];
                            self.push(Item::Num(c as u32 as i64));
                        }
                        Ok(())
                    }
                    (Item::Str(s), Item::Num(n)) => {
                        let os: i128 = if n < 0 {
                            s.len() as i128 + n as i128
                        } else {
                            n as i128
                        };
                        if 0 <= os && os < s.len() as i128 {
                            let c = s[os as usize];
                            self.push(Item::Num(c as u32 as i64));
                        }
                        Ok(())
                    }
                    _ => Err(runtime_err("unsupported operand types")),
                }
            }
        }
    }
}

} // verus!

verus! {

use crate::items::item_cmp;
use crate::items::upcast_str_ok;
use crate::semantics::insert_sorted;
use crate::semantics::sort_items;
use crate::semantics::insert_sorted_char;
use crate::semantics::sort_chars;
use crate::semantics::insert_sorted_pair;
use crate::semantics::sort_pairs;
use crate::semantics::pair_views;
use crate::semantics::snds;
use crate::semantics::cmp_codes;
use crate::semantics::pow_int;
use crate::semantics::fits_i64;
use crate::semantics::lemma_pow_zero;
use crate::semantics::lemma_pow_one;
use crate::semantics::lemma_pow_neg_one;
use crate::semantics::lemma_pow_mag;
use crate::semantics::find_eq_index;
use crate::semantics::repeat_chars;
use crate::semantics::repeat_els;
use crate::semantics::chunks;
use crate::semantics::stride;
use crate::semantics::join_str;
use crate::semantics::join_str_ok;
use crate::semantics::join_arr;
use crate::semantics::join_chars;
use crate::semantics::splice_one;
use crate::semantics::str_of;
use crate::semantics::split_at;
use crate::semantics::split_arr;
use crate::semantics::split_chars_at;
use crate::semantics::split_chars;
use crate::items::cmp_vals;

/// Where an element belongs in a sorted run: after every element that
/// compares greater from the right end.
proof fn lemma_insert_sorted_at(x: ItemV, s: Seq<ItemV>, j: int)
    requires
        0 <= j <= s.len(),
        forall|l: int| j <= l < s.len() ==> cmp_vals(#[trigger] s[l], x) > 0,
        j > 0 ==> cmp_vals(s[j - 1], x) <= 0,
    ensures
        insert_sorted(x, s) == s.take(j).push(x) + s.skip(j),
    decreases s.len(),
{
    if j == s.len() {
        if s.len() == 0 {
            assert(insert_sorted(x, s) =~= s.take(j).push(x) + s.skip(j));
        } else {
            assert(insert_sorted(x, s) == s.push(x));
            assert(s.push(x) =~= s.take(j).push(x) + s.skip(j));
        }
    } else {
        assert(cmp_vals(s.last(), x) > 0);
        lemma_insert_sorted_at(x, s.drop_last(), j);
        assert(s.drop_last().take(j) =~= s.take(j));
        assert(insert_sorted(x, s) == insert_sorted(x, s.drop_last()).push(s.last()));
        assert((s.take(j).push(x) + s.drop_last().skip(j)).push(s.last()) =~= s.take(j).push(x)
            + s.skip(j));
    }
}

fn insert_pos(sorted: &Vec<Item>, x: &Item) -> (j: usize)
    ensures
        j <= sorted@.len(),
        forall|l: int| j <= l < sorted@.len() ==> cmp_vals(#[trigger] views_of(sorted@)[l], x@)
            > 0,
        j > 0 ==> cmp_vals(views_of(sorted@)[j - 1], x@) <= 0,
{
    proof {
        lemma_views_of(sorted@);
    }
    let mut j: usize = sorted.len();
    loop
        invariant
            j <= sorted@.len(),
            forall|l: int| j <= l < sorted@.len() ==> cmp_vals(
                #[trigger] views_of(sorted@)[l],
                x@,
            ) > 0,
        decreases j,
    {
        if j == 0 {
            return 0;
        }
        let c = item_cmp(&sorted[j - 1], x);
        proof {
            lemma_views_of(sorted@);
        }
        if c <= 0 {
            return j;
        }
        j = j - 1;
    }
}

fn insert_sorted_exec(x: Item, sorted: &mut Vec<Item>)
    ensures
        views_of(final(sorted)@) == insert_sorted(x@, views_of(old(sorted)@)),
{
    let j = insert_pos(sorted, &x);
    proof {
        lemma_views_of(sorted@);
        lemma_insert_sorted_at(x@, views_of(sorted@), j as int);
    }
    let ghost s0 = sorted@;
    sorted.insert(j, x);
    proof {
        lemma_views_of(sorted@);
        lemma_views_of(s0);
        assert forall|l: int| 0 <= l < views_of(sorted@).len() implies views_of(sorted@)[l]
            == (views_of(s0).take(j as int).push(x@) + views_of(s0).skip(j as int))[l] by {
            assert(views_of(sorted@)[l] == sorted@[l]@);
            if l < j {
                assert(sorted@[l] == s0[l]);
            } else if l == j {
            } else {
                assert(sorted@[l] == s0[l - 1]);
            }
        }
        assert(views_of(sorted@) =~= views_of(s0).take(j as int).push(x@) + views_of(s0).skip(
            j as int,
        ));
    }
}

fn sort_items_exec(v: Vec<Item>) -> (r: Vec<Item>)
    ensures
        views_of(r@) == sort_items(views_of(v@)),
{
    let mut out: Vec<Item> = Vec::new();
    let mut i: usize = 0;
    proof {
        lemma_views_of(v@);
        assert(views_of(v@.take(0)) =~= Seq::<ItemV>::empty());
    }
    while i < v.len()
        invariant
            i <= v@.len(),
            views_of(out@) == sort_items(views_of(v@.take(i as int))),
        decreases v@.len() - i,
    {
        proof {
            lemma_views_of(v@);
            lemma_views_of_push(v@.take(i as int), v@[i as int]);
            assert(v@.take(i as int).push(v@[i as int]) =~= v@.take(i + 1));
            assert(views_of(v@.take(i + 1)).drop_last() =~= views_of(v@.take(i as int)));
        }
        let c = clone_item(&v[i]);
        insert_sorted_exec(c, &mut out);
        i = i + 1;
    }
    assert(v@.take(v@.len() as int) =~= v@);
    out
}

proof fn lemma_insert_sorted_char_at(x: char, s: Seq<char>, j: int)
    requires
        0 <= j <= s.len(),
        forall|l: int| j <= l < s.len() ==> cmp_codes(#[trigger] s[l], x) > 0,
        j > 0 ==> cmp_codes(s[j - 1], x) <= 0,
    ensures
        insert_sorted_char(x, s) == s.take(j).push(x) + s.skip(j),
    decreases s.len(),
{
    if j == s.len() {
        if s.len() == 0 {
            assert(insert_sorted_char(x, s) =~= s.take(j).push(x) + s.skip(j));
        } else {
            assert(s.push(x) =~= s.take(j).push(x) + s.skip(j));
        }
    } else {
        lemma_insert_sorted_char_at(x, s.drop_last(), j);
        assert(s.drop_last().take(j) =~= s.take(j));
        assert((s.take(j).push(x) + s.drop_last().skip(j)).push(s.last()) =~= s.take(j).push(x)
            + s.skip(j));
    }
}

fn insert_pos_char(sorted: &Vec<char>, x: char) -> (j: usize)
    ensures
        j <= sorted@.len(),
        forall|l: int| j <= l < sorted@.len() ==> cmp_codes(#[trigger] sorted@[l], x) > 0,
        j > 0 ==> cmp_codes(sorted@[j - 1], x) <= 0,
{
    let mut j: usize = sorted.len();
    loop
        invariant
            j <= sorted@.len(),
            forall|l: int| j <= l < sorted@.len() ==> cmp_codes(#[trigger] sorted@[l], x) > 0,
        decreases j,
    {
        if j == 0 {
            return 0;
        }
        if !(sorted[j - 1] as u32 > x as u32) {
            return j;
        }
        j = j - 1;
    }
}

fn insert_sorted_char_exec(x: char, sorted: &mut Vec<char>)
    ensures
        final(sorted)@ == insert_sorted_char(x, old(sorted)@),
{
    let j = insert_pos_char(sorted, x);
    proof {
        lemma_insert_sorted_char_at(x, sorted@, j as int);
    }
    sorted.insert(j, x);
    proof {
        assert(sorted@ =~= old(sorted)@.take(j as int).push(x) + old(sorted)@.skip(j as int));
    }
}

fn sort_chars_exec(v: Vec<char>) -> (r: Vec<char>)
    ensures
        r@ == sort_chars(v@),
{
    let mut out: Vec<char> = Vec::new();
    let mut i: usize = 0;
    proof {
        assert(v@.take(0) =~= Seq::<char>::empty());
    }
    while i < v.len()
        invariant
            i <= v@.len(),
            out@ == sort_chars(v@.take(i as int)),
        decreases v@.len() - i,
    {
        proof {
            assert(v@.take(i + 1).drop_last() =~= v@.take(i as int));
            assert(v@.take(i + 1).last() == v@[i as int]);
        }
        insert_sorted_char_exec(v[i], &mut out);
        i = i + 1;
    }
    assert(v@.take(v@.len() as int) =~= v@);
    out
}

proof fn lemma_insert_sorted_pair_at(x: (ItemV, ItemV), s: Seq<(ItemV, ItemV)>, j: int)
    requires
        0 <= j <= s.len(),
        forall|l: int| j <= l < s.len() ==> cmp_vals((#[trigger] s[l]).0, x.0) > 0,
        j > 0 ==> cmp_vals(s[j - 1].0, x.0) <= 0,
    ensures
        insert_sorted_pair(x, s) == s.take(j).push(x) + s.skip(j),
    decreases s.len(),
{
    if j == s.len() {
        if s.len() == 0 {
            assert(insert_sorted_pair(x, s) =~= s.take(j).push(x) + s.skip(j));
        } else {
            assert(s.push(x) =~= s.take(j).push(x) + s.skip(j));
        }
    } else {
        lemma_insert_sorted_pair_at(x, s.drop_last(), j);
        assert(s.drop_last().take(j) =~= s.take(j));
        assert((s.take(j).push(x) + s.drop_last().skip(j)).push(s.last()) =~= s.take(j).push(x)
            + s.skip(j));
    }
}

fn insert_pos_pair(sorted: &Vec<(Item, Item)>, x: &Item) -> (j: usize)
    ensures
        j <= sorted@.len(),
        forall|l: int| j <= l < sorted@.len() ==> cmp_vals(
            (#[trigger] pair_views(sorted@)[l]).0,
            x@,
        ) > 0,
        j > 0 ==> cmp_vals(pair_views(sorted@)[j - 1].0, x@) <= 0,
{
    let mut j: usize = sorted.len();
    loop
        invariant
            j <= sorted@.len(),
            forall|l: int| j <= l < sorted@.len() ==> cmp_vals(
                (#[trigger] pair_views(sorted@)[l]).0,
                x@,
            ) > 0,
        decreases j,
    {
        if j == 0 {
            return 0;
        }
        let c = item_cmp(&sorted[j - 1].0, x);
        if c <= 0 {
            return j;
        }
        j = j - 1;
    }
}

fn insert_sorted_pair_exec(x: (Item, Item), sorted: &mut Vec<(Item, Item)>)
    ensures
        pair_views(final(sorted)@) == insert_sorted_pair((x.0@, x.1@), pair_views(old(sorted)@)),
{
    let j = insert_pos_pair(sorted, &x.0);
    proof {
        lemma_insert_sorted_pair_at((x.0@, x.1@), pair_views(sorted@), j as int);
    }
    let ghost s0 = sorted@;
    sorted.insert(j, x);
    proof {
        assert forall|l: int| 0 <= l < pair_views(sorted@).len() implies pair_views(sorted@)[l]
            == (pair_views(s0).take(j as int).push((x.0@, x.1@)) + pair_views(s0).skip(
            j as int,
        ))[l] by {
            if l < j {
                assert(sorted@[l] == s0[l]);
            } else if l == j {
            } else {
                assert(sorted@[l] == s0[l - 1]);
            }
        }
        assert(pair_views(sorted@) =~= pair_views(s0).take(j as int).push((x.0@, x.1@))
            + pair_views(s0).skip(j as int));
    }
}

fn sort_pairs_exec(v: Vec<(Item, Item)>) -> (r: Vec<(Item, Item)>)
    ensures
        pair_views(r@) == sort_pairs(pair_views(v@)),
{
    let mut out: Vec<(Item, Item)> = Vec::new();
    let mut i: usize = 0;
    proof {
        assert(pair_views(v@.take(0)) =~= Seq::<(ItemV, ItemV)>::empty());
    }
    while i < v.len()
        invariant
            i <= v@.len(),
            pair_views(out@) == sort_pairs(pair_views(v@.take(i as int))),
        decreases v@.len() - i,
    {
        proof {
            assert(v@.take(i + 1).drop_last() =~= v@.take(i as int));
            assert forall|l: int| 0 <= l < pair_views(v@.take(i + 1)).len()
                implies pair_views(v@.take(i + 1))[l] == pair_views(v@.take(i as int)).push(
                (v@[i as int].0@, v@[i as int].1@),
            )[l] by {}
            assert(pair_views(v@.take(i + 1)) =~= pair_views(v@.take(i as int)).push(
                (v@[i as int].0@, v@[i as int].1@),
            ));
            assert(pair_views(v@.take(i + 1)).drop_last() =~= pair_views(v@.take(i as int)));
        }
        let key = clone_item(&v[i].0);
        let val = clone_item(&v[i].1);
        insert_sorted_pair_exec((key, val), &mut out);
        i = i + 1;
    }
    assert(v@.take(v@.len() as int) =~= v@);
    out
}

fn snds_exec(v: Vec<(Item, Item)>) -> (r: Vec<Item>)
    ensures
        views_of(r@) == snds(pair_views(v@)),
{
    let mut out: Vec<Item> = Vec::new();
    let mut i: usize = 0;
    proof {
        assert(views_of(out@) =~= snds(pair_views(v@.take(0))));
    }
    while i < v.len()
        invariant
            i <= v@.len(),
            views_of(out@) == snds(pair_views(v@.take(i as int))),
        decreases v@.len() - i,
    {
        let c = clone_item(&v[i].1);
        proof {
            lemma_views_of_push(out@, c);
            assert(views_of(out@).push(c@) =~= snds(pair_views(v@.take(i + 1))));
        }
        out.push(c);
        i = i + 1;
    }
    assert(v@.take(v@.len() as int) =~= v@);
    out
}

/// The power of a 64-bit integer, exactly when it fits.
fn pow_exec(b: i64, e: u64) -> (r: Option<i64>)
    ensures
        match r {
            Some(p) => p as int == pow_int(b as int, e as nat),
            None => !fits_i64(pow_int(b as int, e as nat)),
        },
{
    if b == 0 {
        proof {
            lemma_pow_zero(e as nat);
        }
        if e == 0 {
            Some(1)
        } else {
            Some(0)
        }
    } else if b == 1 {
        proof {
            lemma_pow_one(e as nat);
        }
        Some(1)
    } else if b == -1 {
        proof {
            lemma_pow_neg_one(e as nat);
        }
        if e % 2 == 0 {
            Some(1)
        } else {
            Some(-1)
        }
    } else {
        let mut acc: i64 = 1;
        let mut i: u64 = 0;
        while i < e
            invariant
                i <= e,
                b <= -2 || b >= 2,
                acc as int == pow_int(b as int, i as nat),
            decreases e - i,
        {
            match acc.checked_mul(b) {
                None => {
                    proof {
                        assert(pow_int(b as int, (i + 1) as nat) == b * pow_int(
                            b as int,
                            i as nat,
                        ));
                        assert(acc as int * b as int == b as int * pow_int(b as int, i as nat))
                            by (nonlinear_arith)
                            requires
                                acc as int == pow_int(b as int, i as nat),
                        ;
                        lemma_pow_mag(b as int, (i + 1) as nat, e as nat);
                    }
                    return None;
                }
                Some(m) => {
                    proof {
                        assert(acc as int * b as int == b as int * pow_int(b as int, i as nat))
                            by (nonlinear_arith)
                            requires
                                acc as int == pow_int(b as int, i as nat),
                        ;
                    }
                    acc = m;
                    i = i + 1;
                }
            }
        }
        Some(acc)
    }
}

} // verus!

verus! {


/// Whether the pattern occurs at position `i`.
fn match_at(s: &Vec<Item>, p: &Vec<Item>, i: usize) -> (r: bool)
    requires
        i + p@.len() <= s@.len(),
    ensures
        r == (views_of(s@).subrange(i as int, i + p@.len()) == views_of(p@)),
{
    proof {
        lemma_views_of(s@);
        lemma_views_of(p@);
    }
    let n = s.len();
    let mut k: usize = 0;
    while k < p.len()
        invariant
            k <= p@.len(),
            n == s@.len(),
            i + p@.len() <= s@.len(),
            forall|l: int| 0 <= l < k ==> #[trigger] views_of(s@)[i + l] == views_of(p@)[l],
        decreases p@.len() - k,
    {
        proof {
            lemma_views_of(s@);
            lemma_views_of(p@);
            assert(i + k < s@.len());
        }
        if !item_eq(&s[i + k], &p[k]) {
            proof {
                assert(views_of(s@)[i + k as int] != views_of(p@)[k as int]);
                assert(views_of(s@).subrange(i as int, i + p@.len())[k as int] == views_of(
                    s@,
                )[i + k as int]);
            }
            return false;
        }
        k = k + 1;
    }
    proof {
        assert forall|l: int| 0 <= l < p@.len() implies views_of(s@).subrange(
            i as int,
            i + p@.len(),
        )[l] == views_of(p@)[l] by {
            assert(views_of(s@).subrange(i as int, i + p@.len())[l] == views_of(s@)[i + l]);
        }
        assert(views_of(s@).subrange(i as int, i + p@.len()) =~= views_of(p@));
    }
    true
}

fn split_arr_exec(s: Vec<Item>, p: &Vec<Item>) -> (r: Vec<Item>)
    ensures
        views_of(r@) == split_arr(views_of(s@), views_of(p@)),
{
    proof {
        lemma_views_of(s@);
        lemma_views_of(p@);
    }
    if p.len() == 0 {
        let mut out: Vec<Item> = Vec::new();
        let mut i: usize = 0;
        while i < s.len()
            invariant
                i <= s@.len(),
                views_of(out@).len() == i,
                forall|l: int| 0 <= l < i ==> #[trigger] views_of(out@)[l] == ItemV::Array(
                    Seq::empty(),
                ),
            decreases s@.len() - i,
        {
            let e: Vec<Item> = Vec::new();
            let a = Item::Array(e);
            proof {
                lemma_views_of_push(out@, a);
                lemma_views_of(out@);
            }
            out.push(a);
            proof {
                lemma_views_of(out@);
            }
            i = i + 1;
        }
        proof {
            lemma_views_of(out@);
            assert(views_of(out@) =~= split_arr(views_of(s@), views_of(p@)));
        }
        return out;
    }
    let mut cur: Vec<Item> = Vec::new();
    let mut acc: Vec<Item> = Vec::new();
    let mut i: usize = 0;
    let ghost sv = views_of(s@);
    let ghost pv = views_of(p@);
    proof {
        assert(views_of(cur@) =~= Seq::<ItemV>::empty());
        assert(views_of(acc@) =~= Seq::<ItemV>::empty());
    }
    while p.len() <= s.len() - i && i < s.len()
        invariant
            i <= s@.len(),
            p@.len() >= 1,
            sv == views_of(s@),
            pv == views_of(p@),
            sv.len() == s@.len(),
            pv.len() == p@.len(),
            split_at(sv, pv, 0, Seq::empty(), Seq::empty(), false) == split_at(
                sv,
                pv,
                i as int,
                views_of(cur@),
                views_of(acc@),
                false,
            ),
        decreases s@.len() - i,
    {
        if match_at(&s, p, i) {
            let piece = Item::Array(cur);
            proof {
                lemma_views_of_push(acc@, piece);
            }
            acc.push(piece);
            cur = Vec::new();
            proof {
                assert(views_of(cur@) =~= Seq::<ItemV>::empty());
            }
            i = i + p.len();
        } else {
            let c = clone_item(&s[i]);
            proof {
                lemma_views_of_push(cur@, c);
                lemma_views_of(s@);
            }
            cur.push(c);
            i = i + 1;
        }
    }
    // gather the tail
    let ghost i0 = i as int;
    let ghost cur0 = views_of(cur@);
    while i < s.len()
        invariant
            0 <= i0 <= i <= s@.len(),
            sv == views_of(s@),
            sv.len() == s@.len(),
            views_of(cur@) == cur0 + sv.subrange(i0, i as int),
        decreases s@.len() - i,
    {
        let c = clone_item(&s[i]);
        proof {
            lemma_views_of_push(cur@, c);
            lemma_views_of(s@);
            assert((cur0 + sv.subrange(i0, i as int)).push(sv[i as int]) =~= cur0 + sv.subrange(
                i0,
                i + 1,
            ));
        }
        cur.push(c);
        i = i + 1;
    }
    proof {
        assert(views_of(cur@) =~= cur0 + sv.skip(i0));
    }
    if cur.len() > 0 {
        proof {
            lemma_views_of(cur@);
        }
        let piece = Item::Array(cur);
        proof {
            lemma_views_of_push(acc@, piece);
        }
        acc.push(piece);
        acc
    } else {
        proof {
            lemma_views_of(cur@);
        }
        acc
    }
}

/// Whether the character pattern occurs at position `i`.
fn match_chars_at(s: &Vec<char>, p: &Vec<char>, i: usize) -> (r: bool)
    requires
        i + p@.len() <= s@.len(),
    ensures
        r == (s@.subrange(i as int, i + p@.len()) == p@),
{
    let n = s.len();
    let mut k: usize = 0;
    while k < p.len()
        invariant
            k <= p@.len(),
            n == s@.len(),
            i + p@.len() <= s@.len(),
            forall|l: int| 0 <= l < k ==> s@[i + l] == p@[l],
        decreases p@.len() - k,
    {
        proof {
            assert(i + k < s@.len());
        }
        if s[i + k] != p[k] {
            proof {
                assert(s@.subrange(i as int, i + p@.len())[k as int] == s@[i + k as int]);
            }
            return false;
        }
        k = k + 1;
    }
    proof {
        assert(s@.subrange(i as int, i + p@.len()) =~= p@);
    }
    true
}

fn split_chars_exec(s: &Vec<char>, p: &Vec<char>) -> (r: Vec<Item>)
    ensures
        views_of(r@) == split_chars(s@, p@),
{
    if p.len() == 0 {
        let mut out: Vec<Item> = Vec::new();
        let e: Vec<char> = Vec::new();
        let a = Item::Str(e);
        proof {
            lemma_views_of_push(out@, a);
        }
        out.push(a);
        let mut i: usize = 0;
        proof {
            lemma_views_of(out@);
            assert(views_of(out@) =~= seq![ItemV::Str(Seq::empty())]);
        }
        while i < s.len()
            invariant
                i <= s@.len(),
                views_of(out@) == seq![ItemV::Str(Seq::<char>::empty())] + Seq::new(
                    i as nat,
                    |l: int| ItemV::Str(seq![s@[l]]),
                ),
            decreases s@.len() - i,
        {
            let mut one: Vec<char> = Vec::new();
            one.push(s[i]);
            let a2 = Item::Str(one);
            proof {
                lemma_views_of_push(out@, a2);
                assert(views_of(out@).push(a2@) =~= seq![ItemV::Str(Seq::<char>::empty())]
                    + Seq::new((i + 1) as nat, |l: int| ItemV::Str(seq![s@[l]])));
            }
            out.push(a2);
            i = i + 1;
        }
        let e2: Vec<char> = Vec::new();
        let a3 = Item::Str(e2);
        proof {
            lemma_views_of_push(out@, a3);
        }
        out.push(a3);
        proof {
            assert(views_of(out@) =~= split_chars(s@, p@));
        }
        return out;
    }
    let mut cur: Vec<char> = Vec::new();
    let mut acc: Vec<Item> = Vec::new();
    let mut i: usize = 0;
    proof {
        assert(views_of(acc@) =~= Seq::<ItemV>::empty());
    }
    while p.len() <= s.len() - i && i < s.len()
        invariant
            i <= s@.len(),
            p@.len() >= 1,
            split_chars_at(s@, p@, 0, Seq::empty(), Seq::empty()) == split_chars_at(
                s@,
                p@,
                i as int,
                cur@,
                views_of(acc@),
            ),
        decreases s@.len() - i,
    {
        if match_chars_at(s, p, i) {
            let piece = Item::Str(cur);
            proof {
                lemma_views_of_push(acc@, piece);
            }
            acc.push(piece);
            cur = Vec::new();
            i = i + p.len();
        } else {
            cur.push(s[i]);
            i = i + 1;
        }
    }
    let ghost i0 = i as int;
    let ghost cur0 = cur@;
    while i < s.len()
        invariant
            0 <= i0 <= i <= s@.len(),
            cur@ == cur0 + s@.subrange(i0, i as int),
        decreases s@.len() - i,
    {
        proof {
            assert((cur0 + s@.subrange(i0, i as int)).push(s@[i as int]) =~= cur0 + s@.subrange(
                i0,
                i + 1,
            ));
        }
        cur.push(s[i]);
        i = i + 1;
    }
    proof {
        assert(cur@ =~= cur0 + s@.skip(i0));
    }
    let piece = Item::Str(cur);
    proof {
        lemma_views_of_push(acc@, piece);
    }
    acc.push(piece);
    acc
}

fn chunks_exec(s: Vec<Item>, k: usize) -> (r: Vec<Item>)
    requires
        k >= 1,
    ensures
        views_of(r@) == chunks(views_of(s@), k as int),
{
    let mut out: Vec<Item> = Vec::new();
    let mut i: usize = 0;
    let ghost sv = views_of(s@);
    proof {
        lemma_views_of(s@);
        assert(views_of(out@) =~= Seq::<ItemV>::empty());
        assert(sv.skip(0) =~= sv);
    }
    while i < s.len()
        invariant
            i <= s@.len(),
            k >= 1,
            sv == views_of(s@),
            sv.len() == s@.len(),
            chunks(sv, k as int) == views_of(out@) + chunks(sv.skip(i as int), k as int),
        decreases s@.len() - i,
    {
        let hi = if s.len() - i < k {
            s.len()
        } else {
            i + k
        };
        let mut piece: Vec<Item> = Vec::new();
        let mut j: usize = i;
        while j < hi
            invariant
                i <= j <= hi <= s@.len(),
                sv == views_of(s@),
                sv.len() == s@.len(),
                views_of(piece@) == sv.subrange(i as int, j as int),
            decreases hi - j,
        {
            let c = clone_item(&s[j]);
            proof {
                lemma_views_of_push(piece@, c);
                lemma_views_of(s@);
                assert(sv.subrange(i as int, j as int).push(sv[j as int]) =~= sv.subrange(
                    i as int,
                    j + 1,
                ));
            }
            piece.push(c);
            j = j + 1;
        }
        let ghost out0 = views_of(out@);
        let a = Item::Array(piece);
        proof {
            lemma_views_of_push(out@, a);
        }
        out.push(a);
        proof {
            let rest = sv.skip(i as int);
            if rest.len() <= k {
                assert(sv.subrange(i as int, hi as int) =~= rest);
                assert(sv.skip(hi as int) =~= Seq::<ItemV>::empty());
                assert(out0 + chunks(rest, k as int) =~= views_of(out@) + chunks(
                    sv.skip(hi as int),
                    k as int,
                ));
            } else {
                assert(sv.subrange(i as int, hi as int) =~= rest.take(k as int));
                assert(sv.skip(hi as int) =~= rest.skip(k as int));
                assert(out0 + chunks(rest, k as int) =~= views_of(out@) + chunks(
                    sv.skip(hi as int),
                    k as int,
                ));
            }
        }
        i = hi;
    }
    proof {
        assert(sv.skip(s@.len() as int) =~= Seq::<ItemV>::empty());
        assert(views_of(out@) + chunks(sv.skip(s@.len() as int), k as int) =~= views_of(out@));
    }
    out
}

fn stride_exec(s: &Vec<Item>, k: usize) -> (r: Vec<Item>)
    requires
        k >= 1,
    ensures
        views_of(r@) == stride(views_of(s@), k as int),
{
    let mut out: Vec<Item> = Vec::new();
    let mut i: usize = 0;
    let ghost sv = views_of(s@);
    proof {
        lemma_views_of(s@);
        assert(views_of(out@) =~= Seq::<ItemV>::empty());
        assert(sv.skip(0) =~= sv);
    }
    while i < s.len()
        invariant
            i <= s@.len(),
            k >= 1,
            sv == views_of(s@),
            sv.len() == s@.len(),
            stride(sv, k as int) == views_of(out@) + stride(sv.skip(i as int), k as int),
        decreases s@.len() - i,
    {
        let c = clone_item(&s[i]);
        let ghost out0 = views_of(out@);
        proof {
            lemma_views_of_push(out@, c);
            lemma_views_of(s@);
        }
        out.push(c);
        let ghost rest = sv.skip(i as int);
        if s.len() - i <= k {
            proof {
                assert(rest.len() <= k && rest.len() > 0);
                assert(stride(rest, k as int) == seq![rest[0]]);
                assert(rest[0] == sv[i as int]);
                assert(sv.skip(s@.len() as int) =~= Seq::<ItemV>::empty());
                assert(out0 + stride(rest, k as int) =~= views_of(out@) + stride(
                    sv.skip(s@.len() as int),
                    k as int,
                ));
            }
            i = s.len();
        } else {
            proof {
                assert(rest.len() > k);
                assert(stride(rest, k as int) == seq![rest[0]] + stride(
                    rest.skip(k as int),
                    k as int,
                ));
                assert(rest[0] == sv[i as int]);
                assert(rest.skip(k as int) =~= sv.skip(i + k));
                assert(out0 + stride(rest, k as int) =~= views_of(out@) + stride(
                    sv.skip(i + k),
                    k as int,
                ));
            }
            i = i + k;
        }
    }
    proof {
        assert(sv.skip(s@.len() as int) =~= Seq::<ItemV>::empty());
        assert(views_of(out@) + stride(sv.skip(s@.len() as int), k as int) =~= views_of(out@));
    }
    out
}

fn reverse_items(s: Vec<Item>) -> (r: Vec<Item>)
    ensures
        views_of(r@) == views_of(s@).reverse(),
{
    let mut out: Vec<Item> = Vec::new();
    let mut i: usize = s.len();
    proof {
        lemma_views_of(s@);
    }
    while i > 0
        invariant
            i <= s@.len(),
            views_of(out@).len() == s@.len() - i,
            forall|l: int| 0 <= l < s@.len() - i ==> #[trigger] views_of(out@)[l] == views_of(
                s@,
            )[s@.len() - 1 - l],
        decreases i,
    {
        let c = clone_item(&s[i - 1]);
        proof {
            lemma_views_of_push(out@, c);
            lemma_views_of(out@);
            lemma_views_of(s@);
        }
        out.push(c);
        proof {
            lemma_views_of(out@);
        }
        i = i - 1;
    }
    proof {
        lemma_views_of(out@);
        assert(views_of(out@) =~= views_of(s@).reverse());
    }
    out
}

fn repeat_chars_exec(s: &Vec<char>, n: i64) -> (r: Vec<char>)
    requires
        n >= 0,
    ensures
        r@ == repeat_chars(s@, n as int),
{
    let mut out: Vec<char> = Vec::new();
    let mut i: i64 = 0;
    while i < n
        invariant
            0 <= i <= n,
            out@ == repeat_chars(s@, i as int),
        decreases n - i,
    {
        let mut j: usize = 0;
        let ghost out0 = out@;
        while j < s.len()
            invariant
                j <= s@.len(),
                out@ == out0 + s@.take(j as int),
            decreases s@.len() - j,
        {
            proof {
                assert((out0 + s@.take(j as int)).push(s@[j as int]) =~= out0 + s@.take(j + 1));
            }
            out.push(s[j]);
            j = j + 1;
        }
        proof {
            assert(out@ =~= out0 + s@);
        }
        i = i + 1;
    }
    out
}

fn repeat_els_exec(s: &Vec<Item>, n: i64) -> (r: Vec<Item>)
    requires
        n >= 0,
    ensures
        views_of(r@) == repeat_els(views_of(s@), n as int),
{
    let mut out: Vec<Item> = Vec::new();
    let mut i: i64 = 0;
    proof {
        assert(views_of(out@) =~= Seq::<ItemV>::empty());
    }
    while i < n
        invariant
            0 <= i <= n,
            views_of(out@) == repeat_els(views_of(s@), i as int),
        decreases n - i,
    {
        let ghost out0 = views_of(out@);
        let mut j: usize = 0;
        proof {
            lemma_views_of(s@);
            assert(views_of(s@).take(0) =~= Seq::<ItemV>::empty());
            assert(views_of(out@) =~= out0 + views_of(s@).take(0));
        }
        while j < s.len()
            invariant
                j <= s@.len(),
                views_of(s@).len() == s@.len(),
                views_of(out@) == out0 + views_of(s@).take(j as int),
            decreases s@.len() - j,
        {
            let c = clone_item(&s[j]);
            proof {
                lemma_views_of_push(out@, c);
                lemma_views_of(s@);
                assert((out0 + views_of(s@).take(j as int)).push(views_of(s@)[j as int])
                    =~= out0 + views_of(s@).take(j + 1));
            }
            out.push(c);
            j = j + 1;
        }
        proof {
            assert(views_of(s@).take(s@.len() as int) =~= views_of(s@));
            assert(views_of(out@) =~= out0 + views_of(s@));
        }
        i = i + 1;
    }
    out
}

fn find_eq_exec(els: &Vec<Item>, x: &Item) -> (r: Option<usize>)
    ensures
        match r {
            Some(i) => i < els@.len() && find_eq_index(views_of(els@), x@, 0) == i as int,
            None => find_eq_index(views_of(els@), x@, 0) == -1,
        },
{
    proof {
        lemma_views_of(els@);
    }
    let mut i: usize = 0;
    while i < els.len()
        invariant
            i <= els@.len(),
            find_eq_index(views_of(els@), x@, 0) == find_eq_index(views_of(els@), x@, i as int),
        decreases els@.len() - i,
    {
        proof {
            lemma_views_of(els@);
        }
        if item_eq(&els[i], x) {
            return Some(i);
        }
        i = i + 1;
    }
    None
}

} // verus!

verus! {

fn join_chars_exec(s: &Vec<char>, sep: &Vec<char>) -> (out: Vec<char>)
    ensures
        out@ == join_chars(s@, sep@),
{
    let mut out: Vec<char> = Vec::new();
    let mut i: usize = 0;
    proof {
        assert(s@.take(0) =~= Seq::<char>::empty());
    }
    while i < s.len()
        invariant
            i <= s@.len(),
            out@ == join_chars(s@.take(i as int), sep@),
        decreases s@.len() - i,
    {
        if i > 0 {
            let mut j: usize = 0;
            let ghost out0 = out@;
            while j < sep.len()
                invariant
                    j <= sep@.len(),
                    out@ == out0 + sep@.take(j as int),
                decreases sep@.len() - j,
            {
                proof {
                    assert((out0 + sep@.take(j as int)).push(sep@[j as int]) =~= out0
                        + sep@.take(j + 1));
                }
                out.push(sep[j]);
                j = j + 1;
            }
            proof {
                assert(out@ =~= out0 + sep@);
            }
        }
        proof {
            assert(s@.take(i + 1).drop_last() =~= s@.take(i as int));
            assert(s@.take(i + 1).last() == s@[i as int]);
            assert(s@.take(i + 1)[0] == s@[0]);
        }
        out.push(s[i]);
        proof {
            if i == 0 {
                assert(out@ =~= join_chars(s@.take(1), sep@));
            } else {
                assert(out@ =~= join_chars(s@.take(i as int), sep@) + sep@ + seq![s@[i as int]]);
            }
        }
        i = i + 1;
    }
    assert(s@.take(s@.len() as int) =~= s@);
    out
}

fn join_str_ok_exec(els: &Vec<Item>) -> (r: bool)
    ensures
        r == join_str_ok(views_of(els@)),
{
    proof {
        lemma_views_of(els@);
    }
    let mut i: usize = 0;
    while i < els.len()
        invariant
            i <= els@.len(),
            forall|l: int| 0 <= l < i ==> upcast_str_ok(#[trigger] views_of(els@)[l]),
        decreases els@.len() - i,
    {
        proof {
            lemma_views_of(els@);
        }
        if !els[i].upcast_str_defined() {
            proof {
                assert(!upcast_str_ok(views_of(els@)[i as int]));
            }
            return false;
        }
        i = i + 1;
    }
    true
}

fn join_str_exec(els: &Vec<Item>, sep: &Vec<char>) -> (out: Vec<char>)
    requires
        join_str_ok(views_of(els@)),
    ensures
        out@ == join_str(views_of(els@), sep@),
{
    let mut out: Vec<char> = Vec::new();
    let mut i: usize = 0;
    let ghost ev = views_of(els@);
    proof {
        lemma_views_of(els@);
        assert(views_of(els@.take(0)) =~= Seq::<ItemV>::empty());
    }
    while i < els.len()
        invariant
            i <= els@.len(),
            ev == views_of(els@),
            ev.len() == els@.len(),
            join_str_ok(ev),
            out@ == join_str(views_of(els@.take(i as int)), sep@),
        decreases els@.len() - i,
    {
        if i > 0 {
            let mut j: usize = 0;
            let ghost out0 = out@;
            while j < sep.len()
                invariant
                    j <= sep@.len(),
                    out@ == out0 + sep@.take(j as int),
                decreases sep@.len() - j,
            {
                proof {
                    assert((out0 + sep@.take(j as int)).push(sep@[j as int]) =~= out0
                        + sep@.take(j + 1));
                }
                out.push(sep[j]);
                j = j + 1;
            }
            proof {
                assert(out@ =~= out0 + sep@);
            }
        }
        proof {
            lemma_views_of(els@);
            assert(upcast_str_ok(ev[i as int]));
        }
        let ghost out1 = out@;
        let c = clone_item(&els[i]);
        let up = c.upcast_to_string();
        match up {
            Item::Str(cs) => {
                let mut j: usize = 0;
                while j < cs.len()
                    invariant
                        j <= cs@.len(),
                        out@ == out1 + cs@.take(j as int),
                    decreases cs@.len() - j,
                {
                    proof {
                        assert((out1 + cs@.take(j as int)).push(cs@[j as int]) =~= out1
                            + cs@.take(j + 1));
                    }
                    out.push(cs[j]);
                    j = j + 1;
                }
                proof {
                    assert(out@ =~= out1 + cs@);
                    assert(cs@ == str_of(ev[i as int]));
                }
            }
            _ => {
                proof {
                    assert(false);
                }
            }
        }
        proof {
            lemma_views_of_push(els@.take(i as int), els@[i as int]);
            assert(els@.take(i as int).push(els@[i as int]) =~= els@.take(i + 1));
            assert(views_of(els@.take(i + 1)).drop_last() =~= views_of(els@.take(i as int)));
            assert(views_of(els@.take(i + 1)).last() == ev[i as int]);
            lemma_views_of(els@.take(i + 1));
            assert(views_of(els@.take(i + 1))[0] == els@.take(i + 1)[0]@);
            assert(views_of(els@.take(i + 1))[0] == ev[0]);
            if i == 0 {
                assert(out@ =~= join_str(views_of(els@.take(1)), sep@));
            } else {
                assert(out@ =~= join_str(views_of(els@.take(i as int)), sep@) + sep@ + str_of(
                    ev[i as int],
                ));
            }
        }
        i = i + 1;
    }
    assert(els@.take(els@.len() as int) =~= els@);
    out
}

fn join_arr_exec(from: &Vec<Item>, sep: &Vec<Item>) -> (out: Vec<Item>)
    ensures
        views_of(out@) == join_arr(views_of(from@), views_of(sep@)),
{
    let mut out: Vec<Item> = Vec::new();
    let mut i: usize = 0;
    let ghost fv = views_of(from@);
    proof {
        lemma_views_of(from@);
        assert(views_of(from@.take(0)) =~= Seq::<ItemV>::empty());
        assert(views_of(out@) =~= Seq::<ItemV>::empty());
    }
    while i < from.len()
        invariant
            i <= from@.len(),
            fv == views_of(from@),
            fv.len() == from@.len(),
            views_of(out@) == join_arr(views_of(from@.take(i as int)), views_of(sep@)),
        decreases from@.len() - i,
    {
        if i > 0 {
            let more = crate::items::clone_items(sep);
            let ghost out0 = views_of(out@);
            let r2 = concat_items(out, more);
            out = r2;
            proof {
                assert(views_of(out@) =~= out0 + views_of(sep@));
            }
        }
        proof {
            lemma_views_of(from@);
        }
        let ghost out1 = views_of(out@);
        let c = clone_item(&from[i]);
        match c {
            Item::Array(inner) => {
                let r2 = concat_items(out, inner);
                out = r2;
            }
            other => {
                proof {
                    lemma_views_of_push(out@, other);
                }
                out.push(other);
                proof {
                    assert(views_of(out@) =~= out1 + splice_one(fv[i as int]));
                }
            }
        }
        proof {
            lemma_views_of_push(from@.take(i as int), from@[i as int]);
            assert(from@.take(i as int).push(from@[i as int]) =~= from@.take(i + 1));
            assert(views_of(from@.take(i + 1)).drop_last() =~= views_of(from@.take(i as int)));
            assert(views_of(from@.take(i + 1)).last() == fv[i as int]);
            lemma_views_of(from@.take(i + 1));
            assert(views_of(from@.take(i + 1))[0] == from@.take(i + 1)[0]@);
            assert(views_of(from@.take(i + 1))[0] == fv[0]);
            if i == 0 {
                assert(views_of(out@) =~= join_arr(views_of(from@.take(1)), views_of(sep@)));
            } else {
                assert(views_of(out@) =~= join_arr(
                    views_of(from@.take(i as int)),
                    views_of(sep@),
                ) + views_of(sep@) + splice_one(fv[i as int]));
            }
        }
        i = i + 1;
    }
    assert(from@.take(from@.len() as int) =~= from@);
    out
}

use crate::semantics::drop_empty_strs;
use crate::semantics::chars_as_nums;
use crate::semantics::chars_as_strs;

fn drop_empty_strs_exec(v: Vec<Item>) -> (r: Vec<Item>)
    ensures
        views_of(r@) == drop_empty_strs(views_of(v@)),
{
    let mut out: Vec<Item> = Vec::new();
    let mut i: usize = 0;
    proof {
        lemma_views_of(v@);
        assert(views_of(v@.take(0)) =~= Seq::<ItemV>::empty());
        assert(views_of(out@) =~= Seq::<ItemV>::empty());
    }
    while i < v.len()
        invariant
            i <= v@.len(),
            views_of(out@) == drop_empty_strs(views_of(v@.take(i as int))),
        decreases v@.len() - i,
    {
        proof {
            lemma_views_of(v@);
            lemma_views_of_push(v@.take(i as int), v@[i as int]);
            assert(v@.take(i as int).push(v@[i as int]) =~= v@.take(i + 1));
            assert(views_of(v@.take(i + 1)).drop_last() =~= views_of(v@.take(i as int)));
        }
        if v[i].is_true() {
            let c = clone_item(&v[i]);
            proof {
                lemma_views_of_push(out@, c);
            }
            out.push(c);
        }
        i = i + 1;
    }
    assert(v@.take(v@.len() as int) =~= v@);
    out
}

fn chars_as_nums_exec(s: &Vec<char>) -> (r: Vec<Item>)
    ensures
        views_of(r@) == chars_as_nums(s@),
{
    let mut out: Vec<Item> = Vec::new();
    let mut i: usize = 0;
    proof {
        assert(views_of(out@) =~= Seq::<ItemV>::empty());
        assert(views_of(out@) =~= chars_as_nums(s@.take(0)));
    }
    while i < s.len()
        invariant
            i <= s@.len(),
            views_of(out@) == chars_as_nums(s@.take(i as int)),
        decreases s@.len() - i,
    {
        let c = Item::Num(s[i] as u32 as i64);
        proof {
            lemma_views_of_push(out@, c);
            assert(views_of(out@).push(c@) =~= chars_as_nums(s@.take(i + 1)));
        }
        out.push(c);
        i = i + 1;
    }
    assert(s@.take(s@.len() as int) =~= s@);
    out
}

fn chars_as_strs_exec(s: &Vec<char>) -> (r: Vec<Item>)
    ensures
        views_of(r@) == chars_as_strs(s@),
{
    let mut out: Vec<Item> = Vec::new();
    let mut i: usize = 0;
    proof {
        assert(views_of(out@) =~= Seq::<ItemV>::empty());
        assert(views_of(out@) =~= chars_as_strs(s@.take(0)));
    }
    while i < s.len()
        invariant
            i <= s@.len(),
            views_of(out@) == chars_as_strs(s@.take(i as int)),
        decreases s@.len() - i,
    {
        let mut one: Vec<char> = Vec::new();
        one.push(s[i]);
        let c = Item::Str(one);
        proof {
            assert(c@ == ItemV::Str(seq![s@[i as int]]));
            lemma_views_of_push(out@, c);
            assert(views_of(out@).push(c@) =~= chars_as_strs(s@.take(i + 1)));
        }
        out.push(c);
        i = i + 1;
    }
    assert(s@.take(s@.len() as int) =~= s@);
    out
}

} // verus!

verus! {

use crate::semantics::FunRes;
use crate::semantics::fun_matches;
use crate::semantics::key_matches;
use crate::semantics::run_n;
use crate::semantics::each_els;
use crate::semantics::map_els;
use crate::semantics::filter_els;
use crate::semantics::find_el;
use crate::semantics::sort_keys;
use crate::semantics::unfold;
use crate::semantics::UNFOLD_ROUNDS;
use crate::semantics::step_mul;
use crate::semantics::step_div;
use crate::semantics::step_modulo;
use crate::semantics::step_array;
use crate::semantics::step_qmark;
use crate::semantics::step_dollar;
use crate::semantics::step_if;
use crate::semantics::step_neg;
use crate::semantics::step_execvar;
use crate::semantics::chunks as spec_chunks;
use crate::semantics::snd_is_char;
use crate::semantics::pair_chars;
use crate::semantics::lemma_sort_keys_snds;
use crate::semantics::lemma_sort_pairs_snd_char;

impl Interpreter {
    /// Run a block `n` times.
    fn run_n_exec(&mut self, blk: &Vec<Item>, n: u64, fuel: u64) -> (r: Result<(), GSError>)
        ensures
            eval_matches(run_n(old(self)@, views_of(blk@), n as int, fuel as nat), final(self)@, r),
        decreases fuel, 1nat, 0nat,
    {
        if fuel == 0 {
            return Err(runtime_err("nesting too deep"));
        }
        proof {
            assert(views_of(blk@).skip(0) =~= views_of(blk@));
        }
        let mut i: u64 = 0;
        loop
            invariant
                i <= n,
                fuel >= 1,
                run_n(old(self)@, views_of(blk@), n as int, fuel as nat) == run_n(
                    self@,
                    views_of(blk@),
                    n - i,
                    fuel as nat,
                ),
            decreases n - i,
        {
            if i >= n {
                return Ok(());
            }
            proof {
                assert(views_of(blk@).skip(0) =~= views_of(blk@));
            }
            match self.exec_items_from(blk, 0, fuel - 1) {
                Err(e) => {
                    return Err(e);
                }
                Ok(()) => {}
            }
            i = i + 1;
        }
    }

    /// `each`: push an element, run the block, and continue.
    fn each_exec(&mut self, blk: &Vec<Item>, els: Vec<Item>, fuel: u64) -> (r: Result<
        (),
        GSError,
    >)
        ensures
            eval_matches(
                each_els(old(self)@, views_of(blk@), views_of(els@), fuel as nat),
                final(self)@,
                r,
            ),
        decreases fuel, 1nat, 0nat,
    {
        if fuel == 0 {
            return Err(runtime_err("nesting too deep"));
        }
        let ghost ev = views_of(els@);
        proof {
            lemma_views_of(els@);
            assert(ev.skip(0) =~= ev);
            assert(views_of(blk@).skip(0) =~= views_of(blk@));
        }
        let mut i: usize = 0;
        loop
            invariant
                i <= els@.len(),
                fuel >= 1,
                ev == views_of(els@),
                ev.len() == els@.len(),
                each_els(old(self)@, views_of(blk@), ev, fuel as nat) == each_els(
                    self@,
                    views_of(blk@),
                    ev.skip(i as int),
                    fuel as nat,
                ),
            decreases els@.len() - i,
        {
            if i >= els.len() {
                proof {
                    assert(ev.skip(els@.len() as int) =~= Seq::<ItemV>::empty());
                }
                return Ok(());
            }
            proof {
                lemma_views_of(els@);
                assert(ev.skip(i as int)[0] == ev[i as int]);
                assert(ev.skip(i as int).drop_first() =~= ev.skip(i + 1));
            }
            let c = clone_item(&els[i]);
            self.push(c);
            proof {
                assert(views_of(blk@).skip(0) =~= views_of(blk@));
            }
            match self.exec_items_from(blk, 0, fuel - 1) {
                Err(e) => {
                    return Err(e);
                }
                Ok(()) => {}
            }
            i = i + 1;
        }
    }

    /// `map`: call the block on each element, gathering every value.
    fn map_exec(&mut self, blk: &Vec<Item>, els: Vec<Item>, fuel: u64) -> (r: Result<
        Vec<Item>,
        GSError,
    >)
        ensures
            fun_matches(
                map_els(old(self)@, views_of(blk@), views_of(els@), Seq::empty(), fuel as nat),
                final(self)@,
                r,
            ),
        decreases fuel, 1nat, 0nat,
    {
        if fuel == 0 {
            return Err(runtime_err("nesting too deep"));
        }
        let ghost ev = views_of(els@);
        proof {
            lemma_views_of(els@);
            assert(ev.skip(0) =~= ev);
        }
        let mut acc: Vec<Item> = Vec::new();
        let mut i: usize = 0;
        proof {
            assert(views_of(acc@) =~= Seq::<ItemV>::empty());
        }
        loop
            invariant
                i <= els@.len(),
                fuel >= 1,
                ev == views_of(els@),
                ev.len() == els@.len(),
                map_els(old(self)@, views_of(blk@), ev, Seq::empty(), fuel as nat) == map_els(
                    self@,
                    views_of(blk@),
                    ev.skip(i as int),
                    views_of(acc@),
                    fuel as nat,
                ),
            decreases els@.len() - i,
        {
            if i >= els.len() {
                proof {
                    assert(ev.skip(els@.len() as int) =~= Seq::<ItemV>::empty());
                }
                return Ok(acc);
            }
            proof {
                lemma_views_of(els@);
                assert(ev.skip(i as int)[0] == ev[i as int]);
                assert(ev.skip(i as int).drop_first() =~= ev.skip(i + 1));
            }
            let c = clone_item(&els[i]);
            match self.fun_call_with(blk, c, fuel) {
                Err(e) => {
                    return Err(e);
                }
                Ok(outs) => {
                    let r2 = concat_items(acc, outs);
                    acc = r2;
                }
            }
            i = i + 1;
        }
    }

    /// `filter`: keep the elements on which the block's last value is
    /// true.
    fn filter_exec(&mut self, blk: &Vec<Item>, els: Vec<Item>, fuel: u64) -> (r: Result<
        Vec<Item>,
        GSError,
    >)
        ensures
            fun_matches(
                filter_els(old(self)@, views_of(blk@), views_of(els@), Seq::empty(), fuel as nat),
                final(self)@,
                r,
            ),
        decreases fuel, 1nat, 0nat,
    {
        if fuel == 0 {
            return Err(runtime_err("nesting too deep"));
        }
        let ghost ev = views_of(els@);
        proof {
            lemma_views_of(els@);
            assert(ev.skip(0) =~= ev);
        }
        let mut acc: Vec<Item> = Vec::new();
        let mut i: usize = 0;
        proof {
            assert(views_of(acc@) =~= Seq::<ItemV>::empty());
        }
        loop
            invariant
                i <= els@.len(),
                fuel >= 1,
                ev == views_of(els@),
                ev.len() == els@.len(),
                filter_els(old(self)@, views_of(blk@), ev, Seq::empty(), fuel as nat)
                    == filter_els(
                    self@,
                    views_of(blk@),
                    ev.skip(i as int),
                    views_of(acc@),
                    fuel as nat,
                ),
            decreases els@.len() - i,
        {
            if i >= els.len() {
                proof {
                    assert(ev.skip(els@.len() as int) =~= Seq::<ItemV>::empty());
                }
                return Ok(acc);
            }
            proof {
                lemma_views_of(els@);
                assert(ev.skip(i as int)[0] == ev[i as int]);
                assert(ev.skip(i as int).drop_first() =~= ev.skip(i + 1));
            }
            let c = clone_item(&els[i]);
            match self.fun_call_with(blk, c, fuel) {
                Err(e) => {
                    return Err(e);
                }
                Ok(outs) => {
                    if outs.len() == 0 {
                        return Err(runtime_err("block returned nothing"));
                    }
                    proof {
                        lemma_views_of(outs@);
                        assert(views_of(outs@).last() == outs@.last()@);
                    }
                    if outs[outs.len() - 1].is_true() {
                        let kept = clone_item(&els[i]);
                        proof {
                            lemma_views_of_push(acc@, kept);
                        }
                        acc.push(kept);
                    }
                }
            }
            i = i + 1;
        }
    }

    /// `find`: the first element on which the block's last value is
    /// true.
    fn find_exec(&mut self, blk: &Vec<Item>, els: Vec<Item>, fuel: u64) -> (r: Result<
        Option<Item>,
        GSError,
    >)
        ensures
            match find_el(old(self)@, views_of(blk@), views_of(els@), fuel as nat) {
                FunRes::Good(s, f) => final(self)@ == s && (r matches Ok(o) && (if f.len() > 0 {
                    o matches Some(v) && v@ == f[0]
                } else {
                    o is None
                })),
                FunRes::Bad(s) => final(self)@ == s && (r matches Err(e) && e is Runtime),
            },
        decreases fuel, 1nat, 0nat,
    {
        if fuel == 0 {
            return Err(runtime_err("nesting too deep"));
        }
        let ghost ev = views_of(els@);
        proof {
            lemma_views_of(els@);
            assert(ev.skip(0) =~= ev);
        }
        let mut i: usize = 0;
        loop
            invariant
                i <= els@.len(),
                fuel >= 1,
                ev == views_of(els@),
                ev.len() == els@.len(),
                find_el(old(self)@, views_of(blk@), ev, fuel as nat) == find_el(
                    self@,
                    views_of(blk@),
                    ev.skip(i as int),
                    fuel as nat,
                ),
            decreases els@.len() - i,
        {
            if i >= els.len() {
                proof {
                    assert(ev.skip(els@.len() as int) =~= Seq::<ItemV>::empty());
                }
                return Ok(None);
            }
            proof {
                lemma_views_of(els@);
                assert(ev.skip(i as int)[0] == ev[i as int]);
                assert(ev.skip(i as int).drop_first() =~= ev.skip(i + 1));
            }
            let c = clone_item(&els[i]);
            match self.fun_call_with(blk, c, fuel) {
                Err(e) => {
                    return Err(e);
                }
                Ok(outs) => {
                    if outs.len() == 0 {
                        return Err(runtime_err("block returned nothing"));
                    }
                    proof {
                        lemma_views_of(outs@);
                        assert(views_of(outs@).last() == outs@.last()@);
                    }
                    if outs[outs.len() - 1].is_true() {
                        return Ok(Some(clone_item(&els[i])));
                    }
                }
            }
            i = i + 1;
        }
    }

    /// Sort keys: the block's last value for each element, in order.
    fn sortkeys_exec(&mut self, blk: &Vec<Item>, els: &Vec<Item>, fuel: u64) -> (r: Result<
        Vec<(Item, Item)>,
        GSError,
    >)
        ensures
            key_matches(
                sort_keys(old(self)@, views_of(blk@), views_of(els@), Seq::empty(), fuel as nat),
                final(self)@,
                r,
            ),
        decreases fuel, 1nat, 0nat,
    {
        if fuel == 0 {
            return Err(runtime_err("nesting too deep"));
        }
        let ghost ev = views_of(els@);
        proof {
            lemma_views_of(els@);
            assert(ev.skip(0) =~= ev);
        }
        let mut acc: Vec<(Item, Item)> = Vec::new();
        let mut i: usize = 0;
        proof {
            assert(pair_views(acc@) =~= Seq::<(ItemV, ItemV)>::empty());
        }
        loop
            invariant
                i <= els@.len(),
                fuel >= 1,
                ev == views_of(els@),
                ev.len() == els@.len(),
                sort_keys(old(self)@, views_of(blk@), ev, Seq::empty(), fuel as nat) == sort_keys(
                    self@,
                    views_of(blk@),
                    ev.skip(i as int),
                    pair_views(acc@),
                    fuel as nat,
                ),
            decreases els@.len() - i,
        {
            if i >= els.len() {
                proof {
                    assert(ev.skip(els@.len() as int) =~= Seq::<ItemV>::empty());
                }
                return Ok(acc);
            }
            proof {
                lemma_views_of(els@);
                assert(ev.skip(i as int)[0] == ev[i as int]);
                assert(ev.skip(i as int).drop_first() =~= ev.skip(i + 1));
            }
            let c = clone_item(&els[i]);
            match self.fun_call_with(blk, c, fuel) {
                Err(e) => {
                    return Err(e);
                }
                Ok(mut outs) => {
                    if outs.len() == 0 {
                        return Err(runtime_err("block returned nothing"));
                    }
                    let ghost outs0 = outs@;
                    let key = match outs.pop() {
                        Some(k) => k,
                        None => {
                            return Err(runtime_err("unreachable"));
                        }
                    };
                    let kept = clone_item(&els[i]);
                    let ghost acc0 = pair_views(acc@);
                    proof {
                        lemma_views_of(outs0);
                        assert(key@ == views_of(outs0).last());
                    }
                    acc.push((key, kept));
                    proof {
                        assert(pair_views(acc@) =~= acc0.push(
                            (views_of(outs0).last(), ev[i as int]),
                        ));
                    }
                }
            }
            i = i + 1;
        }
    }

    /// `unfold`: while the condition block's last value is a non-zero
    /// integer, snapshot the top and run the body. The round budget is
    /// its own, far larger than the nesting depth each round gets.
    fn unfold_exec(&mut self, cond: &Vec<Item>, body: &Vec<Item>, fuel: u64) -> (r: Result<
        Vec<Item>,
        GSError,
    >)
        ensures
            fun_matches(
                unfold(
                    old(self)@,
                    views_of(cond@),
                    views_of(body@),
                    Seq::empty(),
                    fuel as nat,
                    UNFOLD_ROUNDS as nat,
                ),
                final(self)@,
                r,
            ),
        decreases fuel, 1nat, 0nat,
    {
        let mut acc: Vec<Item> = Vec::new();
        let mut rounds: u64 = UNFOLD_ROUNDS;
        proof {
            assert(views_of(acc@) =~= Seq::<ItemV>::empty());
            assert(views_of(body@).skip(0) =~= views_of(body@));
        }
        loop
            invariant
                unfold(
                    old(self)@,
                    views_of(cond@),
                    views_of(body@),
                    Seq::empty(),
                    fuel as nat,
                    UNFOLD_ROUNDS as nat,
                ) == unfold(
                    self@,
                    views_of(cond@),
                    views_of(body@),
                    views_of(acc@),
                    fuel as nat,
                    rounds as nat,
                ),
            decreases rounds,
        {
            if fuel == 0 {
                return Err(runtime_err("nesting too deep"));
            }
            if rounds == 0 {
                return Err(runtime_err("too many rounds"));
            }
            if self.stack_len() == 0 {
                return Err(runtime_err("stack underflow"));
            }
            match self.dup() {
                Err(e) => {
                    return Err(e);
                }
                Ok(()) => {}
            }
            let outs = match self.fun_call(cond, fuel) {
                Err(e) => {
                    return Err(e);
                }
                Ok(o) => o,
            };
            if outs.len() == 0 {
                return Err(runtime_err("block returned nothing"));
            }
            proof {
                lemma_views_of(outs@);
                assert(views_of(outs@).last() == outs@.last()@);
            }
            let decide = match &outs[outs.len() - 1] {
                Item::Num(n) => *n,
                _ => {
                    return Err(runtime_err("expected an integer from the condition"));
                }
            };
            if decide != 0 {
                let snap = match self.peek() {
                    Err(e) => {
                        return Err(e);
                    }
                    Ok(v) => v,
                };
                proof {
                    assert(views_of(body@).skip(0) =~= views_of(body@));
                }
                match self.exec_items_from(body, 0, fuel - 1) {
                    Err(e) => {
                        return Err(e);
                    }
                    Ok(()) => {}
                }
                proof {
                    lemma_views_of_push(acc@, snap);
                }
                acc.push(snap);
                rounds = rounds - 1;
            } else {
                match self.pop() {
                    Err(e) => {
                        return Err(e);
                    }
                    Ok(_) => {}
                }
                return Ok(acc);
            }
        }
    }
}

} // verus!

verus! {

fn pair_chars_exec(pairs: &Vec<(Item, Item)>) -> (r: Vec<char>)
    requires
        forall|l: int| 0 <= l < pair_views(pairs@).len() ==> snd_is_char(
            #[trigger] pair_views(pairs@)[l],
        ),
    ensures
        r@ == pair_chars(pair_views(pairs@)),
{
    let mut out: Vec<char> = Vec::new();
    let mut i: usize = 0;
    proof {
        assert(out@ =~= pair_chars(pair_views(pairs@.take(0))));
    }
    while i < pairs.len()
        invariant
            i <= pairs@.len(),
            forall|l: int| 0 <= l < pair_views(pairs@).len() ==> snd_is_char(
                #[trigger] pair_views(pairs@)[l],
            ),
            out@ == pair_chars(pair_views(pairs@.take(i as int))),
        decreases pairs@.len() - i,
    {
        proof {
            assert(snd_is_char(pair_views(pairs@)[i as int]));
        }
        let c = match &pairs[i].1 {
            Item::Str(cs) => cs[0],
            _ => {
                proof {
                    assert(false);
                }
                ' '
            }
        };
        out.push(c);
        proof {
            assert forall|l: int| 0 <= l < pair_views(pairs@.take(i + 1)).len()
                implies #[trigger] pair_chars(pair_views(pairs@.take(i + 1)))[l] == out@[l] by {
                assert(pair_views(pairs@.take(i + 1))[l] == pair_views(pairs@)[l]);
                assert(pair_chars(pair_views(pairs@))[l] == pair_chars(
                    pair_views(pairs@.take(i + 1)),
                )[l]);
            }
            assert(out@ =~= pair_chars(pair_views(pairs@.take(i + 1))));
        }
        i = i + 1;
    }
    assert(pairs@.take(pairs@.len() as int) =~= pairs@);
    out
}

impl Interpreter {
    /// A defined name: a block value is evaluated, any other value is
    /// pushed.
    pub fn exec_variable(&mut self, name: &Vec<char>, fuel: u64) -> (r: Result<(), GSError>)
        ensures
            eval_matches(step_execvar(old(self)@, name@, fuel as nat), final(self)@, r),
        decreases fuel, 2nat, 0nat,
    {
        if fuel == 0 {
            return Err(runtime_err("nesting too deep"));
        }
        match self.get_variable(name) {
            None => Err(runtime_err("undefined name")),
            Some(v) => {
                match v {
                    Item::Block(b) => {
                        proof {
                            assert(views_of(b@).skip(0) =~= views_of(b@));
                        }
                        self.exec_items_from(&b, 0, fuel - 1)
                    }
                    other => {
                        self.push(other);
                        Ok(())
                    }
                }
            }
        }
    }

    /// `~`: bitwise not of an integer; splice an array onto the stack;
    /// lex and evaluate a string; run a block.
    pub fn neg(&mut self, fuel: u64) -> (r: Result<(), GSError>)
        ensures
            eval_matches(step_neg(old(self)@, fuel as nat), final(self)@, r),
        decreases fuel, 2nat, 0nat,
    {
        if fuel == 0 {
            return Err(runtime_err("nesting too deep"));
        }
        let v = match self.pop() {
            Ok(v) => v,
            Err(e) => {
                return Err(e);
            }
        };
        match v {
            Item::Num(n) => {
                let m: i64 = if n == i64::MAX {
                    i64::MIN
                } else {
                    -(n + 1)
                };
                self.push(Item::Num(m));
                Ok(())
            }
            Item::Array(els) => {
                self.push_all(els);
                Ok(())
            }
            Item::Str(s) => {
                match crate::lexer::lex_chars(&s) {
                    Err(_) => Err(runtime_err("bad expression")),
                    Ok(toks) => {
                        proof {
                            assert(views_of(toks@).skip(0) =~= views_of(toks@));
                        }
                        self.exec_items_from(&toks, 0, fuel - 1)
                    }
                }
            }
            Item::Block(b) => {
                proof {
                    assert(views_of(b@).skip(0) =~= views_of(b@));
                }
                self.exec_items_from(&b, 0, fuel - 1)
            }
            _ => Err(runtime_err("unsupported operand type")),
        }
    }

    /// `if`: pop the two branches, then the condition; a block branch
    /// is run, any other branch is pushed.
    pub fn builtin_if(&mut self, fuel: u64) -> (r: Result<(), GSError>)
        ensures
            eval_matches(step_if(old(self)@, fuel as nat), final(self)@, r),
        decreases fuel, 2nat, 0nat,
    {
        if fuel == 0 {
            return Err(runtime_err("nesting too deep"));
        }
        let (y, x) = match self.pop2() {
            Ok(p) => p,
            Err(e) => {
                return Err(e);
            }
        };
        let cond = match self.pop() {
            Ok(v) => v,
            Err(e) => {
                return Err(e);
            }
        };
        let check = cond.is_true();
        match (y, x) {
            (_, Item::Block(bx)) if check => {
                proof {
                    assert(views_of(bx@).skip(0) =~= views_of(bx@));
                }
                self.exec_items_from(&bx, 0, fuel - 1)
            }
            (Item::Block(by), _) if !check => {
                proof {
                    assert(views_of(by@).skip(0) =~= views_of(by@));
                }
                self.exec_items_from(&by, 0, fuel - 1)
            }
            (yy, xx) => {
                self.push(if check {
                    xx
                } else {
                    yy
                });
                Ok(())
            }
        }
    }

    /// `*`: multiplication; repetition; running a block a number of
    /// times; joins; folds.
    pub fn mul(&mut self, fuel: u64) -> (r: Result<(), GSError>)
        ensures
            eval_matches(step_mul(old(self)@, fuel as nat), final(self)@, r),
        decreases fuel, 2nat, 1nat,
    {
        let (x, y) = match self.pop2() {
            Ok(p) => p,
            Err(e) => {
                return Err(e);
            }
        };
        match (x, y) {
            (Item::Num(a), Item::Num(b)) => {
                match a.checked_mul(b) {
                    Some(m) => {
                        self.push(Item::Num(m));
                        Ok(())
                    }
                    None => Err(runtime_err("product leaves the 64-bit range")),
                }
            }
            (x2, y2) => {
                let bad = match (&x2, &y2) {
                    (Item::Num(a), _) if *a < 0 => true,
                    (_, Item::Num(b)) if *b < 0 => true,
                    _ => false,
                };
                if bad {
                    return Err(runtime_err("negative repeat count"));
                }
                self.mul_rest(x2, y2, fuel)
            }
        }
    }

    /// The non-numeric cases of `*`, on the already popped operands.
    #[verifier::rlimit(100)]
    #[verifier::spinoff_prover]
    fn mul_rest(&mut self, x2: Item, y2: Item, fuel: u64) -> (r: Result<(), GSError>)
        requires
            !(x2@ matches ItemV::Num(a) && a < 0),
            !(y2@ matches ItemV::Num(b) && b < 0),
        ensures
            eval_matches(
                crate::semantics::step_mul_rest(old(self)@, x2@, y2@, fuel as nat),
                final(self)@,
                r,
            ),
        decreases fuel, 2nat, 0nat,
    {
        match (x2, y2) {
            (Item::Num(n), Item::Str(s)) => {
                let rep = repeat_chars_exec(&s, n);
                self.push(Item::Str(rep));
                Ok(())
            }
            (Item::Str(s), Item::Num(n)) => {
                let rep = repeat_chars_exec(&s, n);
                self.push(Item::Str(rep));
                Ok(())
            }
            (Item::Num(n), Item::Array(els)) => {
                let rep = repeat_els_exec(&els, n);
                self.push(Item::Array(rep));
                Ok(())
            }
            (Item::Array(els), Item::Num(n)) => {
                let rep = repeat_els_exec(&els, n);
                self.push(Item::Array(rep));
                Ok(())
            }
            (Item::Num(n), Item::Block(b)) => self.run_n_exec(&b, n as u64, fuel),
            (Item::Block(b), Item::Num(n)) => self.run_n_exec(&b, n as u64, fuel),
            (Item::Array(els), Item::Str(sep)) => {
                if join_str_ok_exec(&els) {
                    let cs = join_str_exec(&els, &sep);
                    self.push(Item::Str(cs));
                    Ok(())
                } else {
                    Err(runtime_err("unsupported element in join"))
                }
            }
            (Item::Str(sep), Item::Array(els)) => {
                if join_str_ok_exec(&els) {
                    let cs = join_str_exec(&els, &sep);
                    self.push(Item::Str(cs));
                    Ok(())
                } else {
                    Err(runtime_err("unsupported element in join"))
                }
            }
            (Item::Array(sep), Item::Array(from)) => {
                let out = join_arr_exec(&from, &sep);
                self.push(Item::Array(out));
                Ok(())
            }
            (Item::Str(sep), Item::Str(s)) => {
                let out = join_chars_exec(&s, &sep);
                self.push(Item::Str(out));
                Ok(())
            }
            (Item::Block(b), Item::Array(els)) => self.mul_fold_arr(b, els, fuel),
            (Item::Array(els), Item::Block(b)) => self.mul_fold_arr(b, els, fuel),
            (Item::Block(b), Item::Str(s)) => self.mul_fold_str(b, s, fuel),
            (Item::Str(s), Item::Block(b)) => self.mul_fold_str(b, s, fuel),
            _ => Err(runtime_err("unsupported operand types")),
        }
    }

    /// The fold of `*` over an array: push the elements, then run the
    /// block once per gap between them.
    fn mul_fold_arr(&mut self, b: Vec<Item>, els: Vec<Item>, fuel: u64) -> (r: Result<
        (),
        GSError,
    >)
        ensures
            eval_matches(
                run_n(
                    (StateV { stack: old(self)@.stack + views_of(els@), ..old(self)@ }),
                    views_of(b@),
                    views_of(els@).len() - 1,
                    fuel as nat,
                ),
                final(self)@,
                r,
            ),
        decreases fuel, 1nat, 1nat,
    {
        proof {
            lemma_views_of(els@);
        }
        let n_els = els.len();
        self.push_all(els);
        if n_els == 0 {
            proof {
                assert(run_n(self@, views_of(b@), -1, fuel as nat) == run_n(
                    self@,
                    views_of(b@),
                    0,
                    fuel as nat,
                ));
            }
            self.run_n_exec(&b, 0, fuel)
        } else {
            self.run_n_exec(&b, (n_els - 1) as u64, fuel)
        }
    }

    /// The fold of `*` over a string: push the character codes, then
    /// run the block once per gap between them.
    fn mul_fold_str(&mut self, b: Vec<Item>, s: Vec<char>, fuel: u64) -> (r: Result<(), GSError>)
        ensures
            eval_matches(
                run_n(
                    (StateV { stack: old(self)@.stack + chars_as_nums(s@), ..old(self)@ }),
                    views_of(b@),
                    s@.len() - 1,
                    fuel as nat,
                ),
                final(self)@,
                r,
            ),
        decreases fuel, 1nat, 1nat,
    {
        let nums = chars_as_nums_exec(&s);
        let n_c = s.len();
        self.push_all(nums);
        if n_c == 0 {
            proof {
                assert(run_n(self@, views_of(b@), -1, fuel as nat) == run_n(
                    self@,
                    views_of(b@),
                    0,
                    fuel as nat,
                ));
            }
            self.run_n_exec(&b, 0, fuel)
        } else {
            self.run_n_exec(&b, (n_c - 1) as u64, fuel)
        }
    }

    /// `/`: division; splitting on a pattern; chunking; `each`;
    /// `unfold`.
    pub fn div(&mut self, fuel: u64) -> (r: Result<(), GSError>)
        ensures
            eval_matches(step_div(old(self)@, fuel as nat), final(self)@, r),
        decreases fuel, 2nat, 0nat,
    {
        let (y, x) = match self.pop2() {
            Ok(p) => p,
            Err(e) => {
                return Err(e);
            }
        };
        match (y, x) {
            (Item::Num(a), Item::Num(b)) => {
                match b.checked_div(a) {
                    Some(q) => {
                        self.push(Item::Num(q));
                        Ok(())
                    }
                    None => Err(runtime_err("bad division")),
                }
            }
            (Item::Array(p), Item::Array(s)) => {
                let out = split_arr_exec(s, &p);
                self.push(Item::Array(out));
                Ok(())
            }
            (Item::Str(p), Item::Str(s)) => {
                let out = split_chars_exec(&s, &p);
                self.push(Item::Array(out));
                Ok(())
            }
            (Item::Num(k), Item::Array(s)) => {
                if k == 0 {
                    return Err(runtime_err("empty chunk size"));
                }
                if s.len() == 0 {
                    let e: Vec<Item> = Vec::new();
                    proof {
                        lemma_views_of(e@);
                        assert(views_of(e@) =~= Seq::<ItemV>::empty());
                    }
                    self.push(Item::Array(e));
                    return Ok(());
                }
                let kk: usize = if k < 0 || k as u64 >= s.len() as u64 {
                    s.len()
                } else {
                    k as usize
                };
                proof {
                    lemma_views_of(s@);
                    if k > 0 && k as u64 >= s@.len() as u64 {
                        assert(spec_chunks(views_of(s@), k as int) == spec_chunks(
                            views_of(s@),
                            s@.len() as int,
                        ));
                    }
                }
                let out = chunks_exec(s, kk);
                self.push(Item::Array(out));
                Ok(())
            }
            (Item::Block(b), Item::Array(s)) => self.each_exec(&b, s, fuel),
            (Item::Block(body), Item::Block(cond)) => {
                match self.unfold_exec(&cond, &body, fuel) {
                    Err(e) => Err(e),
                    Ok(acc) => {
                        self.push(Item::Array(acc));
                        Ok(())
                    }
                }
            }
            _ => Err(runtime_err("unsupported operand types")),
        }
    }

    /// `%`: remainder; split dropping empty parts; every n-th element;
    /// `map`.
    pub fn modulo(&mut self, fuel: u64) -> (r: Result<(), GSError>)
        ensures
            eval_matches(step_modulo(old(self)@, fuel as nat), final(self)@, r),
        decreases fuel, 2nat, 0nat,
    {
        let (y, x) = match self.pop2() {
            Ok(p) => p,
            Err(e) => {
                return Err(e);
            }
        };
        match (y, x) {
            (Item::Num(a), Item::Num(b)) => {
                match b.checked_rem(a) {
                    Some(q) => {
                        self.push(Item::Num(q));
                        Ok(())
                    }
                    None => Err(runtime_err("bad remainder")),
                }
            }
            (Item::Str(p), Item::Str(s)) => {
                let parts = split_chars_exec(&s, &p);
                let kept = drop_empty_strs_exec(parts);
                self.push(Item::Array(kept));
                Ok(())
            }
            (Item::Num(k), Item::Array(s)) => {
                if k == 0 {
                    return Err(runtime_err("empty stride"));
                }
                if s.len() == 0 {
                    let e: Vec<Item> = Vec::new();
                    proof {
                        lemma_views_of(e@);
                        lemma_views_of(s@);
                        assert(views_of(e@) =~= Seq::<ItemV>::empty());
                        assert(stride(views_of(s@), if k < 0 { -k as int } else { k as int })
                            =~= Seq::<ItemV>::empty());
                        assert(Seq::<ItemV>::empty().reverse() =~= Seq::<ItemV>::empty());
                    }
                    self.push(Item::Array(e));
                    return Ok(());
                }
                let mag_big: u64 = if k == i64::MIN {
                    9223372036854775808u64
                } else if k < 0 {
                    (-k) as u64
                } else {
                    k as u64
                };
                let kk: usize = if mag_big >= s.len() as u64 {
                    s.len()
                } else {
                    mag_big as usize
                };
                proof {
                    lemma_views_of(s@);
                    let sv = views_of(s@);
                    let mag: int = if k < 0 { -(k as int) } else { k as int };
                    if mag >= s@.len() {
                        assert(stride(sv, mag) == stride(sv, s@.len() as int));
                    }
                }
                let taken = stride_exec(&s, kk);
                if k < 0 {
                    let rev = reverse_items(taken);
                    self.push(Item::Array(rev));
                } else {
                    self.push(Item::Array(taken));
                }
                Ok(())
            }
            (Item::Block(b), Item::Array(s)) => {
                match self.map_exec(&b, s, fuel) {
                    Err(e) => Err(e),
                    Ok(outs) => {
                        self.push(Item::Array(outs));
                        Ok(())
                    }
                }
            }
            _ => Err(runtime_err("unsupported operand types")),
        }
    }

    /// `,`: the range `[0, n)`; the length of an array; `filter`.
    pub fn array(&mut self, fuel: u64) -> (r: Result<(), GSError>)
        ensures
            eval_matches(step_array(old(self)@, fuel as nat), final(self)@, r),
        decreases fuel, 2nat, 0nat,
    {
        let v = match self.pop() {
            Ok(v) => v,
            Err(e) => {
                return Err(e);
            }
        };
        match v {
            Item::Num(n) => {
                let mut out: Vec<Item> = Vec::new();
                let mut i: i64 = 0;
                let hi: i64 = if n < 0 {
                    0
                } else {
                    n
                };
                proof {
                    lemma_views_of(out@);
                    assert(views_of(out@) =~= Seq::new(0nat, |l: int| ItemV::Num(l)));
                }
                while i < hi
                    invariant
                        0 <= i <= hi,
                        hi == (if n < 0 { 0int } else { n as int }),
                        views_of(out@) == Seq::new(i as nat, |l: int| ItemV::Num(l)),
                    decreases hi - i,
                {
                    let c = Item::Num(i);
                    proof {
                        lemma_views_of_push(out@, c);
                        assert(views_of(out@).push(c@) =~= Seq::new(
                            (i + 1) as nat,
                            |l: int| ItemV::Num(l),
                        ));
                    }
                    out.push(c);
                    i = i + 1;
                }
                self.push(Item::Array(out));
                Ok(())
            }
            Item::Array(els) => {
                proof {
                    lemma_views_of(els@);
                }
                if els.len() as u64 > i64::MAX as u64 {
                    Err(runtime_err("length leaves the 64-bit range"))
                } else {
                    self.push(Item::Num(els.len() as i64));
                    Ok(())
                }
            }
            Item::Block(b) => {
                let below = match self.pop() {
                    Ok(v) => v,
                    Err(e) => {
                        return Err(e);
                    }
                };
                match below {
                    Item::Array(els) => {
                        match self.filter_exec(&b, els, fuel) {
                            Err(e) => Err(e),
                            Ok(kept) => {
                                self.push(Item::Array(kept));
                                Ok(())
                            }
                        }
                    }
                    _ => Err(runtime_err("unsupported operand type")),
                }
            }
            _ => Err(runtime_err("unsupported operand type")),
        }
    }

    /// `?`: power; the index of a value in an array; `find`.
    pub fn qmark(&mut self, fuel: u64) -> (r: Result<(), GSError>)
        ensures
            eval_matches(step_qmark(old(self)@, fuel as nat), final(self)@, r),
        decreases fuel, 2nat, 0nat,
    {
        let (y, x) = match self.pop2() {
            Ok(p) => p,
            Err(e) => {
                return Err(e);
            }
        };
        match (y, x) {
            (Item::Num(e), Item::Num(b)) => {
                if e < 0 {
                    return Err(runtime_err("negative power"));
                }
                match pow_exec(b, e as u64) {
                    Some(p) => {
                        self.push(Item::Num(p));
                        Ok(())
                    }
                    None => Err(runtime_err("power leaves the 64-bit range")),
                }
            }
            (Item::Array(els), Item::Num(n)) => {
                let probe = Item::Num(n);
                match find_eq_exec(&els, &probe) {
                    Some(i) => {
                        if i as u64 > i64::MAX as u64 {
                            Err(runtime_err("index leaves the 64-bit range"))
                        } else {
                            self.push(Item::Num(i as i64));
                            Ok(())
                        }
                    }
                    None => {
                        self.push(Item::Num(-1));
                        Ok(())
                    }
                }
            }
            (Item::Block(b), Item::Array(els)) => {
                match self.find_exec(&b, els, fuel) {
                    Err(e) => Err(e),
                    Ok(Some(found)) => {
                        self.push(found);
                        Ok(())
                    }
                    Ok(None) => Ok(()),
                }
            }
            _ => Err(runtime_err("unsupported operand types")),
        }
    }

    /// `$`: copy the n-th value from the top; sort a string or array;
    /// sort by a block's key, stably, using the block's last value.
    pub fn dollar(&mut self, fuel: u64) -> (r: Result<(), GSError>)
        ensures
            eval_matches(step_dollar(old(self)@, fuel as nat), final(self)@, r),
        decreases fuel, 2nat, 0nat,
    {
        let v = match self.pop() {
            Ok(v) => v,
            Err(e) => {
                return Err(e);
            }
        };
        match v {
            Item::Num(n) => {
                let len = self.stack_len();
                if n < 0 || n as u64 >= len as u64 {
                    return Err(runtime_err("stack index out of range"));
                }
                let c = self.stack_get(len - 1 - (n as usize));
                self.push(c);
                Ok(())
            }
            Item::Str(s) => {
                let sorted = sort_chars_exec(s);
                self.push(Item::Str(sorted));
                Ok(())
            }
            Item::Array(els) => {
                let sorted = sort_items_exec(els);
                self.push(Item::Array(sorted));
                Ok(())
            }
            Item::Block(b) => {
                let below = match self.pop() {
                    Ok(v) => v,
                    Err(e) => {
                        return Err(e);
                    }
                };
                match below {
                    Item::Array(els) => {
                        match self.sortkeys_exec(&b, &els, fuel) {
                            Err(e) => Err(e),
                            Ok(pairs) => {
                                let sorted = sort_pairs_exec(pairs);
                                let vals = snds_exec(sorted);
                                self.push(Item::Array(vals));
                                Ok(())
                            }
                        }
                    }
                    Item::Str(sv) => {
                        let singles = chars_as_strs_exec(&sv);
                        let ghost st3 = self@;
                        match self.sortkeys_exec(&b, &singles, fuel) {
                            Err(e) => Err(e),
                            Ok(pairs) => {
                                proof {
                                    lemma_sort_keys_snds(
                                        st3,
                                        views_of(b@),
                                        chars_as_strs(sv@),
                                        Seq::empty(),
                                        fuel as nat,
                                    );
                                    assert(snds(pair_views(pairs@)) =~= chars_as_strs(sv@));
                                    assert forall|l: int| 0 <= l < pair_views(pairs@).len()
                                        implies snd_is_char(#[trigger] pair_views(pairs@)[l]) by {
                                        assert(pair_views(pairs@)[l].1 == snds(
                                            pair_views(pairs@),
                                        )[l]);
                                        assert(snds(pair_views(pairs@))[l] == chars_as_strs(
                                            sv@,
                                        )[l]);
                                    }
                                    lemma_sort_pairs_snd_char(pair_views(pairs@));
                                }
                                let sorted = sort_pairs_exec(pairs);
                                let out = pair_chars_exec(&sorted);
                                self.push(Item::Str(out));
                                Ok(())
                            }
                        }
                    }
                    _ => Err(runtime_err("unsupported operand type")),
                }
            }
            _ => Err(runtime_err("unsupported operand type")),
        }
    }
}

} // verus!
