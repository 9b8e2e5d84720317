use vstd::prelude::*;

use crate::items::GSError;
use crate::items::Item;
use crate::items::ItemV;
use crate::items::views_of;
use crate::items::lemma_views_of;
use crate::items::lemma_views_of_push;
use crate::items::clone_item;
use crate::items::string_from_chars;
use crate::lexer::chars_of_str;
use vstd::string::StrSliceExecFns;
use crate::semantics::StateV;
use crate::semantics::st_push;
use crate::semantics::st_pop;
use crate::semantics::st_pop2;
use crate::semantics::pop2_err;
use crate::semantics::top_of;
use crate::semantics::below_of;
use crate::semantics::clamp_markers;
use crate::semantics::env_map;
use crate::semantics::env_find;
use crate::semantics::lemma_env_map_find;
use crate::semantics::lemma_env_map_push;
use crate::semantics::default_env;

verus! {

/// The interpreter: one value stack, one marker stack, one variable
/// environment, the text printed so far, and the state of its random
/// number generator.
pub struct Interpreter {
    pub(crate) stack: Vec<Item>,
    pub(crate) marker_stack: Vec<usize>,
    pub(crate) variables: Vec<(Vec<char>, Item)>,
    pub(crate) output: Vec<char>,
    pub(crate) rng: u64,
}

impl Interpreter {
    pub closed spec fn view(&self) -> StateV {
        StateV {
            stack: views_of(self.stack@),
            markers: self.marker_stack@.map_values(|m: usize| m as int),
            vars: env_map(self.variables@),
            out: self.output@,
            rng: self.rng,
        }
    }
}

/// Relies on rand::random: a value drawn from the host's thread-local
/// generator; it seeds this interpreter's own generator.
#[verifier::external_body]
fn entropy_seed() -> u64 {
    rand::random::<u64>()
}

pub(crate) fn runtime_err(msg: &str) -> (r: GSError)
    ensures
        r is Runtime,
{
    GSError::Runtime(String::from_str(msg))
}

impl Interpreter {
    /// A fresh interpreter: empty stacks, no output, and the
    /// predefined bindings.
    pub fn new() -> (r: Interpreter)
        ensures
            r@.stack == Seq::<ItemV>::empty(),
            r@.markers == Seq::<int>::empty(),
            r@.out == Seq::<char>::empty(),
            r@.vars == default_env(),
    {
        let mut it = Interpreter {
            stack: Vec::new(),
            marker_stack: Vec::new(),
            variables: Vec::new(),
            output: Vec::new(),
            rng: entropy_seed(),
        };
        proof {
            assert(it@.markers =~= Seq::<int>::empty());
        }

        let mut b_and: Vec<Item> = Vec::new();
        b_and.push(Item::Num(1));
        b_and.push(Item::Var(chars_of_str("$")));
        b_and.push(Item::Var(chars_of_str("if")));
        proof {
            lemma_views_of(b_and@);
            assert(views_of(b_and@) =~= seq![
                ItemV::Num(1),
                ItemV::Var("$"@),
                ItemV::Var("if"@),
            ]);
        }
        it.add_variable(chars_of_str("and"), Item::Block(b_and));

        let mut b_or: Vec<Item> = Vec::new();
        b_or.push(Item::Num(1));
        b_or.push(Item::Var(chars_of_str("$")));
        b_or.push(Item::Var(chars_of_str("\\")));
        b_or.push(Item::Var(chars_of_str("if")));
        proof {
            lemma_views_of(b_or@);
            assert(views_of(b_or@) =~= seq![
                ItemV::Num(1),
                ItemV::Var("$"@),
                ItemV::Var("\\"@),
                ItemV::Var("if"@),
            ]);
        }
        it.add_variable(chars_of_str("or"), Item::Block(b_or));

        let mut b_not: Vec<Item> = Vec::new();
        b_not.push(Item::Var(chars_of_str("!")));
        proof {
            lemma_views_of(b_not@);
            assert(views_of(b_not@) =~= seq![ItemV::Var("!"@)]);
        }
        let mut b_xor: Vec<Item> = Vec::new();
        b_xor.push(Item::Var(chars_of_str("\\")));
        b_xor.push(Item::Var(chars_of_str("!")));
        b_xor.push(Item::Var(chars_of_str("!")));
        b_xor.push(Item::Block(b_not));
        b_xor.push(Item::Var(chars_of_str("*")));
        proof {
            lemma_views_of(b_xor@);
            assert(views_of(b_xor@) =~= seq![
                ItemV::Var("\\"@),
                ItemV::Var("!"@),
                ItemV::Var("!"@),
                ItemV::Block(seq![ItemV::Var("!"@)]),
                ItemV::Var("*"@),
            ]);
        }
        it.add_variable(chars_of_str("xor"), Item::Block(b_xor));

        it.add_variable(chars_of_str("n"), Item::Str(chars_of_str("\n")));

        let mut b_puts: Vec<Item> = Vec::new();
        b_puts.push(Item::Var(chars_of_str("print")));
        b_puts.push(Item::Var(chars_of_str("n")));
        b_puts.push(Item::Var(chars_of_str("print")));
        proof {
            lemma_views_of(b_puts@);
            assert(views_of(b_puts@) =~= seq![
                ItemV::Var("print"@),
                ItemV::Var("n"@),
                ItemV::Var("print"@),
            ]);
        }
        it.add_variable(chars_of_str("puts"), Item::Block(b_puts));

        let mut b_p: Vec<Item> = Vec::new();
        b_p.push(Item::Var(chars_of_str("`")));
        b_p.push(Item::Var(chars_of_str("puts")));
        proof {
            lemma_views_of(b_p@);
            assert(views_of(b_p@) =~= seq![ItemV::Var("`"@), ItemV::Var("puts"@)]);
        }
        it.add_variable(chars_of_str("p"), Item::Block(b_p));

        proof {
            assert(it@.vars =~= default_env());
        }
        it
    }

    /// Push a value onto the stack.
    pub(crate) fn push(&mut self, v: Item)
        ensures
            final(self)@ == st_push(old(self)@, v@),
    {
        proof {
            lemma_views_of_push(self.stack@, v);
        }
        self.stack.push(v);
        proof {
            assert(self@ =~= st_push(old(self)@, v@));
        }
    }

    /// Pop the top of the stack; markers above the new length are
    /// pulled down to it. The empty stack is a runtime error.
    pub(crate) fn pop(&mut self) -> (r: Result<Item, GSError>)
        ensures
            old(self)@.stack.len() > 0 ==> (r matches Ok(v) && v@ == top_of(old(self)@)
                && final(self)@ == st_pop(old(self)@)),
            old(self)@.stack.len() == 0 ==> (r matches Err(e) && e is Runtime)
                && final(self)@ == old(self)@,
    {
        proof {
            lemma_views_of(self.stack@);
        }
        match self.stack.pop() {
            None => Err(runtime_err("stack underflow")),
            Some(v) => {
                let n = self.stack.len();
                let mut ms: Vec<usize> = Vec::new();
                let mut i: usize = 0;
                while i < self.marker_stack.len()
                    invariant
                        i <= self.marker_stack@.len(),
                        n == self.stack@.len(),
                        ms@.len() == i,
                        forall|j: int| 0 <= j < i ==> ms@[j] as int
                            == clamp_markers(
                                self.marker_stack@.map_values(|m: usize| m as int),
                                n as int,
                            )[j],
                    decreases self.marker_stack@.len() - i,
                {
                    let m = self.marker_stack[i];
                    ms.push(if m > n { n } else { m });
                    i = i + 1;
                }
                proof {
                    assert(ms@.map_values(|m: usize| m as int) =~= clamp_markers(
                        old(self)@.markers,
                        n as int,
                    ));
                }
                self.marker_stack = ms;
                proof {
                    assert(self.stack@ =~= old(self).stack@.drop_last());
                    assert(views_of(old(self).stack@).drop_last() =~= views_of(
                        old(self).stack@.drop_last(),
                    ));
                    lemma_views_of(old(self).stack@);
                    assert(self@ =~= st_pop(old(self)@));
                }
                Ok(v)
            }
        }
    }

    /// Pop the top two values: the pair is ordered top first.
    pub(crate) fn pop2(&mut self) -> (r: Result<(Item, Item), GSError>)
        ensures
            old(self)@.stack.len() >= 2 ==> (r matches Ok(p) && p.0@ == top_of(old(self)@)
                && p.1@ == below_of(old(self)@) && final(self)@ == st_pop2(old(self)@)),
            old(self)@.stack.len() < 2 ==> (r matches Err(e) && e is Runtime)
                && final(self)@ == pop2_err(old(self)@),
    {
        let x = match self.pop() {
            Ok(v) => v,
            Err(e) => {
                return Err(e);
            }
        };
        match self.pop() {
            Ok(y) => Ok((x, y)),
            Err(e) => Err(e),
        }
    }

    /// A copy of the top of the stack, which stays.
    pub(crate) fn peek(&mut self) -> (r: Result<Item, GSError>)
        ensures
            final(self)@ == old(self)@,
            old(self)@.stack.len() > 0 ==> (r matches Ok(v) && v@ == top_of(old(self)@)),
            old(self)@.stack.len() == 0 ==> (r matches Err(e) && e is Runtime),
    {
        proof {
            lemma_views_of(self.stack@);
        }
        if self.stack.len() == 0 {
            Err(runtime_err("stack underflow"))
        } else {
            Ok(clone_item(&self.stack[self.stack.len() - 1]))
        }
    }

    /// Bind a name; a later binding of the same name wins.
    pub(crate) fn add_variable(&mut self, name: Vec<char>, value: Item)
        ensures
            final(self)@ == (StateV { vars: old(self)@.vars.insert(name@, value@), ..old(self)@ }),
    {
        proof {
            lemma_env_map_push(self.variables@, (name, value));
        }
        self.variables.push((name, value));
        proof {
            assert(self@ =~= StateV { vars: old(self)@.vars.insert(name@, value@), ..old(self)@ });
        }
    }

    /// The index of the binding that decides a name, if any.
    fn lookup_index(&self, name: &Vec<char>) -> (r: Option<usize>)
        ensures
            match r {
                Some(i) => self@.vars.contains_key(name@) && i < self.variables@.len()
                    && env_find(self.variables@, name@) == i as int,
                None => !self@.vars.contains_key(name@),
            },
    {
        proof {
            lemma_env_map_find(self.variables@, name@);
            assert(self.variables@.take(self.variables@.len() as int) =~= self.variables@);
        }
        let mut j: usize = self.variables.len();
        while j > 0
            invariant
                j <= self.variables@.len(),
                env_find(self.variables@, name@) == env_find(
                    self.variables@.take(j as int),
                    name@,
                ),
            decreases j,
        {
            let hit = crate::items::eq_chars(&self.variables[j - 1].0, name);
            proof {
                assert(self.variables@.take(j as int).drop_last() =~= self.variables@.take(
                    j - 1,
                ));
                assert(self.variables@.take(j as int).last() == self.variables@[j - 1]);
            }
            if hit {
                proof {
                    assert(env_find(self.variables@.take(j as int), name@) == j - 1);
                    lemma_env_map_find(self.variables@, name@);
                }
                return Some(j - 1);
            }
            j = j - 1;
        }
        proof {
            assert(self.variables@.take(0) =~= Seq::<(Vec<char>, Item)>::empty());
        }
        None
    }

    /// Whether a name is bound.
    pub(crate) fn contains_variable(&self, name: &Vec<char>) -> (r: bool)
        ensures
            r == self@.vars.contains_key(name@),
    {
        match self.lookup_index(name) {
            Some(_) => true,
            None => false,
        }
    }

    /// The value bound to a name, if any.
    pub(crate) fn get_variable(&self, name: &Vec<char>) -> (r: Option<Item>)
        ensures
            match r {
                Some(v) => self@.vars.contains_key(name@) && v@ == self@.vars[name@],
                None => !self@.vars.contains_key(name@),
            },
    {
        proof {
            lemma_env_map_find(self.variables@, name@);
        }
        match self.lookup_index(name) {
            Some(i) => Some(clone_item(&self.variables[i].1)),
            None => None,
        }
    }

    /// Everything printed so far, leaving the buffer empty.
    pub fn take_output(&mut self) -> (r: String)
        ensures
            r@ == old(self)@.out,
            final(self)@ == (StateV { out: Seq::<char>::empty(), ..old(self)@ }),
    {
        let s = string_from_chars(&self.output);
        self.output = Vec::new();
        proof {
            assert(self@ =~= StateV { out: Seq::<char>::empty(), ..old(self)@ });
        }
        s
    }

    /// A copy of the stack, bottom first.
    pub fn stack_items(&self) -> (r: Vec<Item>)
        ensures
            views_of(r@) == self@.stack,
    {
        crate::items::clone_items(&self.stack)
    }
}

} // verus!

verus! {

use crate::semantics::lcg;

impl Interpreter {
    /// The stack length.
    pub(crate) fn stack_len(&self) -> (r: usize)
        ensures
            r == self@.stack.len(),
    {
        proof {
            lemma_views_of(self.stack@);
        }
        self.stack.len()
    }

    /// A copy of the stack element at an index, counted from the
    /// bottom.
    pub(crate) fn stack_get(&self, i: usize) -> (r: Item)
        requires
            i < self@.stack.len(),
        ensures
            r@ == self@.stack[i as int],
    {
        proof {
            lemma_views_of(self.stack@);
        }
        clone_item(&self.stack[i])
    }

    /// Record the stack length on the marker stack.
    pub(crate) fn push_marker(&mut self)
        ensures
            final(self)@ == (StateV {
                markers: old(self)@.markers.push(old(self)@.stack.len() as int),
                ..old(self)@
            }),
    {
        proof {
            lemma_views_of(self.stack@);
        }
        let n = self.stack.len();
        self.marker_stack.push(n);
        proof {
            assert(self@.markers =~= old(self)@.markers.push(old(self)@.stack.len() as int));
            assert(self@ =~= (StateV {
                markers: old(self)@.markers.push(old(self)@.stack.len() as int),
                ..old(self)@
            }));
        }
    }

    /// Remove the last marker, if any; the markers are not clamped.
    pub(crate) fn take_marker(&mut self) -> (r: Option<usize>)
        ensures
            old(self)@.markers.len() == 0 ==> r is None && final(self)@ == old(self)@,
            old(self)@.markers.len() > 0 ==> (r matches Some(m) && m as int
                == old(self)@.markers.last() && final(self)@ == (StateV {
                markers: old(self)@.markers.drop_last(),
                ..old(self)@
            })),
    {
        match self.marker_stack.pop() {
            None => {
                proof {
                    assert(self@ =~= old(self)@);
                }
                None
            }
            Some(m) => {
                proof {
                    assert(self@.markers =~= old(self)@.markers.drop_last());
                    assert(self@ =~= (StateV {
                        markers: old(self)@.markers.drop_last(),
                        ..old(self)@
                    }));
                }
                Some(m)
            }
        }
    }

    /// Replace everything at or above an offset by one array of it.
    pub(crate) fn collect_from(&mut self, m: usize)
        requires
            m <= old(self)@.stack.len(),
        ensures
            final(self)@ == (StateV {
                stack: old(self)@.stack.take(m as int).push(
                    crate::items::ItemV::Array(old(self)@.stack.skip(m as int)),
                ),
                ..old(self)@
            }),
    {
        proof {
            lemma_views_of(self.stack@);
        }
        let rest = self.stack.split_off(m);
        proof {
            lemma_views_of(rest@);
            lemma_views_of(self.stack@);
            assert forall|j: int| 0 <= j < views_of(self.stack@).len()
                implies views_of(self.stack@)[j] == views_of(old(self).stack@).take(m as int)[j] by {
                lemma_views_of(old(self).stack@);
            }
            assert(views_of(self.stack@) =~= views_of(old(self).stack@).take(m as int));
            assert forall|j: int| 0 <= j < views_of(rest@).len()
                implies views_of(rest@)[j] == views_of(old(self).stack@).skip(m as int)[j] by {
                lemma_views_of(old(self).stack@);
            }
            assert(views_of(rest@) =~= views_of(old(self).stack@).skip(m as int));
            lemma_views_of_push(self.stack@, Item::Array(rest));
        }
        let arr = Item::Array(rest);
        self.stack.push(arr);
        proof {
            assert(self@ =~= (StateV {
                stack: old(self)@.stack.take(m as int).push(
                    crate::items::ItemV::Array(old(self)@.stack.skip(m as int)),
                ),
                ..old(self)@
            }));
        }
    }

    /// Remove and return everything at or above an offset; the markers
    /// are not clamped.
    pub(crate) fn drain_from(&mut self, p: usize) -> (r: Vec<Item>)
        requires
            p <= old(self)@.stack.len(),
        ensures
            views_of(r@) == old(self)@.stack.skip(p as int),
            final(self)@ == (StateV { stack: old(self)@.stack.take(p as int), ..old(self)@ }),
    {
        proof {
            lemma_views_of(self.stack@);
        }
        let rest = self.stack.split_off(p);
        proof {
            lemma_views_of(rest@);
            lemma_views_of(self.stack@);
            assert forall|j: int| 0 <= j < views_of(self.stack@).len()
                implies views_of(self.stack@)[j] == views_of(old(self).stack@).take(p as int)[j] by {
                lemma_views_of(old(self).stack@);
            }
            assert(views_of(self.stack@) =~= views_of(old(self).stack@).take(p as int));
            assert forall|j: int| 0 <= j < views_of(rest@).len()
                implies views_of(rest@)[j] == views_of(old(self).stack@).skip(p as int)[j] by {
                lemma_views_of(old(self).stack@);
            }
            assert(views_of(rest@) =~= views_of(old(self).stack@).skip(p as int));
            assert(self@ =~= (StateV { stack: old(self)@.stack.take(p as int), ..old(self)@ }));
        }
        rest
    }

    /// Push every item of a vector, in order.
    pub(crate) fn push_all(&mut self, mut items: Vec<Item>)
        ensures
            final(self)@ == (StateV {
                stack: old(self)@.stack + views_of(items@),
                ..old(self)@
            }),
    {
        let ghost items0 = items@;
        proof {
            lemma_views_of(self.stack@);
            lemma_views_of(items@);
        }
        self.stack.append(&mut items);
        proof {
            assert(self.stack@ == old(self).stack@ + items0);
            assert forall|j: int| 0 <= j < views_of(self.stack@).len()
                implies views_of(self.stack@)[j] == (views_of(old(self).stack@) + views_of(
                items0,
            ))[j] by {
                lemma_views_of(self.stack@);
                lemma_views_of(old(self).stack@);
                lemma_views_of(items0);
            }
            lemma_views_of(self.stack@);
            lemma_views_of(old(self).stack@);
            lemma_views_of(items0);
            assert(views_of(self.stack@) =~= views_of(old(self).stack@) + views_of(items0));
            assert(self@ =~= (StateV {
                stack: old(self)@.stack + views_of(items0),
                ..old(self)@
            }));
        }
    }

    /// Step the random number generator.
    pub(crate) fn next_rng(&mut self) -> (r: u64)
        ensures
            r == lcg(old(self)@.rng),
            final(self)@ == (StateV { rng: lcg(old(self)@.rng), ..old(self)@ }),
    {
        let s2 = self.rng.wrapping_mul(6364136223846793005).wrapping_add(1442695040888963407);
        self.rng = s2;
        proof {
            assert(self@ =~= (StateV { rng: lcg(old(self)@.rng), ..old(self)@ }));
        }
        s2
    }

    /// Append characters and a newline to the output.
    pub(crate) fn write_line(&mut self, chars: &Vec<char>)
        ensures
            final(self)@ == (StateV {
                out: old(self)@.out + chars@ + seq!['\n'],
                ..old(self)@
            }),
    {
        let mut i: usize = 0;
        while i < chars.len()
            invariant
                i <= chars@.len(),
                self.output@ == old(self).output@ + chars@.take(i as int),
                self.stack == old(self).stack,
                self.marker_stack == old(self).marker_stack,
                self.variables == old(self).variables,
                self.rng == old(self).rng,
            decreases chars@.len() - i,
        {
            self.output.push(chars[i]);
            assert(self.output@ =~= old(self).output@ + chars@.take(i + 1));
            i = i + 1;
        }
        self.output.push('\n');
        proof {
            assert(chars@.take(chars@.len() as int) =~= chars@);
            assert(self.output@ =~= old(self).output@ + chars@ + seq!['\n']);
            assert(self@ =~= (StateV {
                out: old(self)@.out + chars@ + seq!['\n'],
                ..old(self)@
            }));
        }
    }
}

} // verus!

verus! {

use crate::semantics::spec_eval;
use crate::semantics::step_token;
use crate::semantics::fun_call_v;
use crate::semantics::Eval;
use crate::semantics::eval_matches;
use crate::semantics::fun_matches;
use crate::lexer::spec_lex;
use crate::lexer::lex;

/// The depth budget for nested block evaluation: enough for any
/// reasonable program, small enough that the host call stack survives.
pub const DEFAULT_FUEL: u64 = 3000;

/// Whether a name is exactly the given literal.
pub(crate) fn name_is(name: &Vec<char>, lit: &str) -> (r: bool)
    ensures
        r == (name@ == lit@),
{
    let n = lit.unicode_len();
    if name.len() != n {
        return false;
    }
    let mut i: usize = 0;
    while i < n
        invariant
            i <= n,
            n == lit@.len(),
            name@.len() == n,
            forall|j: int| 0 <= j < i ==> name@[j] == lit@[j],
        decreases n - i,
    {
        if name[i] != lit.get_char(i) {
            return false;
        }
        i = i + 1;
    }
    assert(name@ =~= lit@);
    true
}

impl Interpreter {
    /// Run a block and return the values it leaves above one slot
    /// below the stack height at entry, removing them from the stack.
    pub(crate) fn fun_call(&mut self, blk: &Vec<Item>, fuel: u64) -> (r: Result<
        Vec<Item>,
        GSError,
    >)
        ensures
            fun_matches(fun_call_v(old(self)@, views_of(blk@), fuel as nat), final(self)@, r),
        decreases fuel, 0nat, 0nat,
    {
        if fuel == 0 {
            return Err(runtime_err("nesting too deep"));
        }
        let p0 = self.stack_len();
        proof {
            assert(views_of(blk@).skip(0) =~= views_of(blk@));
        }
        match self.exec_items_from(blk, 0, fuel - 1) {
            Err(e) => Err(e),
            Ok(()) => {
                if p0 == 0 {
                    return Err(runtime_err("stack underflow"));
                }
                let n = self.stack_len();
                if n < p0 - 1 {
                    return Err(runtime_err("stack underflow"));
                }
                let outs = self.drain_from(p0 - 1);
                Ok(outs)
            }
        }
    }

    /// Push a value, then run a block for its results.
    pub(crate) fn fun_call_with(&mut self, blk: &Vec<Item>, val: Item, fuel: u64) -> (r: Result<
        Vec<Item>,
        GSError,
    >)
        ensures
            fun_matches(
                fun_call_v(crate::semantics::st_push(old(self)@, val@), views_of(blk@), fuel as nat),
                final(self)@,
                r,
            ),
        decreases fuel, 0nat, 1nat,
    {
        self.push(val);
        self.fun_call(blk, fuel)
    }

    /// Evaluate a token sequence from an index on, with a depth
    /// budget.
    pub(crate) fn exec_items_from(&mut self, items: &Vec<Item>, start: usize, fuel: u64) -> (r:
        Result<(), GSError>)
        requires
            start <= items@.len(),
        ensures
            eval_matches(
                spec_eval(old(self)@, views_of(items@).skip(start as int), fuel as nat),
                final(self)@,
                r,
            ),
        decreases fuel, 4nat, 0nat,
    {
        if fuel == 0 {
            return Err(runtime_err("nesting too deep"));
        }
        let ghost toks = views_of(items@);
        proof {
            lemma_views_of(items@);
        }
        let mut i: usize = start;
        loop
            invariant
                start <= i <= items@.len(),
                fuel >= 1,
                toks == views_of(items@),
                toks.len() == items@.len(),
                spec_eval(old(self)@, toks.skip(start as int), fuel as nat) == spec_eval(
                    self@,
                    toks.skip(i as int),
                    fuel as nat,
                ),
            decreases items@.len() - i,
        {
            if i >= items.len() {
                proof {
                    assert(toks.skip(items@.len() as int) =~= Seq::<ItemV>::empty());
                }
                return Ok(());
            }
            let ghost pre = self@;
            let tok = &items[i];
            proof {
                lemma_views_of(items@);
                assert(toks.skip(i as int)[0] == tok@);
                assert(toks.skip(i as int).drop_first() =~= toks.skip(i + 1));
                assert(toks.skip(i as int).len() > 0);
            }
            let step: Result<(), GSError> = match tok {
                Item::Num(_) | Item::Str(_) | Item::Block(_) => {
                    let c = clone_item(tok);
                    self.push(c);
                    Ok(())
                }
                Item::Assign(name) => {
                    let nm = crate::items::clone_chars(name);
                    self.assign(nm)
                }
                Item::Var(name) => {
                    if self.contains_variable(name) {
                        self.exec_variable(name, fuel)
                    } else if name_is(name, "+") {
                        self.add()
                    } else if name_is(name, "-") {
                        self.sub()
                    } else if name_is(name, "!") {
                        self.not()
                    } else if name_is(name, "@") {
                        self.at()
                    } else if name_is(name, "$") {
                        self.dollar(fuel)
                    } else if name_is(name, "*") {
                        self.mul(fuel)
                    } else if name_is(name, "/") {
                        self.div(fuel)
                    } else if name_is(name, "%") {
                        self.modulo(fuel)
                    } else if name_is(name, "|") {
                        self.or()
                    } else if name_is(name, "&") {
                        self.and()
                    } else if name_is(name, "^") {
                        self.xor()
                    } else if name_is(name, "\\") {
                        self.swap()
                    } else if name_is(name, ";") {
                        self.pop_discard()
                    } else if name_is(name, "<") {
                        self.lt()
                    } else if name_is(name, ">") {
                        self.gt()
                    } else if name_is(name, "=") {
                        self.eq()
                    } else if name_is(name, ".") {
                        self.dup()
                    } else if name_is(name, "?") {
                        self.qmark(fuel)
                    } else if name_is(name, "(") {
                        self.dec()
                    } else if name_is(name, ")") {
                        self.inc()
                    } else if name_is(name, "[") {
                        self.marker()
                    } else if name_is(name, "]") {
                        self.slice()
                    } else if name_is(name, "~") {
                        self.neg(fuel)
                    } else if name_is(name, "`") {
                        self.backtick()
                    } else if name_is(name, ",") {
                        self.array(fuel)
                    } else if name_is(name, "abs") {
                        self.builtin_abs()
                    } else if name_is(name, "if") {
                        self.builtin_if(fuel)
                    } else if name_is(name, "rand") {
                        self.builtin_rand()
                    } else if name_is(name, "print") {
                        self.builtin_print()
                    } else {
                        Err(runtime_err("undefined name"))
                    }
                }
                _ => Err(runtime_err("invalid token")),
            };
            match step {
                Err(e) => {
                    proof {
                        assert(step_token(pre, toks.skip(i as int)[0], fuel as nat)
                            == Eval::Halt(self@));
                    }
                    return Err(e);
                }
                Ok(()) => {
                    proof {
                        assert(step_token(pre, toks.skip(i as int)[0], fuel as nat)
                            == Eval::Next(self@));
                    }
                }
            }
            i = i + 1;
        }
    }

    /// Evaluate a token sequence against this interpreter, returning a
    /// copy of the stack after it.
    pub fn exec_items(&mut self, items: &Vec<Item>) -> (r: Result<Vec<Item>, GSError>)
        ensures
            match spec_eval(old(self)@, views_of(items@), DEFAULT_FUEL as nat) {
                Eval::Next(s) => final(self)@ == s && (r matches Ok(v) && views_of(v@) == s.stack),
                Eval::Halt(s) => final(self)@ == s && (r matches Err(e) && e is Runtime),
            },
    {
        proof {
            assert(views_of(items@).skip(0) =~= views_of(items@));
        }
        match self.exec_items_from(items, 0, DEFAULT_FUEL) {
            Err(e) => Err(e),
            Ok(()) => Ok(self.stack_items()),
        }
    }

    /// Tokenize and evaluate a source text, returning a copy of the
    /// stack after it. A lexing failure is a `Parse` error and leaves
    /// the state alone; a failing program keeps its partial effects.
    pub fn exec(&mut self, input: &str) -> (r: Result<Vec<Item>, GSError>)
        ensures
            match spec_lex(input@) {
                None => final(self)@ == old(self)@ && (r matches Err(e) && e is Parse),
                Some(toks) => match spec_eval(old(self)@, toks, DEFAULT_FUEL as nat) {
                    Eval::Next(s) => final(self)@ == s && (r matches Ok(v) && views_of(v@)
                        == s.stack),
                    Eval::Halt(s) => final(self)@ == s && (r matches Err(e) && e is Runtime),
                },
            },
    {
        match lex(input) {
            Err(e) => Err(e),
            Ok(toks) => self.exec_items(&toks),
        }
    }
}

} // verus!
