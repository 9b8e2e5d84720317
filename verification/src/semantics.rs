use vstd::prelude::*;

use crate::items::Item;
use crate::items::ItemV;
use crate::items::is_truthy;
use crate::items::seq_has;
use crate::items::cmp_vals;
use crate::items::disp;
use crate::items::upcast_arr;
use crate::items::upcast_arr_ok;
use crate::items::upcast_str;
use crate::items::upcast_str_ok;
use crate::items::upcast_blk;
use crate::items::upcast_blk_ok;
use crate::lexer::spec_lex;

verus! {

// ---------------------------------------------------------------------
// The interpreter state, mathematically
// ---------------------------------------------------------------------

/// The state of the machine: the value stack, the marker stack, the
/// variable bindings, the text printed so far, and the state of the
/// random number generator.
#[verifier::ext_equal]
pub struct StateV {
    pub stack: Seq<ItemV>,
    pub markers: Seq<int>,
    pub vars: Map<Seq<char>, ItemV>,
    pub out: Seq<char>,
    pub rng: u64,
}

/// The outcome of evaluation: the next state, or a runtime failure
/// with the state at the point of failure.
#[verifier::ext_equal]
pub enum Eval {
    Next(StateV),
    Halt(StateV),
}

/// The outcome of calling a block for its results: the state and the
/// values the block produced, or a failure.
#[verifier::ext_equal]
pub enum FunRes {
    Good(StateV, Seq<ItemV>),
    Bad(StateV),
}

/// Every marker above the new length is pulled down to it.
pub open spec fn clamp_markers(ms: Seq<int>, n: int) -> Seq<int> {
    ms.map_values(|m: int| if m > n { n } else { m })
}

pub open spec fn st_push(st: StateV, v: ItemV) -> StateV {
    StateV { stack: st.stack.push(v), ..st }
}

/// Remove the top of the stack and clamp the markers, as every pop
/// does.
pub open spec fn st_pop(st: StateV) -> StateV {
    StateV {
        stack: st.stack.drop_last(),
        markers: clamp_markers(st.markers, st.stack.len() - 1),
        ..st
    }
}

pub open spec fn st_pop2(st: StateV) -> StateV {
    st_pop(st_pop(st))
}

/// The state after a failed attempt to pop two values.
pub open spec fn pop2_err(st: StateV) -> StateV {
    if st.stack.len() == 0 {
        st
    } else {
        st_pop(st)
    }
}

pub open spec fn top_of(st: StateV) -> ItemV {
    st.stack.last()
}

pub open spec fn below_of(st: StateV) -> ItemV {
    st.stack[st.stack.len() - 2]
}

/// An integer that fits the 64-bit signed machine word.
pub open spec fn fits_i64(n: int) -> bool {
    i64::MIN <= n <= i64::MAX
}

// ---------------------------------------------------------------------
// The variable environment
// ---------------------------------------------------------------------

/// The bindings held by an association list, later entries winning.
pub open spec fn env_map(s: Seq<(Vec<char>, Item)>) -> Map<Seq<char>, ItemV>
    decreases s.len(),
{
    if s.len() == 0 {
        Map::empty()
    } else {
        env_map(s.drop_last()).insert(s.last().0@, s.last().1@)
    }
}

/// The index of the binding that decides a name: the last entry with
/// that name, or -1.
pub open spec fn env_find(s: Seq<(Vec<char>, Item)>, k: Seq<char>) -> int
    decreases s.len(),
{
    if s.len() == 0 {
        -1
    } else if s.last().0@ == k {
        s.len() - 1
    } else {
        env_find(s.drop_last(), k)
    }
}

pub proof fn lemma_env_map_find(s: Seq<(Vec<char>, Item)>, k: Seq<char>)
    ensures
        env_map(s).contains_key(k) <==> env_find(s, k) >= 0,
        env_find(s, k) >= 0 ==> 0 <= env_find(s, k) < s.len()
            && s[env_find(s, k)].0@ == k
            && env_map(s)[k] == s[env_find(s, k)].1@,
    decreases s.len(),
{
    if s.len() > 0 {
        lemma_env_map_find(s.drop_last(), k);
    }
}

pub proof fn lemma_env_map_push(s: Seq<(Vec<char>, Item)>, p: (Vec<char>, Item))
    ensures
        env_map(s.push(p)) == env_map(s).insert(p.0@, p.1@),
{
    assert(s.push(p).drop_last() =~= s);
}

// ---------------------------------------------------------------------
// Sequence helpers for the set-like operators
// ---------------------------------------------------------------------

/// Keep the first occurrence of each value, in order.
pub open spec fn dedup_first(s: Seq<ItemV>) -> Seq<ItemV>
    decreases s.len(),
{
    if s.len() == 0 {
        Seq::empty()
    } else {
        let d = dedup_first(s.drop_last());
        if seq_has(d, s.last()) {
            d
        } else {
            d.push(s.last())
        }
    }
}

/// The elements of `s` that occur in `t`, in order, duplicates kept.
pub open spec fn keep_in(s: Seq<ItemV>, t: Seq<ItemV>) -> Seq<ItemV>
    decreases s.len(),
{
    if s.len() == 0 {
        Seq::empty()
    } else {
        let d = keep_in(s.drop_last(), t);
        if seq_has(t, s.last()) {
            d.push(s.last())
        } else {
            d
        }
    }
}

/// The elements of `s` that do not occur in `t`, in order.
pub open spec fn keep_not_in(s: Seq<ItemV>, t: Seq<ItemV>) -> Seq<ItemV>
    decreases s.len(),
{
    if s.len() == 0 {
        Seq::empty()
    } else {
        let d = keep_not_in(s.drop_last(), t);
        if seq_has(t, s.last()) {
            d
        } else {
            d.push(s.last())
        }
    }
}

/// The index of the first element equal to `v`, or -1.
pub open spec fn find_eq_index(s: Seq<ItemV>, v: ItemV, i: int) -> int
    decreases s.len() - i,
    when 0 <= i
{
    if i >= s.len() {
        -1
    } else if s[i] == v {
        i
    } else {
        find_eq_index(s, v, i + 1)
    }
}

// ---------------------------------------------------------------------
// Sorting under the total order
// ---------------------------------------------------------------------

/// Insert behind every element that does not compare greater: the
/// insertion step of a stable insertion sort.
pub open spec fn insert_sorted(x: ItemV, s: Seq<ItemV>) -> Seq<ItemV>
    decreases s.len(),
{
    if s.len() == 0 {
        seq![x]
    } else if cmp_vals(s.last(), x) <= 0 {
        s.push(x)
    } else {
        insert_sorted(x, s.drop_last()).push(s.last())
    }
}

/// Stable insertion sort under the total order.
pub open spec fn sort_items(s: Seq<ItemV>) -> Seq<ItemV>
    decreases s.len(),
{
    if s.len() == 0 {
        Seq::empty()
    } else {
        insert_sorted(s.last(), sort_items(s.drop_last()))
    }
}

pub open spec fn cmp_codes(a: char, b: char) -> int {
    if (a as u32) < (b as u32) {
        -1
    } else if (a as u32) == (b as u32) {
        0
    } else {
        1
    }
}

pub open spec fn insert_sorted_char(x: char, s: Seq<char>) -> Seq<char>
    decreases s.len(),
{
    if s.len() == 0 {
        seq![x]
    } else if cmp_codes(s.last(), x) <= 0 {
        s.push(x)
    } else {
        insert_sorted_char(x, s.drop_last()).push(s.last())
    }
}

/// Sort characters by code point.
pub open spec fn sort_chars(s: Seq<char>) -> Seq<char>
    decreases s.len(),
{
    if s.len() == 0 {
        Seq::empty()
    } else {
        insert_sorted_char(s.last(), sort_chars(s.drop_last()))
    }
}

/// The insertion step of a stable sort of keyed values: the pair goes
/// behind every pair whose key does not compare greater.
pub open spec fn insert_sorted_pair(x: (ItemV, ItemV), s: Seq<(ItemV, ItemV)>) -> Seq<(ItemV, ItemV)>
    decreases s.len(),
{
    if s.len() == 0 {
        seq![x]
    } else if cmp_vals(s.last().0, x.0) <= 0 {
        s.push(x)
    } else {
        insert_sorted_pair(x, s.drop_last()).push(s.last())
    }
}

/// Stable sort of values by their keys.
pub open spec fn sort_pairs(s: Seq<(ItemV, ItemV)>) -> Seq<(ItemV, ItemV)>
    decreases s.len(),
{
    if s.len() == 0 {
        Seq::empty()
    } else {
        insert_sorted_pair(s.last(), sort_pairs(s.drop_last()))
    }
}

pub open spec fn snds(s: Seq<(ItemV, ItemV)>) -> Seq<ItemV> {
    s.map_values(|p: (ItemV, ItemV)| p.1)
}

// ---------------------------------------------------------------------
// Joining, splitting, chunking
// ---------------------------------------------------------------------

/// The characters an element contributes when joined into a string:
/// its string upcast.
pub open spec fn str_of(v: ItemV) -> Seq<char> {
    match upcast_str(v) {
        ItemV::Str(s) => s,
        _ => Seq::empty(),
    }
}

/// Join the string forms of the elements with a separator.
pub open spec fn join_str(els: Seq<ItemV>, sep: Seq<char>) -> Seq<char>
    decreases els.len(),
{
    if els.len() == 0 {
        Seq::empty()
    } else if els.len() == 1 {
        str_of(els[0])
    } else {
        join_str(els.drop_last(), sep) + sep + str_of(els.last())
    }
}

pub open spec fn join_str_ok(els: Seq<ItemV>) -> bool {
    forall|i: int| 0 <= i < els.len() ==> upcast_str_ok(#[trigger] els[i])
}

/// Join the characters of a string with a separator string.
pub open spec fn join_chars(s: Seq<char>, sep: Seq<char>) -> Seq<char>
    decreases s.len(),
{
    if s.len() == 0 {
        Seq::empty()
    } else if s.len() == 1 {
        seq![s[0]]
    } else {
        join_chars(s.drop_last(), sep) + sep + seq![s.last()]
    }
}

/// What an element contributes to an array join: an array is spliced
/// one level, anything else stands alone.
pub open spec fn splice_one(v: ItemV) -> Seq<ItemV> {
    match v {
        ItemV::Array(els) => els,
        _ => seq![v],
    }
}

/// Join array elements with a separator array, splicing nested arrays
/// one level.
pub open spec fn join_arr(els: Seq<ItemV>, sep: Seq<ItemV>) -> Seq<ItemV>
    decreases els.len(),
{
    if els.len() == 0 {
        Seq::empty()
    } else if els.len() == 1 {
        splice_one(els[0])
    } else {
        join_arr(els.drop_last(), sep) + sep + splice_one(els.last())
    }
}

/// Split a sequence on a non-empty pattern: a piece ends wherever the
/// pattern matches; the piece after the last match is kept only when
/// `keep_tail` or it is non-empty.
pub open spec fn split_at(
    s: Seq<ItemV>,
    p: Seq<ItemV>,
    i: int,
    cur: Seq<ItemV>,
    acc: Seq<ItemV>,
    keep_tail: bool,
) -> Seq<ItemV>
    decreases s.len() - i,
    when 0 <= i && p.len() >= 1
{
    if i > s.len() - p.len() || i > s.len() {
        let cur2 = cur + s.skip(i);
        if keep_tail || cur2.len() > 0 {
            acc.push(ItemV::Array(cur2))
        } else {
            acc
        }
    } else if s.subrange(i, i + p.len()) == p {
        split_at(s, p, i + p.len(), Seq::empty(), acc.push(ItemV::Array(cur)), keep_tail)
    } else {
        split_at(s, p, i + 1, cur.push(s[i]), acc, keep_tail)
    }
}

/// Split an array on a pattern array. An empty pattern gives one empty
/// piece for each element.
pub open spec fn split_arr(s: Seq<ItemV>, p: Seq<ItemV>) -> Seq<ItemV> {
    if p.len() == 0 {
        Seq::new(s.len(), |i: int| ItemV::Array(Seq::empty()))
    } else {
        split_at(s, p, 0, Seq::empty(), Seq::empty(), false)
    }
}

/// Split characters on a non-empty separator, keeping empty pieces.
pub open spec fn split_chars_at(
    s: Seq<char>,
    p: Seq<char>,
    i: int,
    cur: Seq<char>,
    acc: Seq<ItemV>,
) -> Seq<ItemV>
    decreases s.len() - i,
    when 0 <= i && p.len() >= 1
{
    if i > s.len() - p.len() || i > s.len() {
        acc.push(ItemV::Str(cur + s.skip(i)))
    } else if s.subrange(i, i + p.len()) == p {
        split_chars_at(s, p, i + p.len(), Seq::empty(), acc.push(ItemV::Str(cur)))
    } else {
        split_chars_at(s, p, i + 1, cur.push(s[i]), acc)
    }
}

/// Split a string on a separator, as the platform split does: every
/// piece is kept, and the empty separator cuts around every character.
pub open spec fn split_chars(s: Seq<char>, p: Seq<char>) -> Seq<ItemV> {
    if p.len() == 0 {
        seq![ItemV::Str(Seq::empty())] + Seq::new(s.len(), |i: int| ItemV::Str(seq![s[i]]))
            + seq![ItemV::Str(Seq::empty())]
    } else {
        split_chars_at(s, p, 0, Seq::empty(), Seq::empty())
    }
}

/// The non-empty pieces only.
pub open spec fn drop_empty_strs(s: Seq<ItemV>) -> Seq<ItemV>
    decreases s.len(),
{
    if s.len() == 0 {
        Seq::empty()
    } else {
        let d = drop_empty_strs(s.drop_last());
        if is_truthy(s.last()) {
            d.push(s.last())
        } else {
            d
        }
    }
}

/// Consecutive groups of `k` elements, the last possibly short.
pub open spec fn chunks(s: Seq<ItemV>, k: int) -> Seq<ItemV>
    decreases s.len(),
    when k >= 1
{
    if s.len() == 0 {
        Seq::empty()
    } else if s.len() <= k {
        seq![ItemV::Array(s)]
    } else {
        seq![ItemV::Array(s.take(k))] + chunks(s.skip(k), k)
    }
}

/// Every `k`-th element, beginning with the first.
pub open spec fn stride(s: Seq<ItemV>, k: int) -> Seq<ItemV>
    decreases s.len(),
    when k >= 1
{
    if s.len() == 0 {
        Seq::empty()
    } else if s.len() <= k {
        seq![s[0]]
    } else {
        seq![s[0]] + stride(s.skip(k), k)
    }
}

/// The mathematical power.
pub open spec fn pow_int(b: int, e: nat) -> int
    decreases e,
{
    if e == 0 {
        1
    } else {
        b * pow_int(b, (e - 1) as nat)
    }
}

/// The linear congruential step that drives `rand`.
pub open spec fn lcg(s: u64) -> u64 {
    s.wrapping_mul(6364136223846793005).wrapping_add(1442695040888963407)
}

/// The largest multiple of `span` not above the count of 64-bit
/// states: a draw below it sits in a whole residue class, so keeping
/// only such draws leaves the remainder unbiased.
pub open spec fn rand_zone(span: int) -> int {
    (0x1_0000_0000_0000_0000int / span) * span
}

/// The retry budget of the rejection sampling behind `rand`. The zone
/// covers more than half the states, so this many rejections in a row
/// do not happen in practice; the last draw is then kept as it is.
pub const RAND_TRIES: u64 = 128;

/// Rejection sampling over the generator: keep the draw when it falls
/// below the unbiased zone, else step and try again, at most `tries`
/// more times. The kept draw is also the new generator state.
pub open spec fn rand_draw(s: u64, span: int, tries: nat) -> u64
    decreases tries,
{
    if (s as int) < rand_zone(span) || tries == 0 {
        s
    } else {
        rand_draw(lcg(s), span, (tries - 1) as nat)
    }
}

// ---------------------------------------------------------------------
// The simple operator steps
// ---------------------------------------------------------------------

/// Coercion is defined on a pair when both sides can be upcast to the
/// higher of their kinds, in the order Blk > Str > Arr > Int.
pub open spec fn coerce_ok(x: ItemV, y: ItemV) -> bool {
    if x is Block || y is Block {
        upcast_blk_ok(x) && upcast_blk_ok(y)
    } else if x is Str || y is Str {
        upcast_str_ok(x) && upcast_str_ok(y)
    } else if x is Array || y is Array {
        upcast_arr_ok(x) && upcast_arr_ok(y)
    } else {
        true
    }
}

/// Both sides upcast to the higher kind; a pair with no higher kind is
/// unchanged.
pub open spec fn coerce_v(x: ItemV, y: ItemV) -> (ItemV, ItemV) {
    if x is Block || y is Block {
        (upcast_blk(x), upcast_blk(y))
    } else if x is Str || y is Str {
        (upcast_str(x), upcast_str(y))
    } else if x is Array || y is Array {
        (upcast_arr(x), upcast_arr(y))
    } else {
        (x, y)
    }
}

/// `+` after coercion: sum, or concatenation with the below operand
/// first.
pub open spec fn step_add(st: StateV) -> Eval {
    if st.stack.len() < 2 {
        Eval::Halt(pop2_err(st))
    } else {
        let x = top_of(st);
        let y = below_of(st);
        let st2 = st_pop2(st);
        if !coerce_ok(x, y) {
            Eval::Halt(st2)
        } else {
            match coerce_v(x, y) {
                (ItemV::Num(a), ItemV::Num(b)) => {
                    if fits_i64(a + b) {
                        Eval::Next(st_push(st2, ItemV::Num(a + b)))
                    } else {
                        Eval::Halt(st2)
                    }
                }
                (ItemV::Str(a), ItemV::Str(b)) => Eval::Next(st_push(st2, ItemV::Str(b + a))),
                (ItemV::Array(a), ItemV::Array(b)) => Eval::Next(
                    st_push(st2, ItemV::Array(b + a)),
                ),
                (ItemV::Block(a), ItemV::Block(b)) => Eval::Next(
                    st_push(st2, ItemV::Block(b + a)),
                ),
                _ => Eval::Halt(st2),
            }
        }
    }
}

/// `-` after coercion: difference, or the below elements not occurring
/// in the top.
pub open spec fn step_sub(st: StateV) -> Eval {
    if st.stack.len() < 2 {
        Eval::Halt(pop2_err(st))
    } else {
        let x = top_of(st);
        let y = below_of(st);
        let st2 = st_pop2(st);
        if !coerce_ok(x, y) {
            Eval::Halt(st2)
        } else {
            match coerce_v(x, y) {
                (ItemV::Num(a), ItemV::Num(b)) => {
                    if fits_i64(b - a) {
                        Eval::Next(st_push(st2, ItemV::Num(b - a)))
                    } else {
                        Eval::Halt(st2)
                    }
                }
                (ItemV::Array(a), ItemV::Array(b)) => Eval::Next(
                    st_push(st2, ItemV::Array(keep_not_in(b, a))),
                ),
                _ => Eval::Halt(st2),
            }
        }
    }
}

/// `|`, `&`, `^` after coercion: bitwise on integers; union,
/// intersection and symmetric difference on arrays, first-seen order,
/// deduplicated.
pub open spec fn step_or(st: StateV) -> Eval {
    if st.stack.len() < 2 {
        Eval::Halt(pop2_err(st))
    } else {
        let x = top_of(st);
        let y = below_of(st);
        let st2 = st_pop2(st);
        if !coerce_ok(x, y) {
            Eval::Halt(st2)
        } else {
            match coerce_v(x, y) {
                (ItemV::Num(a), ItemV::Num(b)) => Eval::Next(
                    st_push(st2, ItemV::Num(((b as i64) | (a as i64)) as int)),
                ),
                (ItemV::Array(a), ItemV::Array(b)) => Eval::Next(
                    st_push(st2, ItemV::Array(dedup_first(b + a))),
                ),
                _ => Eval::Halt(st2),
            }
        }
    }
}

pub open spec fn step_and(st: StateV) -> Eval {
    if st.stack.len() < 2 {
        Eval::Halt(pop2_err(st))
    } else {
        let x = top_of(st);
        let y = below_of(st);
        let st2 = st_pop2(st);
        if !coerce_ok(x, y) {
            Eval::Halt(st2)
        } else {
            match coerce_v(x, y) {
                (ItemV::Num(a), ItemV::Num(b)) => Eval::Next(
                    st_push(st2, ItemV::Num(((b as i64) & (a as i64)) as int)),
                ),
                (ItemV::Array(a), ItemV::Array(b)) => Eval::Next(
                    st_push(st2, ItemV::Array(dedup_first(keep_in(b, a)))),
                ),
                _ => Eval::Halt(st2),
            }
        }
    }
}

pub open spec fn step_xor(st: StateV) -> Eval {
    if st.stack.len() < 2 {
        Eval::Halt(pop2_err(st))
    } else {
        let x = top_of(st);
        let y = below_of(st);
        let st2 = st_pop2(st);
        if !coerce_ok(x, y) {
            Eval::Halt(st2)
        } else {
            match coerce_v(x, y) {
                (ItemV::Num(a), ItemV::Num(b)) => Eval::Next(
                    st_push(st2, ItemV::Num(((b as i64) ^ (a as i64)) as int)),
                ),
                (ItemV::Array(a), ItemV::Array(b)) => Eval::Next(
                    st_push(
                        st2,
                        ItemV::Array(
                            keep_not_in(dedup_first(b), a) + keep_not_in(dedup_first(a), b),
                        ),
                    ),
                ),
                _ => Eval::Halt(st2),
            }
        }
    }
}

/// `!`: 1 on a false value, 0 on a true one.
pub open spec fn step_not(st: StateV) -> Eval {
    if st.stack.len() < 1 {
        Eval::Halt(st)
    } else {
        let v = top_of(st);
        Eval::Next(st_push(st_pop(st), ItemV::Num(if is_truthy(v) { 0int } else { 1int })))
    }
}

/// `@`: rotate the third value to the top.
pub open spec fn step_at(st: StateV) -> Eval {
    if st.stack.len() < 2 {
        Eval::Halt(pop2_err(st))
    } else if st.stack.len() < 3 {
        Eval::Halt(st_pop2(st))
    } else {
        let x = top_of(st);
        let y = below_of(st);
        let st2 = st_pop2(st);
        let z = st2.stack.last();
        Eval::Next(st_push(st_push(st_push(st_pop(st2), y), x), z))
    }
}

/// `\`: swap the top two.
pub open spec fn step_swap(st: StateV) -> Eval {
    if st.stack.len() < 2 {
        Eval::Halt(pop2_err(st))
    } else {
        let x = top_of(st);
        let y = below_of(st);
        Eval::Next(st_push(st_push(st_pop2(st), x), y))
    }
}

/// `;`: drop the top.
pub open spec fn step_drop(st: StateV) -> Eval {
    if st.stack.len() < 1 {
        Eval::Halt(st)
    } else {
        Eval::Next(st_pop(st))
    }
}

/// `.`: duplicate the top.
pub open spec fn step_dup(st: StateV) -> Eval {
    if st.stack.len() < 1 {
        Eval::Halt(st)
    } else {
        let v = top_of(st);
        Eval::Next(st_push(st_push(st_pop(st), v), v))
    }
}

/// `[`: remember the stack length.
pub open spec fn step_marker(st: StateV) -> Eval {
    Eval::Next(StateV { markers: st.markers.push(st.stack.len() as int), ..st })
}

/// `]`: collect everything above the last marker into one array.
pub open spec fn step_slice(st: StateV) -> Eval {
    if st.markers.len() == 0 {
        Eval::Halt(st)
    } else {
        let m = st.markers.last();
        let st1 = StateV { markers: st.markers.drop_last(), ..st };
        if !(0 <= m <= st.stack.len()) {
            Eval::Halt(st1)
        } else {
            Eval::Next(
                StateV {
                    stack: st.stack.take(m).push(ItemV::Array(st.stack.skip(m))),
                    ..st1
                },
            )
        }
    }
}

/// `` ` ``: the display form of the top, as a string.
pub open spec fn step_backtick(st: StateV) -> Eval {
    if st.stack.len() < 1 {
        Eval::Halt(st)
    } else {
        let v = top_of(st);
        Eval::Next(st_push(st_pop(st), ItemV::Str(disp(v))))
    }
}

/// `abs`: the absolute value of an integer.
pub open spec fn step_abs(st: StateV) -> Eval {
    if st.stack.len() < 1 {
        Eval::Halt(st)
    } else {
        match top_of(st) {
            ItemV::Num(n) => {
                if fits_i64(-n) || n >= 0 {
                    Eval::Next(st_push(st_pop(st), ItemV::Num(if n < 0 { -n } else { n })))
                } else {
                    Eval::Halt(st_pop(st))
                }
            }
            _ => Eval::Halt(st_pop(st)),
        }
    }
}

/// `(` and `)`: decrement or increment an integer; pull the first or
/// the last element off an array.
pub open spec fn step_dec(st: StateV) -> Eval {
    if st.stack.len() < 1 {
        Eval::Halt(st)
    } else {
        let st1 = st_pop(st);
        match top_of(st) {
            ItemV::Num(n) => {
                if fits_i64(n - 1) {
                    Eval::Next(st_push(st1, ItemV::Num(n - 1)))
                } else {
                    Eval::Halt(st1)
                }
            }
            ItemV::Array(els) => {
                if els.len() == 0 {
                    Eval::Next(st1)
                } else {
                    Eval::Next(st_push(st_push(st1, ItemV::Array(els.drop_first())), els[0]))
                }
            }
            _ => Eval::Halt(st1),
        }
    }
}

pub open spec fn step_inc(st: StateV) -> Eval {
    if st.stack.len() < 1 {
        Eval::Halt(st)
    } else {
        let st1 = st_pop(st);
        match top_of(st) {
            ItemV::Num(n) => {
                if fits_i64(n + 1) {
                    Eval::Next(st_push(st1, ItemV::Num(n + 1)))
                } else {
                    Eval::Halt(st1)
                }
            }
            ItemV::Array(els) => {
                if els.len() == 0 {
                    Eval::Next(st1)
                } else {
                    Eval::Next(
                        st_push(st_push(st1, ItemV::Array(els.drop_last())), els.last()),
                    )
                }
            }
            _ => Eval::Halt(st1),
        }
    }
}

/// `<`: order test on two integers or two strings; take a prefix or a
/// suffix bound of an array or string otherwise.
pub open spec fn take_amount(n: int, len: int) -> int {
    if n >= 0 {
        if n > len {
            len
        } else {
            n
        }
    } else {
        if len + n < 0 {
            len
        } else {
            len + n
        }
    }
}

pub open spec fn skip_amount(n: int, len: int) -> int {
    if n >= 0 {
        if n > len {
            len
        } else {
            n
        }
    } else {
        if len + n < 0 {
            len
        } else {
            len + n
        }
    }
}

pub open spec fn step_lt(st: StateV) -> Eval {
    if st.stack.len() < 2 {
        Eval::Halt(pop2_err(st))
    } else {
        let y = top_of(st);
        let x = below_of(st);
        let st2 = st_pop2(st);
        match (y, x) {
            (ItemV::Num(a), ItemV::Num(b)) => Eval::Next(
                st_push(st2, ItemV::Num(if b < a { 1int } else { 0int })),
            ),
            (ItemV::Str(a), ItemV::Str(b)) => Eval::Next(
                st_push(st2, ItemV::Num(if cmp_vals(ItemV::Str(b), ItemV::Str(a)) < 0 { 1int } else { 0int })),
            ),
            (ItemV::Num(n), ItemV::Array(els)) => Eval::Next(
                st_push(st2, ItemV::Array(els.take(take_amount(n, els.len() as int)))),
            ),
            (ItemV::Array(els), ItemV::Num(n)) => Eval::Next(
                st_push(st2, ItemV::Array(els.take(take_amount(n, els.len() as int)))),
            ),
            (ItemV::Num(n), ItemV::Str(s)) => Eval::Next(
                st_push(st2, ItemV::Str(s.take(take_amount(n, s.len() as int)))),
            ),
            (ItemV::Str(s), ItemV::Num(n)) => Eval::Next(
                st_push(st2, ItemV::Str(s.take(take_amount(n, s.len() as int)))),
            ),
            _ => Eval::Halt(st2),
        }
    }
}

pub open spec fn step_gt(st: StateV) -> Eval {
    if st.stack.len() < 2 {
        Eval::Halt(pop2_err(st))
    } else {
        let y = top_of(st);
        let x = below_of(st);
        let st2 = st_pop2(st);
        match (y, x) {
            (ItemV::Num(a), ItemV::Num(b)) => Eval::Next(
                st_push(st2, ItemV::Num(if b > a { 1int } else { 0int })),
            ),
            (ItemV::Str(a), ItemV::Str(b)) => Eval::Next(
                st_push(st2, ItemV::Num(if cmp_vals(ItemV::Str(b), ItemV::Str(a)) > 0 { 1int } else { 0int })),
            ),
            (ItemV::Num(n), ItemV::Str(s)) => Eval::Next(
                st_push(st2, ItemV::Str(s.skip(skip_amount(n, s.len() as int)))),
            ),
            (ItemV::Str(s), ItemV::Num(n)) => Eval::Next(
                st_push(st2, ItemV::Str(s.skip(skip_amount(n, s.len() as int)))),
            ),
            (ItemV::Num(n), ItemV::Array(els)) => Eval::Next(
                st_push(st2, ItemV::Array(els.skip(skip_amount(n, els.len() as int)))),
            ),
            (ItemV::Array(els), ItemV::Num(n)) => Eval::Next(
                st_push(st2, ItemV::Array(els.skip(skip_amount(n, els.len() as int)))),
            ),
            _ => Eval::Halt(st2),
        }
    }
}

/// `=`: equality of two values of the same kind; with an integer and
/// an array or string, indexing, a negative index counting from the
/// end, silently pushing nothing when out of range.
pub open spec fn step_eq(st: StateV) -> Eval {
    if st.stack.len() < 2 {
        Eval::Halt(pop2_err(st))
    } else {
        let y = top_of(st);
        let x = below_of(st);
        let st2 = st_pop2(st);
        if (y is Num && x is Num) || (y is Str && x is Str) || (y is Array && x is Array)
            || (y is Block && x is Block) {
            Eval::Next(st_push(st2, ItemV::Num(if x == y { 1int } else { 0int })))
        } else {
            match (y, x) {
                (ItemV::Num(n), ItemV::Array(els)) => {
                    let os = if n < 0 { els.len() + n } else { n };
                    if 0 <= os < els.len() {
                        Eval::Next(st_push(st2, els[os]))
                    } else {
                        Eval::Next(st2)
                    }
                }
                (ItemV::Array(els), ItemV::Num(n)) => {
                    let os = if n < 0 { els.len() + n } else { n };
                    if 0 <= os < els.len() {
                        Eval::Next(st_push(st2, els[os]))
                    } else {
                        Eval::Next(st2)
                    }
                }
                (ItemV::Num(n), ItemV::Str(s)) => {
                    let os = if n < 0 { s.len() + n } else { n };
                    if 0 <= os < s.len() {
                        Eval::Next(st_push(st2, ItemV::Num(s[os] as u32 as int)))
                    } else {
                        Eval::Next(st2)
                    }
                }
                (ItemV::Str(s), ItemV::Num(n)) => {
                    let os = if n < 0 { s.len() + n } else { n };
                    if 0 <= os < s.len() {
                        Eval::Next(st_push(st2, ItemV::Num(s[os] as u32 as int)))
                    } else {
                        Eval::Next(st2)
                    }
                }
                _ => Eval::Halt(st2),
            }
        }
    }
}

/// `rand`: a value in `[0, n)` for positive n, `[n, 0)` for negative,
/// drawn uniformly from the generator by rejection sampling; the
/// generator steps once per draw, kept or rejected.
pub open spec fn step_rand(st: StateV) -> Eval {
    if st.stack.len() < 1 {
        Eval::Halt(st)
    } else {
        let st1 = st_pop(st);
        match top_of(st) {
            ItemV::Num(n) => {
                if n == 0 {
                    Eval::Halt(st1)
                } else {
                    let lo: int = if n < 0 { n } else { 0 };
                    let span: int = if n < 0 { -n } else { n };
                    let s2 = rand_draw(lcg(st.rng), span, RAND_TRIES as nat);
                    let v = lo + (s2 as int % span);
                    Eval::Next(StateV { rng: s2, ..st_push(st1, ItemV::Num(v)) })
                }
            }
            _ => Eval::Halt(st1),
        }
    }
}

/// `print`: append the display form of the top and a newline to the
/// output.
pub open spec fn step_print(st: StateV) -> Eval {
    if st.stack.len() < 1 {
        Eval::Halt(st)
    } else {
        let v = top_of(st);
        Eval::Next(StateV { out: st.out + disp(v) + seq!['\n'], ..st_pop(st) })
    }
}

/// `:name`: bind the name to the top of the stack, which stays.
pub open spec fn step_assign(st: StateV, name: Seq<char>) -> Eval {
    if st.stack.len() < 1 {
        Eval::Halt(st)
    } else {
        Eval::Next(StateV { vars: st.vars.insert(name, top_of(st)), ..st })
    }
}

} // verus!

verus! {

// ---------------------------------------------------------------------
// Repetition
// ---------------------------------------------------------------------

/// `n` copies of a character sequence, concatenated.
pub open spec fn repeat_chars(s: Seq<char>, n: int) -> Seq<char>
    decreases n,
{
    if n <= 0 {
        Seq::empty()
    } else {
        repeat_chars(s, n - 1) + s
    }
}

/// `n` copies of a value sequence, concatenated.
pub open spec fn repeat_els(s: Seq<ItemV>, n: int) -> Seq<ItemV>
    decreases n,
{
    if n <= 0 {
        Seq::empty()
    } else {
        repeat_els(s, n - 1) + s
    }
}

/// The characters of a string, each as an integer value.
pub open spec fn chars_as_nums(s: Seq<char>) -> Seq<ItemV> {
    s.map_values(|c: char| ItemV::Num(c as u32 as int))
}

/// The characters of a string, each as a one-character string value.
pub open spec fn chars_as_strs(s: Seq<char>) -> Seq<ItemV> {
    s.map_values(|c: char| ItemV::Str(seq![c]))
}

/// The first character of each value of a keyed pair sequence, taken
/// from the value side.
pub open spec fn pair_chars(s: Seq<(ItemV, ItemV)>) -> Seq<char> {
    s.map_values(
        |p: (ItemV, ItemV)|
            match p.1 {
                ItemV::Str(cs) => cs[0],
                _ => ' ',
            },
    )
}

/// The outcome of computing sort keys: the state and the keyed pairs.
#[verifier::ext_equal]
pub enum KeyRes {
    Good(StateV, Seq<(ItemV, ItemV)>),
    Bad(StateV),
}

// ---------------------------------------------------------------------
// The big-step evaluator
// ---------------------------------------------------------------------

/// Run a block and collect what it leaves above one slot below the
/// stack height at entry; those values are removed. The block call
/// itself costs one unit of nesting depth.
pub open spec fn fun_call_v(st: StateV, blk: Seq<ItemV>, fuel: nat) -> FunRes
    decreases fuel, 0nat, 0nat,
{
    if fuel == 0 {
        FunRes::Bad(st)
    } else {
        let p0 = st.stack.len() as int;
        match spec_eval(st, blk, (fuel - 1) as nat) {
            Eval::Halt(st1) => FunRes::Bad(st1),
            Eval::Next(st1) => {
                if p0 == 0 || st1.stack.len() < p0 - 1 {
                    FunRes::Bad(st1)
                } else {
                    FunRes::Good(
                        StateV { stack: st1.stack.take(p0 - 1), ..st1 },
                        st1.stack.skip(p0 - 1),
                    )
                }
            }
        }
    }
}

/// Run a block `n` times.
pub open spec fn run_n(st: StateV, blk: Seq<ItemV>, n: int, fuel: nat) -> Eval
    decreases fuel, 1nat, n,
{
    if fuel == 0 {
        Eval::Halt(st)
    } else if n <= 0 {
        Eval::Next(st)
    } else {
        match spec_eval(st, blk, (fuel - 1) as nat) {
            Eval::Halt(s) => Eval::Halt(s),
            Eval::Next(s) => run_n(s, blk, n - 1, fuel),
        }
    }
}

/// `each`: push an element, run the block, and continue.
pub open spec fn each_els(st: StateV, blk: Seq<ItemV>, els: Seq<ItemV>, fuel: nat) -> Eval
    decreases fuel, 1nat, els.len(),
{
    if fuel == 0 {
        Eval::Halt(st)
    } else if els.len() == 0 {
        Eval::Next(st)
    } else {
        match spec_eval(st_push(st, els[0]), blk, (fuel - 1) as nat) {
            Eval::Halt(s) => Eval::Halt(s),
            Eval::Next(s) => each_els(s, blk, els.drop_first(), fuel),
        }
    }
}

/// `map`: call the block on each element and gather every value it
/// returns.
pub open spec fn map_els(
    st: StateV,
    blk: Seq<ItemV>,
    els: Seq<ItemV>,
    acc: Seq<ItemV>,
    fuel: nat,
) -> FunRes
    decreases fuel, 1nat, els.len(),
{
    if fuel == 0 {
        FunRes::Bad(st)
    } else if els.len() == 0 {
        FunRes::Good(st, acc)
    } else {
        match fun_call_v(st_push(st, els[0]), blk, fuel) {
            FunRes::Bad(s) => FunRes::Bad(s),
            FunRes::Good(s, outs) => map_els(s, blk, els.drop_first(), acc + outs, fuel),
        }
    }
}

/// `filter`: keep the elements on which the block's last value is
/// true.
pub open spec fn filter_els(
    st: StateV,
    blk: Seq<ItemV>,
    els: Seq<ItemV>,
    acc: Seq<ItemV>,
    fuel: nat,
) -> FunRes
    decreases fuel, 1nat, els.len(),
{
    if fuel == 0 {
        FunRes::Bad(st)
    } else if els.len() == 0 {
        FunRes::Good(st, acc)
    } else {
        match fun_call_v(st_push(st, els[0]), blk, fuel) {
            FunRes::Bad(s) => FunRes::Bad(s),
            FunRes::Good(s, outs) => {
                if outs.len() == 0 {
                    FunRes::Bad(s)
                } else if is_truthy(outs.last()) {
                    filter_els(s, blk, els.drop_first(), acc.push(els[0]), fuel)
                } else {
                    filter_els(s, blk, els.drop_first(), acc, fuel)
                }
            }
        }
    }
}

/// `find`: the first element on which the block's last value is true,
/// as a one-element sequence, or the empty sequence.
pub open spec fn find_el(st: StateV, blk: Seq<ItemV>, els: Seq<ItemV>, fuel: nat) -> FunRes
    decreases fuel, 1nat, els.len(),
{
    if fuel == 0 {
        FunRes::Bad(st)
    } else if els.len() == 0 {
        FunRes::Good(st, Seq::empty())
    } else {
        match fun_call_v(st_push(st, els[0]), blk, fuel) {
            FunRes::Bad(s) => FunRes::Bad(s),
            FunRes::Good(s, outs) => {
                if outs.len() == 0 {
                    FunRes::Bad(s)
                } else if is_truthy(outs.last()) {
                    FunRes::Good(s, seq![els[0]])
                } else {
                    find_el(s, blk, els.drop_first(), fuel)
                }
            }
        }
    }
}

/// Sort keys: call the block on each element in order; the key is the
/// last value the block returns.
pub open spec fn sort_keys(
    st: StateV,
    blk: Seq<ItemV>,
    els: Seq<ItemV>,
    acc: Seq<(ItemV, ItemV)>,
    fuel: nat,
) -> KeyRes
    decreases fuel, 1nat, els.len(),
{
    if fuel == 0 {
        KeyRes::Bad(st)
    } else if els.len() == 0 {
        KeyRes::Good(st, acc)
    } else {
        match fun_call_v(st_push(st, els[0]), blk, fuel) {
            FunRes::Bad(s) => KeyRes::Bad(s),
            FunRes::Good(s, outs) => {
                if outs.len() == 0 {
                    KeyRes::Bad(s)
                } else {
                    sort_keys(s, blk, els.drop_first(), acc.push((outs.last(), els[0])), fuel)
                }
            }
        }
    }
}

/// The round budget of `unfold`: so large that no run exhausts it in
/// practice, and separate from the nesting depth, which each round's
/// blocks get afresh.
pub const UNFOLD_ROUNDS: u64 = 18446744073709551615;

/// `unfold`: while the condition block's last value is a non-zero
/// integer, snapshot the top and run the body. `fuel` bounds the
/// nesting depth inside each round; `rounds` bounds the rounds.
pub open spec fn unfold(
    st: StateV,
    cond: Seq<ItemV>,
    body: Seq<ItemV>,
    acc: Seq<ItemV>,
    fuel: nat,
    rounds: nat,
) -> FunRes
    decreases fuel, 1nat, rounds,
{
    if fuel == 0 {
        FunRes::Bad(st)
    } else if rounds == 0 {
        FunRes::Bad(st)
    } else if st.stack.len() == 0 {
        FunRes::Bad(st)
    } else {
        let v = st.stack.last();
        let st1 = st_push(st_push(st_pop(st), v), v);
        match fun_call_v(st1, cond, fuel) {
            FunRes::Bad(s) => FunRes::Bad(s),
            FunRes::Good(s, outs) => {
                if outs.len() == 0 {
                    FunRes::Bad(s)
                } else {
                    match outs.last() {
                        ItemV::Num(n) => {
                            if n != 0 {
                                if s.stack.len() == 0 {
                                    FunRes::Bad(s)
                                } else {
                                    let snap = s.stack.last();
                                    match spec_eval(s, body, (fuel - 1) as nat) {
                                        Eval::Halt(s2) => FunRes::Bad(s2),
                                        Eval::Next(s2) => unfold(
                                            s2,
                                            cond,
                                            body,
                                            acc.push(snap),
                                            fuel,
                                            (rounds - 1) as nat,
                                        ),
                                    }
                                }
                            } else {
                                if s.stack.len() == 0 {
                                    FunRes::Bad(s)
                                } else {
                                    FunRes::Good(st_pop(s), acc)
                                }
                            }
                        }
                        _ => FunRes::Bad(s),
                    }
                }
            }
        }
    }
}

/// `*`: multiplication; repetition of a string or array; running a
/// block a number of times; joins; folds.
pub open spec fn step_mul(st: StateV, fuel: nat) -> Eval
    decreases fuel, 2nat, 1nat,
{
    if st.stack.len() < 2 {
        Eval::Halt(pop2_err(st))
    } else {
        let x = top_of(st);
        let y = below_of(st);
        let st2 = st_pop2(st);
        match (x, y) {
            (ItemV::Num(a), ItemV::Num(b)) => {
                if fits_i64(a * b) {
                    Eval::Next(st_push(st2, ItemV::Num(a * b)))
                } else {
                    Eval::Halt(st2)
                }
            }
            _ => {
                if (x matches ItemV::Num(a) && a < 0) || (y matches ItemV::Num(b) && b < 0) {
                    Eval::Halt(st2)
                } else {
                    step_mul_rest(st2, x, y, fuel)
                }
            }
        }
    }
}

/// The non-numeric cases of `*`, on the already popped operands.
pub open spec fn step_mul_rest(st2: StateV, x: ItemV, y: ItemV, fuel: nat) -> Eval
    decreases fuel, 2nat, 0nat,
{
    match (x, y) {
        (ItemV::Num(n), ItemV::Str(s)) => Eval::Next(
            st_push(st2, ItemV::Str(repeat_chars(s, n))),
        ),
        (ItemV::Str(s), ItemV::Num(n)) => Eval::Next(
            st_push(st2, ItemV::Str(repeat_chars(s, n))),
        ),
        (ItemV::Num(n), ItemV::Array(els)) => Eval::Next(
            st_push(st2, ItemV::Array(repeat_els(els, n))),
        ),
        (ItemV::Array(els), ItemV::Num(n)) => Eval::Next(
            st_push(st2, ItemV::Array(repeat_els(els, n))),
        ),
        (ItemV::Num(n), ItemV::Block(b)) => run_n(st2, b, n, fuel),
        (ItemV::Block(b), ItemV::Num(n)) => run_n(st2, b, n, fuel),
        (ItemV::Array(els), ItemV::Str(sep)) => {
            if join_str_ok(els) {
                Eval::Next(st_push(st2, ItemV::Str(join_str(els, sep))))
            } else {
                Eval::Halt(st2)
            }
        }
        (ItemV::Str(sep), ItemV::Array(els)) => {
            if join_str_ok(els) {
                Eval::Next(st_push(st2, ItemV::Str(join_str(els, sep))))
            } else {
                Eval::Halt(st2)
            }
        }
        (ItemV::Array(sep), ItemV::Array(from)) => Eval::Next(
            st_push(st2, ItemV::Array(join_arr(from, sep))),
        ),
        (ItemV::Str(sep), ItemV::Str(s)) => Eval::Next(
            st_push(st2, ItemV::Str(join_chars(s, sep))),
        ),
        (ItemV::Block(b), ItemV::Array(els)) => run_n(
            StateV { stack: st2.stack + els, ..st2 },
            b,
            els.len() - 1,
            fuel,
        ),
        (ItemV::Array(els), ItemV::Block(b)) => run_n(
            StateV { stack: st2.stack + els, ..st2 },
            b,
            els.len() - 1,
            fuel,
        ),
        (ItemV::Block(b), ItemV::Str(s)) => run_n(
            StateV { stack: st2.stack + chars_as_nums(s), ..st2 },
            b,
            s.len() - 1,
            fuel,
        ),
        (ItemV::Str(s), ItemV::Block(b)) => run_n(
            StateV { stack: st2.stack + chars_as_nums(s), ..st2 },
            b,
            s.len() - 1,
            fuel,
        ),
        _ => Eval::Halt(st2),
    }
}

/// `/`: division; splitting; chunking; `each`; `unfold`.
pub open spec fn step_div(st: StateV, fuel: nat) -> Eval
    decreases fuel, 2nat, 0nat,
{
    if st.stack.len() < 2 {
        Eval::Halt(pop2_err(st))
    } else {
        let y = top_of(st);
        let x = below_of(st);
        let st2 = st_pop2(st);
        match (y, x) {
            (ItemV::Num(a), ItemV::Num(b)) => {
                match (b as i64).checked_div(a as i64) {
                    Some(q) => Eval::Next(st_push(st2, ItemV::Num(q as int))),
                    None => Eval::Halt(st2),
                }
            }
            (ItemV::Array(p), ItemV::Array(s)) => Eval::Next(
                st_push(st2, ItemV::Array(split_arr(s, p))),
            ),
            (ItemV::Str(p), ItemV::Str(s)) => Eval::Next(
                st_push(st2, ItemV::Array(split_chars(s, p))),
            ),
            (ItemV::Num(k), ItemV::Array(s)) => {
                if k == 0 {
                    Eval::Halt(st2)
                } else if s.len() == 0 {
                    Eval::Next(st_push(st2, ItemV::Array(Seq::empty())))
                } else {
                    let kk = if k < 0 { s.len() as int } else { k };
                    Eval::Next(st_push(st2, ItemV::Array(chunks(s, kk))))
                }
            }
            (ItemV::Block(b), ItemV::Array(s)) => each_els(st2, b, s, fuel),
            (ItemV::Block(body), ItemV::Block(cond)) => {
                match unfold(st2, cond, body, Seq::empty(), fuel, UNFOLD_ROUNDS as nat) {
                    FunRes::Bad(s) => Eval::Halt(s),
                    FunRes::Good(s, acc) => Eval::Next(st_push(s, ItemV::Array(acc))),
                }
            }
            _ => Eval::Halt(st2),
        }
    }
}

/// `%`: remainder; split dropping empty parts; every n-th element;
/// `map`.
pub open spec fn step_modulo(st: StateV, fuel: nat) -> Eval
    decreases fuel, 2nat, 0nat,
{
    if st.stack.len() < 2 {
        Eval::Halt(pop2_err(st))
    } else {
        let y = top_of(st);
        let x = below_of(st);
        let st2 = st_pop2(st);
        match (y, x) {
            (ItemV::Num(a), ItemV::Num(b)) => {
                match (b as i64).checked_rem(a as i64) {
                    Some(q) => Eval::Next(st_push(st2, ItemV::Num(q as int))),
                    None => Eval::Halt(st2),
                }
            }
            (ItemV::Str(p), ItemV::Str(s)) => Eval::Next(
                st_push(st2, ItemV::Array(drop_empty_strs(split_chars(s, p)))),
            ),
            (ItemV::Num(k), ItemV::Array(s)) => {
                if k == 0 {
                    Eval::Halt(st2)
                } else {
                    let taken = stride(s, if k < 0 { -k } else { k });
                    Eval::Next(
                        st_push(
                            st2,
                            ItemV::Array(if k < 0 { taken.reverse() } else { taken }),
                        ),
                    )
                }
            }
            (ItemV::Block(b), ItemV::Array(s)) => {
                match map_els(st2, b, s, Seq::empty(), fuel) {
                    FunRes::Bad(s1) => Eval::Halt(s1),
                    FunRes::Good(s1, outs) => Eval::Next(st_push(s1, ItemV::Array(outs))),
                }
            }
            _ => Eval::Halt(st2),
        }
    }
}

/// `,`: the range `[0, n)`; the length of an array; `filter`.
pub open spec fn step_array(st: StateV, fuel: nat) -> Eval
    decreases fuel, 2nat, 0nat,
{
    if st.stack.len() < 1 {
        Eval::Halt(st)
    } else {
        let st1 = st_pop(st);
        match top_of(st) {
            ItemV::Num(n) => Eval::Next(
                st_push(
                    st1,
                    ItemV::Array(
                        Seq::new(if n < 0 { 0nat } else { n as nat }, |i: int| ItemV::Num(i)),
                    ),
                ),
            ),
            ItemV::Array(els) => {
                if els.len() <= i64::MAX {
                    Eval::Next(st_push(st1, ItemV::Num(els.len() as int)))
                } else {
                    Eval::Halt(st1)
                }
            }
            ItemV::Block(b) => {
                if st1.stack.len() == 0 {
                    Eval::Halt(st1)
                } else {
                    let v = st1.stack.last();
                    let st3 = st_pop(st1);
                    match v {
                        ItemV::Array(els) => {
                            match filter_els(st3, b, els, Seq::empty(), fuel) {
                                FunRes::Bad(s) => Eval::Halt(s),
                                FunRes::Good(s, kept) => Eval::Next(
                                    st_push(s, ItemV::Array(kept)),
                                ),
                            }
                        }
                        _ => Eval::Halt(st3),
                    }
                }
            }
            _ => Eval::Halt(st1),
        }
    }
}

/// `?`: power; index of a value in an array; `find`.
pub open spec fn step_qmark(st: StateV, fuel: nat) -> Eval
    decreases fuel, 2nat, 0nat,
{
    if st.stack.len() < 2 {
        Eval::Halt(pop2_err(st))
    } else {
        let y = top_of(st);
        let x = below_of(st);
        let st2 = st_pop2(st);
        match (y, x) {
            (ItemV::Num(e), ItemV::Num(b)) => {
                if e < 0 {
                    Eval::Halt(st2)
                } else {
                    let p = pow_int(b, e as nat);
                    if fits_i64(p) {
                        Eval::Next(st_push(st2, ItemV::Num(p)))
                    } else {
                        Eval::Halt(st2)
                    }
                }
            }
            (ItemV::Array(els), ItemV::Num(n)) => {
                let idx = find_eq_index(els, ItemV::Num(n), 0);
                if idx <= i64::MAX {
                    Eval::Next(st_push(st2, ItemV::Num(idx)))
                } else {
                    Eval::Halt(st2)
                }
            }
            (ItemV::Block(b), ItemV::Array(els)) => {
                match find_el(st2, b, els, fuel) {
                    FunRes::Bad(s) => Eval::Halt(s),
                    FunRes::Good(s, found) => {
                        if found.len() > 0 {
                            Eval::Next(st_push(s, found[0]))
                        } else {
                            Eval::Next(s)
                        }
                    }
                }
            }
            _ => Eval::Halt(st2),
        }
    }
}

/// `$`: copy the n-th value from the top; sort a string or array; sort
/// by a block's key.
pub open spec fn step_dollar(st: StateV, fuel: nat) -> Eval
    decreases fuel, 2nat, 0nat,
{
    if st.stack.len() < 1 {
        Eval::Halt(st)
    } else {
        let st1 = st_pop(st);
        match top_of(st) {
            ItemV::Num(n) => {
                if n < 0 || n >= st1.stack.len() {
                    Eval::Halt(st1)
                } else {
                    Eval::Next(st_push(st1, st1.stack[st1.stack.len() - 1 - n]))
                }
            }
            ItemV::Str(s) => Eval::Next(st_push(st1, ItemV::Str(sort_chars(s)))),
            ItemV::Array(els) => Eval::Next(st_push(st1, ItemV::Array(sort_items(els)))),
            ItemV::Block(b) => {
                if st1.stack.len() == 0 {
                    Eval::Halt(st1)
                } else {
                    let v = st1.stack.last();
                    let st3 = st_pop(st1);
                    match v {
                        ItemV::Array(els) => {
                            match sort_keys(st3, b, els, Seq::empty(), fuel) {
                                KeyRes::Bad(s) => Eval::Halt(s),
                                KeyRes::Good(s, pairs) => Eval::Next(
                                    st_push(s, ItemV::Array(snds(sort_pairs(pairs)))),
                                ),
                            }
                        }
                        ItemV::Str(sv) => {
                            match sort_keys(st3, b, chars_as_strs(sv), Seq::empty(), fuel) {
                                KeyRes::Bad(s) => Eval::Halt(s),
                                KeyRes::Good(s, pairs) => Eval::Next(
                                    st_push(s, ItemV::Str(pair_chars(sort_pairs(pairs)))),
                                ),
                            }
                        }
                        _ => Eval::Halt(st3),
                    }
                }
            }
            _ => Eval::Halt(st1),
        }
    }
}

/// `if`: pop the two branches, then the condition; a block branch is
/// run, any other branch is pushed.
pub open spec fn step_if(st: StateV, fuel: nat) -> Eval
    decreases fuel, 2nat, 0nat,
{
    if fuel == 0 {
        Eval::Halt(st)
    } else if st.stack.len() < 2 {
        Eval::Halt(pop2_err(st))
    } else {
        let els_ = top_of(st);
        let then_ = below_of(st);
        let st2 = st_pop2(st);
        if st2.stack.len() == 0 {
            Eval::Halt(st2)
        } else {
            let check = is_truthy(st2.stack.last());
            let st3 = st_pop(st2);
            if check && then_ is Block {
                spec_eval(st3, then_->Block_0, (fuel - 1) as nat)
            } else if !check && els_ is Block {
                spec_eval(st3, els_->Block_0, (fuel - 1) as nat)
            } else {
                Eval::Next(st_push(st3, if check { then_ } else { els_ }))
            }
        }
    }
}

/// `~`: bitwise not of an integer; splice an array onto the stack; run
/// a string through the lexer and evaluate it; run a block.
pub open spec fn step_neg(st: StateV, fuel: nat) -> Eval
    decreases fuel, 2nat, 0nat,
{
    if fuel == 0 {
        Eval::Halt(st)
    } else if st.stack.len() < 1 {
        Eval::Halt(st)
    } else {
        let st1 = st_pop(st);
        match top_of(st) {
            ItemV::Num(n) => Eval::Next(st_push(st1, ItemV::Num(-(n + 1)))),
            ItemV::Array(els) => Eval::Next(StateV { stack: st1.stack + els, ..st1 }),
            ItemV::Str(s) => {
                match spec_lex(s) {
                    None => Eval::Halt(st1),
                    Some(toks) => spec_eval(st1, toks, (fuel - 1) as nat),
                }
            }
            ItemV::Block(b) => spec_eval(st1, b, (fuel - 1) as nat),
            _ => Eval::Halt(st1),
        }
    }
}

/// A defined name: a block value is evaluated, any other value is
/// pushed.
pub open spec fn step_execvar(st: StateV, name: Seq<char>, fuel: nat) -> Eval
    decreases fuel, 2nat, 0nat,
{
    if fuel == 0 {
        Eval::Halt(st)
    } else if !st.vars.contains_key(name) {
        Eval::Halt(st)
    } else {
        match st.vars[name] {
            ItemV::Block(b) => spec_eval(st, b, (fuel - 1) as nat),
            _ => Eval::Next(st_push(st, st.vars[name])),
        }
    }
}

/// Dispatch of one token: literals are pushed; an assignment binds;
/// a name resolves to a binding, an operator or a named built-in, in
/// that order; an unknown name or a non-token value fails.
pub open spec fn step_token(st: StateV, tok: ItemV, fuel: nat) -> Eval
    decreases fuel, 3nat, 0nat,
{
    match tok {
        ItemV::Num(_) => Eval::Next(st_push(st, tok)),
        ItemV::Str(_) => Eval::Next(st_push(st, tok)),
        ItemV::Block(_) => Eval::Next(st_push(st, tok)),
        ItemV::Assign(name) => step_assign(st, name),
        ItemV::Var(name) => {
            if st.vars.contains_key(name) {
                step_execvar(st, name, fuel)
            } else if name == "+"@ {
                step_add(st)
            } else if name == "-"@ {
                step_sub(st)
            } else if name == "!"@ {
                step_not(st)
            } else if name == "@"@ {
                step_at(st)
            } else if name == "$"@ {
                step_dollar(st, fuel)
            } else if name == "*"@ {
                step_mul(st, fuel)
            } else if name == "/"@ {
                step_div(st, fuel)
            } else if name == "%"@ {
                step_modulo(st, fuel)
            } else if name == "|"@ {
                step_or(st)
            } else if name == "&"@ {
                step_and(st)
            } else if name == "^"@ {
                step_xor(st)
            } else if name == "\\"@ {
                step_swap(st)
            } else if name == ";"@ {
                step_drop(st)
            } else if name == "<"@ {
                step_lt(st)
            } else if name == ">"@ {
                step_gt(st)
            } else if name == "="@ {
                step_eq(st)
            } else if name == "."@ {
                step_dup(st)
            } else if name == "?"@ {
                step_qmark(st, fuel)
            } else if name == "("@ {
                step_dec(st)
            } else if name == ")"@ {
                step_inc(st)
            } else if name == "["@ {
                step_marker(st)
            } else if name == "]"@ {
                step_slice(st)
            } else if name == "~"@ {
                step_neg(st, fuel)
            } else if name == "`"@ {
                step_backtick(st)
            } else if name == ","@ {
                step_array(st, fuel)
            } else if name == "abs"@ {
                step_abs(st)
            } else if name == "if"@ {
                step_if(st, fuel)
            } else if name == "rand"@ {
                step_rand(st)
            } else if name == "print"@ {
                step_print(st)
            } else {
                Eval::Halt(st)
            }
        }
        _ => Eval::Halt(st),
    }
}

/// Evaluate a token sequence, strictly in order. `fuel` bounds the
/// depth of nested block evaluation; running out of it is a failure.
pub open spec fn spec_eval(st: StateV, toks: Seq<ItemV>, fuel: nat) -> Eval
    decreases fuel, 4nat, toks.len(),
{
    if fuel == 0 {
        Eval::Halt(st)
    } else if toks.len() == 0 {
        Eval::Next(st)
    } else {
        match step_token(st, toks[0], fuel) {
            Eval::Halt(s) => Eval::Halt(s),
            Eval::Next(s) => spec_eval(s, toks.drop_first(), fuel),
        }
    }
}

/// The bindings every interpreter starts with.
pub open spec fn default_env() -> Map<Seq<char>, ItemV> {
    Map::empty()
        .insert("and"@, ItemV::Block(seq![ItemV::Num(1), ItemV::Var("$"@), ItemV::Var("if"@)]))
        .insert(
            "or"@,
            ItemV::Block(
                seq![ItemV::Num(1), ItemV::Var("$"@), ItemV::Var("\\"@), ItemV::Var("if"@)],
            ),
        )
        .insert(
            "xor"@,
            ItemV::Block(
                seq![
                    ItemV::Var("\\"@),
                    ItemV::Var("!"@),
                    ItemV::Var("!"@),
                    ItemV::Block(seq![ItemV::Var("!"@)]),
                    ItemV::Var("*"@),
                ],
            ),
        )
        .insert("n"@, ItemV::Str("\n"@))
        .insert(
            "puts"@,
            ItemV::Block(seq![ItemV::Var("print"@), ItemV::Var("n"@), ItemV::Var("print"@)]),
        )
        .insert("p"@, ItemV::Block(seq![ItemV::Var("`"@), ItemV::Var("puts"@)]))
}

} // verus!

verus! {

use crate::items::GSError;
use crate::items::views_of;

/// How an evaluation outcome shows up in executable code: the state
/// agrees, and a failure is a `Runtime` error.
pub open spec fn eval_matches(e: Eval, st: StateV, r: Result<(), GSError>) -> bool {
    match e {
        Eval::Next(s) => st == s && r is Ok,
        Eval::Halt(s) => st == s && (r matches Err(ge) && ge is Runtime),
    }
}

/// How a block-call outcome shows up in executable code.
pub open spec fn fun_matches(f: FunRes, st: StateV, r: Result<Vec<Item>, GSError>) -> bool {
    match f {
        FunRes::Good(s, outs) => st == s && (r matches Ok(v) && views_of(v@) == outs),
        FunRes::Bad(s) => st == s && (r matches Err(ge) && ge is Runtime),
    }
}

} // verus!

verus! {

/// The views of a sequence of keyed pairs.
pub open spec fn pair_views(s: Seq<(Item, Item)>) -> Seq<(ItemV, ItemV)> {
    s.map_values(|p: (Item, Item)| (p.0@, p.1@))
}

/// The absolute value.
pub open spec fn abs_int(x: int) -> int {
    if x < 0 {
        -x
    } else {
        x
    }
}

pub proof fn lemma_pow_zero(e: nat)
    ensures
        pow_int(0, e) == if e == 0 { 1int } else { 0int },
    decreases e,
{
    if e > 0 {
        lemma_pow_zero((e - 1) as nat);
    }
}

pub proof fn lemma_pow_one(e: nat)
    ensures
        pow_int(1, e) == 1,
    decreases e,
{
    if e > 0 {
        lemma_pow_one((e - 1) as nat);
    }
}

pub proof fn lemma_pow_neg_one(e: nat)
    ensures
        pow_int(-1, e) == if e % 2 == 0 { 1int } else { -1int },
    decreases e,
{
    if e > 0 {
        lemma_pow_neg_one((e - 1) as nat);
    }
}

/// With a base of magnitude at least two, the magnitude of a power
/// never shrinks as the exponent grows, and it at least doubles with
/// every further step.
pub proof fn lemma_pow_mag(b: int, j: nat, e: nat)
    requires
        b <= -2 || b >= 2,
        j <= e,
    ensures
        abs_int(pow_int(b, e)) >= abs_int(pow_int(b, j)),
        j < e ==> abs_int(pow_int(b, e)) >= 2 * abs_int(pow_int(b, j)),
        abs_int(pow_int(b, j)) >= 1,
    decreases e,
{
    if j == e {
        lemma_pow_mag_pos(b, j);
    } else {
        lemma_pow_mag(b, j, (e - 1) as nat);
        let p = pow_int(b, (e - 1) as nat);
        assert(pow_int(b, e) == b * p);
        assert(abs_int(b * p) >= 2 * abs_int(p)) by (nonlinear_arith)
            requires
                b <= -2 || b >= 2,
        ;
    }
}

pub proof fn lemma_pow_mag_pos(b: int, j: nat)
    requires
        b <= -2 || b >= 2,
    ensures
        abs_int(pow_int(b, j)) >= 1,
    decreases j,
{
    if j > 0 {
        lemma_pow_mag_pos(b, (j - 1) as nat);
        let p = pow_int(b, (j - 1) as nat);
        assert(abs_int(b * p) >= 2 * abs_int(p)) by (nonlinear_arith)
            requires
                b <= -2 || b >= 2,
        ;
    }
}

} // verus!

verus! {

/// How a key-computation outcome shows up in executable code.
pub open spec fn key_matches(k: KeyRes, st: StateV, r: Result<Vec<(Item, Item)>, GSError>) -> bool {
    match k {
        KeyRes::Good(s, ps) => st == s && (r matches Ok(v) && pair_views(v@) == ps),
        KeyRes::Bad(s) => st == s && (r matches Err(e) && e is Runtime),
    }
}

/// The value side of a keyed pair is a one-character string.
pub open spec fn snd_is_char(p: (ItemV, ItemV)) -> bool {
    match p.1 {
        ItemV::Str(cs) => cs.len() == 1,
        _ => false,
    }
}

/// The keys step leaves the elements, in order, on the value side of
/// the pairs.
pub proof fn lemma_sort_keys_snds(
    st: StateV,
    blk: Seq<ItemV>,
    els: Seq<ItemV>,
    acc: Seq<(ItemV, ItemV)>,
    fuel: nat,
)
    ensures
        sort_keys(st, blk, els, acc, fuel) matches KeyRes::Good(s, ps) ==> snds(ps) == snds(acc)
            + els,
    decreases fuel, els.len(),
{
    if fuel == 0 {
    } else if els.len() == 0 {
        assert(snds(acc) + els =~= snds(acc));
    } else {
        match fun_call_v(st_push(st, els[0]), blk, fuel) {
            FunRes::Bad(_) => {}
            FunRes::Good(s, outs) => {
                if outs.len() > 0 {
                    let acc2 = acc.push((outs.last(), els[0]));
                    lemma_sort_keys_snds(s, blk, els.drop_first(), acc2, fuel);
                    match sort_keys(s, blk, els.drop_first(), acc2, fuel) {
                        KeyRes::Good(_, ps) => {
                            assert(snds(acc2) =~= snds(acc).push(els[0]));
                            assert(snds(acc).push(els[0]) + els.drop_first() =~= snds(acc) + els);
                        }
                        KeyRes::Bad(_) => {}
                    }
                }
            }
        }
    }
}

/// Inserting a pair whose value side is a one-character string into a
/// run of such pairs keeps the property.
pub proof fn lemma_insert_pair_snd_char(x: (ItemV, ItemV), s: Seq<(ItemV, ItemV)>)
    requires
        snd_is_char(x),
        forall|l: int| 0 <= l < s.len() ==> snd_is_char(#[trigger] s[l]),
    ensures
        forall|l: int| 0 <= l < insert_sorted_pair(x, s).len() ==> snd_is_char(
            #[trigger] insert_sorted_pair(x, s)[l],
        ),
        insert_sorted_pair(x, s).len() == s.len() + 1,
    decreases s.len(),
{
    if s.len() == 0 {
    } else if cmp_vals(s.last().0, x.0) <= 0 {
    } else {
        lemma_insert_pair_snd_char(x, s.drop_last());
    }
}

/// Sorting pairs keeps the one-character property of the value sides.
pub proof fn lemma_sort_pairs_snd_char(s: Seq<(ItemV, ItemV)>)
    requires
        forall|l: int| 0 <= l < s.len() ==> snd_is_char(#[trigger] s[l]),
    ensures
        forall|l: int| 0 <= l < sort_pairs(s).len() ==> snd_is_char(#[trigger] sort_pairs(s)[l]),
        sort_pairs(s).len() == s.len(),
    decreases s.len(),
{
    if s.len() > 0 {
        lemma_sort_pairs_snd_char(s.drop_last());
        lemma_insert_pair_snd_char(s.last(), sort_pairs(s.drop_last()));
    }
}

} // verus!
