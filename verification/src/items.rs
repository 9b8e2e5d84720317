use vstd::prelude::*;

verus! {

/// An error of the interpreter: `Parse` from the lexer, `Runtime` from
/// the evaluator.
#[derive(Debug, PartialEq, Eq)]
pub enum GSError {
    Parse(String),
    Runtime(String),
}

/// An `Item` is a value of the language. `Num`, `Str`, `Array` and
/// `Block` can live on the stack; `Var` and `Assign` appear only in
/// token streams produced by the lexer.
#[derive(Debug, PartialEq, Eq, Hash)]
pub enum Item {
    Var(Vec<char>),
    Assign(Vec<char>),
    Num(i64),
    Str(Vec<char>),
    Array(Vec<Item>),
    Block(Vec<Item>),
}

/// The mathematical shape of an `Item`: unbounded integers and
/// sequences, so that equality of views is extensional.
#[verifier::ext_equal]
pub enum ItemV {
    Var(Seq<char>),
    Assign(Seq<char>),
    Num(int),
    Str(Seq<char>),
    Array(Seq<ItemV>),
    Block(Seq<ItemV>),
}

impl Item {
    pub open spec fn view(self) -> ItemV
        decreases self,
    {
        match self {
            Item::Var(s) => ItemV::Var(s@),
            Item::Assign(s) => ItemV::Assign(s@),
            Item::Num(n) => ItemV::Num(n as int),
            Item::Str(s) => ItemV::Str(s@),
            Item::Array(v) => ItemV::Array(views_of(v@)),
            Item::Block(v) => ItemV::Block(views_of(v@)),
        }
    }
}

/// The views of a sequence of items, element by element.
pub open spec fn views_of(s: Seq<Item>) -> Seq<ItemV>
    decreases s,
{
    if s.len() == 0 {
        Seq::empty()
    } else {
        views_of(s.drop_last()).push(s.last()@)
    }
}

pub proof fn lemma_views_of(s: Seq<Item>)
    ensures
        views_of(s).len() == s.len(),
        forall|i: int| 0 <= i < s.len() ==> #[trigger] views_of(s)[i] == s[i]@,
    decreases s.len(),
{
    if s.len() > 0 {
        lemma_views_of(s.drop_last());
    }
}

pub proof fn lemma_views_of_push(s: Seq<Item>, x: Item)
    ensures
        views_of(s.push(x)) == views_of(s).push(x@),
{
    assert(s.push(x).drop_last() =~= s);
}

/// Truthiness: zero, the empty string and the empty array or block are
/// the false values; everything else is true.
pub open spec fn is_truthy(v: ItemV) -> bool {
    match v {
        ItemV::Num(n) => n != 0,
        ItemV::Str(s) => s.len() > 0,
        ItemV::Array(s) => s.len() > 0,
        ItemV::Block(s) => s.len() > 0,
        _ => false,
    }
}

impl Item {
    /// True when the value counts as true in conditions.
    pub fn is_true(&self) -> (r: bool)
        ensures
            r == is_truthy(self@),
    {
        match self {
            Item::Num(x) => *x != 0,
            Item::Str(x) => x.len() > 0,
            Item::Array(x) => {
                proof { lemma_views_of(x@); }
                x.len() > 0
            }
            Item::Block(x) => {
                proof { lemma_views_of(x@); }
                x.len() > 0
            }
            _ => false,
        }
    }
}

pub fn clone_chars(v: &Vec<char>) -> (r: Vec<char>)
    ensures
        r@ == v@,
{
    let mut t: Vec<char> = Vec::new();
    let mut i: usize = 0;
    while i < v.len()
        invariant
            i <= v.len(),
            t@ == v@.take(i as int),
        decreases v.len() - i,
    {
        t.push(v[i]);
        assert(t@ =~= v@.take(i + 1));
        i = i + 1;
    }
    assert(t@ =~= v@);
    t
}

/// A structural copy of an item; the copy has the same view.
pub fn clone_item(x: &Item) -> (r: Item)
    ensures
        r@ == x@,
    decreases *x,
{
    match x {
        Item::Var(s) => Item::Var(clone_chars(s)),
        Item::Assign(s) => Item::Assign(clone_chars(s)),
        Item::Num(n) => Item::Num(*n),
        Item::Str(s) => Item::Str(clone_chars(s)),
        Item::Array(v) => Item::Array(clone_items_rec(x, v)),
        Item::Block(v) => Item::Block(clone_items_rec(x, v)),
    }
}

fn clone_items_rec(parent: &Item, v: &Vec<Item>) -> (r: Vec<Item>)
    requires
        decreases_to!(*parent => *v),
    ensures
        views_of(r@) == views_of(v@),
    decreases *parent, 0nat,
{
    let mut t: Vec<Item> = Vec::new();
    let mut i: usize = 0;
    proof { lemma_views_of(v@); }
    while i < v.len()
        invariant
            i <= v.len(),
            decreases_to!(*parent => *v),
            views_of(t@) == views_of(v@.take(i as int)),
        decreases v.len() - i,
    {
        proof {
            assert(decreases_to!(*v => v@[i as int]));
            assert(decreases_to!(*parent => v@[i as int]));
        }
        let c = clone_item(&v[i]);
        proof {
            lemma_views_of_push(t@, c);
            lemma_views_of_push(v@.take(i as int), v@[i as int]);
            assert(v@.take(i as int).push(v@[i as int]) =~= v@.take(i + 1));
        }
        t.push(c);
        i = i + 1;
    }
    assert(v@.take(v@.len() as int) =~= v@);
    t
}

pub fn clone_items(v: &Vec<Item>) -> (r: Vec<Item>)
    ensures
        views_of(r@) == views_of(v@),
{
    let mut t: Vec<Item> = Vec::new();
    let mut i: usize = 0;
    while i < v.len()
        invariant
            i <= v.len(),
            views_of(t@) == views_of(v@.take(i as int)),
        decreases v.len() - i,
    {
        let c = clone_item(&v[i]);
        proof {
            lemma_views_of(v@);
            lemma_views_of_push(t@, c);
            lemma_views_of_push(v@.take(i as int), v@[i as int]);
            assert(v@.take(i as int).push(v@[i as int]) =~= v@.take(i + 1));
        }
        t.push(c);
        i = i + 1;
    }
    assert(v@.take(v@.len() as int) =~= v@);
    t
}

pub fn eq_chars(a: &Vec<char>, b: &Vec<char>) -> (r: bool)
    ensures
        r == (a@ == b@),
{
    if a.len() != b.len() {
        return false;
    }
    let mut i: usize = 0;
    while i < a.len()
        invariant
            i <= a.len(),
            a@.len() == b@.len(),
            forall|j: int| 0 <= j < i ==> a@[j] == b@[j],
        decreases a.len() - i,
    {
        if a[i] != b[i] {
            return false;
        }
        i = i + 1;
    }
    assert(a@ =~= b@);
    true
}

/// Structural equality of two items: same kind, and equal contents.
pub fn item_eq(a: &Item, b: &Item) -> (r: bool)
    ensures
        r == (a@ == b@),
    decreases *a,
{
    match (a, b) {
        (Item::Num(x), Item::Num(y)) => *x == *y,
        (Item::Str(x), Item::Str(y)) => eq_chars(x, y),
        (Item::Var(x), Item::Var(y)) => eq_chars(x, y),
        (Item::Assign(x), Item::Assign(y)) => eq_chars(x, y),
        (Item::Array(x), Item::Array(y)) => eq_item_vecs(a, x, y),
        (Item::Block(x), Item::Block(y)) => eq_item_vecs(a, x, y),
        _ => {
            assert(a@ != b@);
            false
        }
    }
}

fn eq_item_vecs(parent: &Item, x: &Vec<Item>, y: &Vec<Item>) -> (r: bool)
    requires
        decreases_to!(*parent => *x),
    ensures
        r == (views_of(x@) == views_of(y@)),
    decreases *parent, 0nat,
{
    proof {
        lemma_views_of(x@);
        lemma_views_of(y@);
    }
    if x.len() != y.len() {
        return false;
    }
    let mut i: usize = 0;
    while i < x.len()
        invariant
            i <= x.len(),
            x@.len() == y@.len(),
            decreases_to!(*parent => *x),
            forall|j: int| 0 <= j < i ==> #[trigger] views_of(x@)[j] == views_of(y@)[j],
        decreases x.len() - i,
    {
        proof {
            assert(decreases_to!(*x => x@[i as int]));
            assert(decreases_to!(*parent => x@[i as int]));
            lemma_views_of(x@);
            lemma_views_of(y@);
        }
        if !item_eq(&x[i], &y[i]) {
            proof {
                assert(views_of(x@)[i as int] == x@[i as int]@);
                assert(views_of(y@)[i as int] == y@[i as int]@);
                assert(views_of(x@)[i as int] != views_of(y@)[i as int]);
            }
            return false;
        }
        i = i + 1;
    }
    proof {
        lemma_views_of(x@);
        lemma_views_of(y@);
        assert(views_of(x@) =~= views_of(y@));
    }
    true
}

/// True when the sequence holds an item with the given view.
pub open spec fn seq_has(s: Seq<ItemV>, x: ItemV) -> bool {
    exists|i: int| 0 <= i < s.len() && s[i] == x
}

pub fn contains_item(v: &Vec<Item>, x: &Item) -> (r: bool)
    ensures
        r == seq_has(views_of(v@), x@),
{
    proof { lemma_views_of(v@); }
    let mut i: usize = 0;
    while i < v.len()
        invariant
            i <= v.len(),
            forall|j: int| 0 <= j < i ==> #[trigger] views_of(v@)[j] != x@,
        decreases v.len() - i,
    {
        proof { lemma_views_of(v@); }
        if item_eq(&v[i], x) {
            proof {
                assert(views_of(v@)[i as int] == x@);
            }
            return true;
        }
        i = i + 1;
    }
    proof {
        lemma_views_of(v@);
        assert forall|j: int| 0 <= j < views_of(v@).len() implies views_of(v@)[j] != x@ by {
            assert(views_of(v@)[j] == v@[j]@);
        }
    }
    false
}

} // verus!

verus! {

// ---------------------------------------------------------------------
// Decimal representation of integers
// ---------------------------------------------------------------------

/// The character for a single decimal digit.
pub open spec fn digit_char(d: int) -> char {
    (d + 48) as char
}

/// Decimal digits of a non-negative integer, most significant first.
pub open spec fn dec_digits(n: int) -> Seq<char>
    decreases n,
{
    if n < 10 {
        seq![digit_char(n)]
    } else {
        dec_digits(n / 10).push(digit_char(n % 10))
    }
}

/// The decimal text of an integer, with a leading `-` when negative.
pub open spec fn dec_chars(n: int) -> Seq<char> {
    if n < 0 {
        seq!['-'] + dec_digits(-n)
    } else {
        dec_digits(n)
    }
}

fn push_dec_u64(u: u64, out: &mut Vec<char>)
    ensures
        final(out)@ == old(out)@ + dec_digits(u as int),
    decreases u,
{
    if u < 10 {
        let c: char = ((u as u8) + 48) as char;
        out.push(c);
        assert(out@ =~= old(out)@ + dec_digits(u as int));
    } else {
        push_dec_u64(u / 10, out);
        let c: char = (((u % 10) as u8) + 48) as char;
        out.push(c);
        assert(out@ =~= old(out)@ + dec_digits(u as int));
    }
}

/// The decimal text of a 64-bit integer as characters.
pub fn i64_dec_chars(n: i64) -> (r: Vec<char>)
    ensures
        r@ == dec_chars(n as int),
{
    let mut out: Vec<char> = Vec::new();
    if n < 0 {
        out.push('-');
        let mag: u64 = if n == i64::MIN {
            9223372036854775808u64
        } else {
            (-n) as u64
        };
        push_dec_u64(mag, &mut out);
        assert(out@ =~= dec_chars(n as int));
    } else {
        push_dec_u64(n as u64, &mut out);
        assert(out@ =~= dec_chars(n as int));
    }
    out
}

// ---------------------------------------------------------------------
// The total order used for sorting
// ---------------------------------------------------------------------

/// Three-way comparison of integers: -1, 0 or 1.
pub open spec fn cmp_ints(a: int, b: int) -> int {
    if a < b {
        -1
    } else if a == b {
        0
    } else {
        1
    }
}

/// Lexicographic three-way comparison of character sequences by code
/// point.
pub open spec fn cmp_chars(a: Seq<char>, b: Seq<char>) -> int
    decreases a.len(),
{
    if a.len() == 0 && b.len() == 0 {
        0
    } else if a.len() == 0 {
        -1
    } else if b.len() == 0 {
        1
    } else if (a[0] as u32) < (b[0] as u32) {
        -1
    } else if (a[0] as u32) > (b[0] as u32) {
        1
    } else {
        cmp_chars(a.drop_first(), b.drop_first())
    }
}

/// The total order over values: integers numerically, strings
/// lexicographically, an integer against a string by its decimal text;
/// every other pairing compares as equal.
pub open spec fn cmp_vals(a: ItemV, b: ItemV) -> int {
    match (a, b) {
        (ItemV::Num(x), ItemV::Str(s)) => cmp_chars(dec_chars(x), s),
        (ItemV::Str(s), ItemV::Num(y)) => cmp_chars(s, dec_chars(y)),
        (ItemV::Num(x), ItemV::Num(y)) => cmp_ints(x, y),
        (ItemV::Str(x), ItemV::Str(y)) => cmp_chars(x, y),
        _ => 0,
    }
}

pub fn cmp_chars_exec(a: &Vec<char>, b: &Vec<char>) -> (r: i8)
    ensures
        r as int == cmp_chars(a@, b@),
{
    let mut i: usize = 0;
    proof {
        assert(a@.skip(0) =~= a@);
        assert(b@.skip(0) =~= b@);
    }
    while i < a.len() && i < b.len()
        invariant
            i <= a.len(),
            i <= b.len(),
            cmp_chars(a@, b@) == cmp_chars(a@.skip(i as int), b@.skip(i as int)),
        decreases a.len() - i,
    {
        let x = a[i] as u32;
        let y = b[i] as u32;
        if x < y {
            return -1;
        }
        if x > y {
            return 1;
        }
        proof {
            assert(a@.skip(i as int).drop_first() =~= a@.skip(i + 1));
            assert(b@.skip(i as int).drop_first() =~= b@.skip(i + 1));
        }
        i = i + 1;
    }
    if a.len() == b.len() {
        0
    } else if a.len() < b.len() {
        -1
    } else {
        1
    }
}

/// Three-way comparison of two items under the total order.
pub fn item_cmp(a: &Item, b: &Item) -> (r: i8)
    ensures
        r as int == cmp_vals(a@, b@),
{
    match (a, b) {
        (Item::Num(x), Item::Num(y)) => {
            if *x < *y {
                -1
            } else if *x == *y {
                0
            } else {
                1
            }
        }
        (Item::Str(x), Item::Str(y)) => cmp_chars_exec(x, y),
        (Item::Num(x), Item::Str(y)) => {
            let xs = i64_dec_chars(*x);
            cmp_chars_exec(&xs, y)
        }
        (Item::Str(x), Item::Num(y)) => {
            let ys = i64_dec_chars(*y);
            cmp_chars_exec(x, &ys)
        }
        _ => 0,
    }
}

} // verus!

verus! {

// ---------------------------------------------------------------------
// Upcasts (the coercion lattice Int < Arr < Str < Blk)
// ---------------------------------------------------------------------

/// A code point that `char` can hold: a Unicode scalar value.
pub open spec fn valid_code(n: int) -> bool {
    0 <= n <= 0x10FFFF && !(0xD800 <= n < 0xE000)
}

/// Relies on char::from_u32: it returns `Some` exactly on Unicode
/// scalar values, the `char` with that code.
#[verifier::external_body]
fn char_from_code(n: u32) -> (r: char)
    requires
        valid_code(n as int),
    ensures
        r == (n as int as char),
{
    char::from_u32(n).unwrap()
}

/// Whether a value can contribute to a string upcast as an element of
/// an array: an integer must be a Unicode scalar value; a nested array
/// is checked elementwise; blocks and token forms cannot.
pub open spec fn flat_ok(v: ItemV) -> bool
    decreases v, 1nat,
{
    match v {
        ItemV::Num(n) => valid_code(n),
        ItemV::Str(_) => true,
        ItemV::Array(els) => flat_list_ok(els),
        _ => false,
    }
}

pub open spec fn flat_list_ok(els: Seq<ItemV>) -> bool
    decreases els, 0nat,
{
    if els.len() == 0 {
        true
    } else {
        flat_list_ok(els.drop_last()) && flat_ok(els.last())
    }
}

/// The characters a value contributes to a string upcast when it is an
/// element of an array: an integer becomes the character with that
/// code, a string keeps its text, a nested array flattens.
pub open spec fn flat_chars(v: ItemV) -> Seq<char>
    decreases v, 1nat,
{
    match v {
        ItemV::Num(n) => seq![n as char],
        ItemV::Str(s) => s,
        ItemV::Array(els) => flat_list_chars(els),
        _ => Seq::empty(),
    }
}

pub open spec fn flat_list_chars(els: Seq<ItemV>) -> Seq<char>
    decreases els, 0nat,
{
    if els.len() == 0 {
        Seq::empty()
    } else {
        flat_list_chars(els.drop_last()) + flat_chars(els.last())
    }
}

/// Whether the string upcast is defined on a value.
pub open spec fn upcast_str_ok(v: ItemV) -> bool {
    match v {
        ItemV::Num(_) => true,
        ItemV::Str(_) => true,
        ItemV::Array(els) => flat_list_ok(els),
        _ => false,
    }
}

/// The string upcast: an integer becomes its decimal text, a string
/// stays itself, an array concatenates what its elements contribute.
pub open spec fn upcast_str(v: ItemV) -> ItemV {
    match v {
        ItemV::Num(n) => ItemV::Str(dec_chars(n)),
        ItemV::Str(_) => v,
        ItemV::Array(els) => ItemV::Str(flat_list_chars(els)),
        _ => v,
    }
}

/// Whether the array upcast is defined on a value.
pub open spec fn upcast_arr_ok(v: ItemV) -> bool {
    v is Num || v is Array
}

/// The array upcast: an integer becomes a one-element array, an array
/// stays itself.
pub open spec fn upcast_arr(v: ItemV) -> ItemV {
    match v {
        ItemV::Num(_) => ItemV::Array(seq![v]),
        _ => v,
    }
}

/// Whether the block upcast is defined on a value.
pub open spec fn upcast_blk_ok(v: ItemV) -> bool
    decreases v, 1nat,
{
    match v {
        ItemV::Num(_) => true,
        ItemV::Str(_) => true,
        ItemV::Block(_) => true,
        ItemV::Array(els) => blk_list_ok(els),
        _ => false,
    }
}

pub open spec fn blk_list_ok(els: Seq<ItemV>) -> bool
    decreases els, 0nat,
{
    if els.len() == 0 {
        true
    } else {
        blk_list_ok(els.drop_last()) && upcast_blk_ok(els.last())
    }
}

/// The tokens a value contributes to a block upcast: an integer or a
/// string is one token, a block is spliced, an array concatenates what
/// its elements contribute.
pub open spec fn blk_flat(v: ItemV) -> Seq<ItemV>
    decreases v, 1nat,
{
    match v {
        ItemV::Num(_) => seq![v],
        ItemV::Str(_) => seq![v],
        ItemV::Block(b) => b,
        ItemV::Array(els) => blk_list_flat(els),
        _ => Seq::empty(),
    }
}

pub open spec fn blk_list_flat(els: Seq<ItemV>) -> Seq<ItemV>
    decreases els, 0nat,
{
    if els.len() == 0 {
        Seq::empty()
    } else {
        blk_list_flat(els.drop_last()) + blk_flat(els.last())
    }
}

/// The block upcast.
pub open spec fn upcast_blk(v: ItemV) -> ItemV {
    ItemV::Block(blk_flat(v))
}

impl Item {
    /// Whether the string upcast is defined on this value.
    pub fn upcast_str_defined(&self) -> (r: bool)
        ensures
            r == upcast_str_ok(self@),
    {
        match self {
            Item::Num(_) => true,
            Item::Str(_) => true,
            Item::Array(v) => flat_list_ok_exec(self, v),
            _ => false,
        }
    }

    /// Whether the block upcast is defined on this value.
    pub fn upcast_blk_defined(&self) -> (r: bool)
        ensures
            r == upcast_blk_ok(self@),
    {
        match self {
            Item::Num(_) => true,
            Item::Str(_) => true,
            Item::Block(_) => true,
            Item::Array(v) => blk_list_ok_exec(self, v),
            _ => false,
        }
    }

    /// Whether the array upcast is defined on this value.
    pub fn upcast_arr_defined(&self) -> (r: bool)
        ensures
            r == upcast_arr_ok(self@),
    {
        match self {
            Item::Num(_) => true,
            Item::Array(_) => true,
            _ => false,
        }
    }

    /// Upcast to an array: an integer becomes a one-element array.
    pub fn upcast_to_array(self) -> (r: Item)
        requires
            upcast_arr_ok(self@),
        ensures
            r@ == upcast_arr(self@),
    {
        match self {
            Item::Num(n) => {
                let mut v: Vec<Item> = Vec::new();
                v.push(Item::Num(n));
                proof {
                    lemma_views_of(v@);
                    assert(views_of(v@).len() == 1);
                    assert(views_of(v@)[0] == Item::Num(n)@);
                    assert(views_of(v@) =~= seq![ItemV::Num(n as int)]);
                }
                let r = Item::Array(v);
                proof {
                    assert(r@ =~= upcast_arr(self@));
                }
                r
            }
            x => x,
        }
    }

    /// Upcast to a string: an integer becomes its decimal text, an
    /// array flattens to the characters its elements stand for.
    pub fn upcast_to_string(self) -> (r: Item)
        requires
            upcast_str_ok(self@),
        ensures
            r@ == upcast_str(self@),
    {
        match self {
            Item::Num(n) => Item::Str(i64_dec_chars(n)),
            Item::Array(v) => {
                let mut out: Vec<char> = Vec::new();
                let x = Item::Array(v);
                if let Item::Array(v) = &x {
                    push_flat_list(&x, v, &mut out);
                }
                Item::Str(out)
            }
            x => x,
        }
    }

    /// Upcast to a block: integers and strings become one-token blocks,
    /// arrays splice what their elements stand for, blocks stay.
    pub fn upcast_to_block(self) -> (r: Item)
        requires
            upcast_blk_ok(self@),
        ensures
            r@ == upcast_blk(self@),
    {
        let mut out: Vec<Item> = Vec::new();
        push_blk_flat(&self, &mut out);
        let r = Item::Block(out);
        proof {
            assert(r@ =~= upcast_blk(self@));
        }
        r
    }
}

fn flat_list_ok_exec(parent: &Item, v: &Vec<Item>) -> (r: bool)
    requires
        decreases_to!(*parent => *v),
    ensures
        r == flat_list_ok(views_of(v@)),
    decreases *parent, 0nat,
{
    let mut i: usize = 0;
    proof {
        assert(views_of(v@.take(0)) =~= views_of(Seq::<Item>::empty()));
    }
    while i < v.len()
        invariant
            i <= v.len(),
            decreases_to!(*parent => *v),
            flat_list_ok(views_of(v@.take(i as int))),
        decreases v.len() - i,
    {
        proof {
            assert(decreases_to!(*v => v@[i as int]));
            assert(decreases_to!(*parent => v@[i as int]));
        }
        let ok = flat_ok_exec(&v[i]);
        proof {
            lemma_views_of(v@);
            lemma_views_of_push(v@.take(i as int), v@[i as int]);
            assert(v@.take(i as int).push(v@[i as int]) =~= v@.take(i + 1));
            assert(views_of(v@.take(i + 1)).drop_last() =~= views_of(v@.take(i as int)));
        }
        if !ok {
            proof {
                lemma_flat_list_not_ok(views_of(v@), i as int);
            }
            return false;
        }
        i = i + 1;
    }
    assert(v@.take(v@.len() as int) =~= v@);
    true
}

/// If one element is bad, the whole list is bad.
proof fn lemma_flat_list_not_ok(els: Seq<ItemV>, i: int)
    requires
        0 <= i < els.len(),
        !flat_ok(els[i]),
    ensures
        !flat_list_ok(els),
    decreases els.len(),
{
    if i == els.len() - 1 {
    } else {
        lemma_flat_list_not_ok(els.drop_last(), i);
    }
}

fn flat_ok_exec(x: &Item) -> (r: bool)
    ensures
        r == flat_ok(x@),
    decreases *x, 1nat,
{
    match x {
        Item::Num(n) => {
            0 <= *n && *n <= 0x10FFFF && !(0xD800 <= *n && *n < 0xE000)
        }
        Item::Str(_) => true,
        Item::Array(v) => flat_list_ok_exec(x, v),
        _ => false,
    }
}

fn blk_list_ok_exec(parent: &Item, v: &Vec<Item>) -> (r: bool)
    requires
        decreases_to!(*parent => *v),
    ensures
        r == blk_list_ok(views_of(v@)),
    decreases *parent, 0nat,
{
    let mut i: usize = 0;
    proof {
        assert(views_of(v@.take(0)) =~= views_of(Seq::<Item>::empty()));
    }
    while i < v.len()
        invariant
            i <= v.len(),
            decreases_to!(*parent => *v),
            blk_list_ok(views_of(v@.take(i as int))),
        decreases v.len() - i,
    {
        proof {
            assert(decreases_to!(*v => v@[i as int]));
            assert(decreases_to!(*parent => v@[i as int]));
        }
        let ok = blk_ok_exec(&v[i]);
        proof {
            lemma_views_of(v@);
            lemma_views_of_push(v@.take(i as int), v@[i as int]);
            assert(v@.take(i as int).push(v@[i as int]) =~= v@.take(i + 1));
            assert(views_of(v@.take(i + 1)).drop_last() =~= views_of(v@.take(i as int)));
        }
        if !ok {
            proof {
                lemma_blk_list_not_ok(views_of(v@), i as int);
            }
            return false;
        }
        i = i + 1;
    }
    assert(v@.take(v@.len() as int) =~= v@);
    true
}

proof fn lemma_blk_list_not_ok(els: Seq<ItemV>, i: int)
    requires
        0 <= i < els.len(),
        !upcast_blk_ok(els[i]),
    ensures
        !blk_list_ok(els),
    decreases els.len(),
{
    if i == els.len() - 1 {
    } else {
        lemma_blk_list_not_ok(els.drop_last(), i);
    }
}

fn blk_ok_exec(x: &Item) -> (r: bool)
    ensures
        r == upcast_blk_ok(x@),
    decreases *x, 1nat,
{
    match x {
        Item::Num(_) => true,
        Item::Str(_) => true,
        Item::Block(_) => true,
        Item::Array(v) => blk_list_ok_exec(x, v),
        _ => false,
    }
}

fn push_flat_list(parent: &Item, v: &Vec<Item>, out: &mut Vec<char>)
    requires
        decreases_to!(*parent => *v),
        flat_list_ok(views_of(v@)),
    ensures
        final(out)@ == old(out)@ + flat_list_chars(views_of(v@)),
    decreases *parent, 0nat,
{
    let mut i: usize = 0;
    proof {
        assert(views_of(v@.take(0)) =~= views_of(Seq::<Item>::empty()));
        assert(out@ =~= old(out)@ + flat_list_chars(views_of(v@.take(0))));
    }
    while i < v.len()
        invariant
            i <= v.len(),
            decreases_to!(*parent => *v),
            flat_list_ok(views_of(v@)),
            out@ == old(out)@ + flat_list_chars(views_of(v@.take(i as int))),
        decreases v.len() - i,
    {
        proof {
            assert(decreases_to!(*v => v@[i as int]));
            assert(decreases_to!(*parent => v@[i as int]));
            lemma_views_of(v@);
            lemma_flat_list_ok_at(views_of(v@), i as int);
        }
        push_flat(&v[i], out);
        proof {
            lemma_views_of_push(v@.take(i as int), v@[i as int]);
            assert(v@.take(i as int).push(v@[i as int]) =~= v@.take(i + 1));
            assert(views_of(v@.take(i + 1)).drop_last() =~= views_of(v@.take(i as int)));
        }
        i = i + 1;
    }
    assert(v@.take(v@.len() as int) =~= v@);
}

/// Every element of a well-formed list is itself well-formed.
proof fn lemma_flat_list_ok_at(els: Seq<ItemV>, i: int)
    requires
        0 <= i < els.len(),
        flat_list_ok(els),
    ensures
        flat_ok(els[i]),
    decreases els.len(),
{
    if i == els.len() - 1 {
    } else {
        lemma_flat_list_ok_at(els.drop_last(), i);
    }
}

fn push_flat(x: &Item, out: &mut Vec<char>)
    requires
        flat_ok(x@),
    ensures
        final(out)@ == old(out)@ + flat_chars(x@),
    decreases *x, 1nat,
{
    match x {
        Item::Num(n) => {
            let c = char_from_code(*n as u32);
            out.push(c);
            assert(out@ =~= old(out)@ + flat_chars(x@));
        }
        Item::Str(s) => {
            let mut i: usize = 0;
            while i < s.len()
                invariant
                    i <= s.len(),
                    out@ == old(out)@ + s@.take(i as int),
                decreases s.len() - i,
            {
                out.push(s[i]);
                assert(out@ =~= old(out)@ + s@.take(i + 1));
                i = i + 1;
            }
            assert(out@ =~= old(out)@ + flat_chars(x@));
        }
        Item::Array(v) => {
            push_flat_list(x, v, out);
        }
        _ => {
            proof {
                assert(false);
            }
        }
    }
}

fn push_blk_flat(x: &Item, out: &mut Vec<Item>)
    requires
        upcast_blk_ok(x@),
    ensures
        views_of(final(out)@) == views_of(old(out)@) + blk_flat(x@),
    decreases *x, 1nat,
{
    match x {
        Item::Num(_) | Item::Str(_) => {
            let c = clone_item(x);
            proof {
                lemma_views_of_push(out@, c);
            }
            out.push(c);
            assert(views_of(out@) =~= views_of(old(out)@) + blk_flat(x@));
        }
        Item::Block(b) => {
            let mut i: usize = 0;
            proof {
                lemma_views_of(b@);
                assert(views_of(b@).take(0) =~= Seq::<ItemV>::empty());
                assert(views_of(out@) =~= views_of(old(out)@) + views_of(b@).take(0));
            }
            while i < b.len()
                invariant
                    i <= b.len(),
                    decreases_to!(*x => *b),
                    views_of(out@) == views_of(old(out)@) + views_of(b@).take(i as int),
                decreases b.len() - i,
            {
                proof {
                    assert(decreases_to!(*b => b@[i as int]));
                    assert(decreases_to!(*x => b@[i as int]));
                    lemma_views_of(b@);
                }
                let c = clone_item(&b[i]);
                proof {
                    lemma_views_of_push(out@, c);
                    assert((views_of(old(out)@) + views_of(b@).take(i as int)).push(b@[i as int]@)
                        =~= views_of(old(out)@) + views_of(b@).take(i + 1));
                }
                out.push(c);
                i = i + 1;
            }
            proof {
                lemma_views_of(b@);
                assert(views_of(b@).take(b@.len() as int) =~= views_of(b@));
            }
        }
        Item::Array(v) => {
            let mut i: usize = 0;
            proof {
                assert(views_of(v@.take(0)) =~= views_of(Seq::<Item>::empty()));
                assert(views_of(out@) =~= views_of(old(out)@) + blk_list_flat(views_of(v@.take(0))));
            }
            while i < v.len()
                invariant
                    i <= v.len(),
                    decreases_to!(*x => *v),
                    blk_list_ok(views_of(v@)),
                    views_of(out@) == views_of(old(out)@) + blk_list_flat(views_of(v@.take(i as int))),
                decreases v.len() - i,
            {
                proof {
                    assert(decreases_to!(*v => v@[i as int]));
                    assert(decreases_to!(*x => v@[i as int]));
                    lemma_views_of(v@);
                    lemma_blk_list_ok_at(views_of(v@), i as int);
                }
                push_blk_flat(&v[i], out);
                proof {
                    lemma_views_of_push(v@.take(i as int), v@[i as int]);
                    assert(v@.take(i as int).push(v@[i as int]) =~= v@.take(i + 1));
                    assert(views_of(v@.take(i + 1)).drop_last() =~= views_of(v@.take(i as int)));
                }
                i = i + 1;
            }
            assert(v@.take(v@.len() as int) =~= v@);
        }
        _ => {
            proof {
                assert(false);
            }
        }
    }
}

proof fn lemma_blk_list_ok_at(els: Seq<ItemV>, i: int)
    requires
        0 <= i < els.len(),
        blk_list_ok(els),
    ensures
        upcast_blk_ok(els[i]),
    decreases els.len(),
{
    if i == els.len() - 1 {
    } else {
        lemma_blk_list_ok_at(els.drop_last(), i);
    }
}

} // verus!

verus! {

// ---------------------------------------------------------------------
// Display form
// ---------------------------------------------------------------------

/// The text of a string in display form: a newline shows as the two
/// characters backslash and n.
pub open spec fn escape_nl(s: Seq<char>) -> Seq<char>
    decreases s.len(),
{
    if s.len() == 0 {
        Seq::empty()
    } else if s.last() == '\n' {
        escape_nl(s.drop_last()) + seq!['\\', 'n']
    } else {
        escape_nl(s.drop_last()).push(s.last())
    }
}

/// The display form of a value: integers in decimal, strings quoted
/// with newlines escaped, arrays and blocks bracketed with their
/// elements separated by spaces, a variable as its name, an assignment
/// as a colon and its name.
pub open spec fn disp(v: ItemV) -> Seq<char>
    decreases v, 1nat,
{
    match v {
        ItemV::Var(s) => s,
        ItemV::Assign(s) => seq![':'] + s,
        ItemV::Num(n) => dec_chars(n),
        ItemV::Str(s) => seq!['"'] + escape_nl(s) + seq!['"'],
        ItemV::Array(els) => seq!['['] + disp_list(els) + seq![']'],
        ItemV::Block(els) => seq!['{'] + disp_list(els) + seq!['}'],
    }
}

/// The display forms of the elements, separated by single spaces.
pub open spec fn disp_list(els: Seq<ItemV>) -> Seq<char>
    decreases els, 0nat,
{
    if els.len() == 0 {
        Seq::empty()
    } else if els.len() == 1 {
        disp(els[0])
    } else {
        disp_list(els.drop_last()) + seq![' '] + disp(els.last())
    }
}

fn push_chars(s: &Vec<char>, out: &mut Vec<char>)
    ensures
        final(out)@ == old(out)@ + s@,
{
    let mut i: usize = 0;
    while i < s.len()
        invariant
            i <= s.len(),
            out@ == old(out)@ + s@.take(i as int),
        decreases s.len() - i,
    {
        out.push(s[i]);
        assert(out@ =~= old(out)@ + s@.take(i + 1));
        i = i + 1;
    }
    assert(out@ =~= old(out)@ + s@);
}

fn push_escaped(s: &Vec<char>, out: &mut Vec<char>)
    ensures
        final(out)@ == old(out)@ + escape_nl(s@),
{
    let mut i: usize = 0;
    while i < s.len()
        invariant
            i <= s.len(),
            out@ == old(out)@ + escape_nl(s@.take(i as int)),
        decreases s.len() - i,
    {
        let c = s[i];
        if c == '\n' {
            out.push('\\');
            out.push('n');
        } else {
            out.push(c);
        }
        proof {
            assert(s@.take(i + 1).drop_last() =~= s@.take(i as int));
            assert(s@.take(i + 1).last() == s@[i as int]);
            assert(out@ =~= old(out)@ + escape_nl(s@.take(i + 1)));
        }
        i = i + 1;
    }
    assert(s@.take(s@.len() as int) =~= s@);
}

fn push_disp_list(parent: &Item, v: &Vec<Item>, out: &mut Vec<char>)
    requires
        decreases_to!(*parent => *v),
    ensures
        final(out)@ == old(out)@ + disp_list(views_of(v@)),
    decreases *parent, 0nat,
{
    let mut i: usize = 0;
    proof {
        lemma_views_of(v@);
        assert(views_of(v@).take(0) =~= Seq::<ItemV>::empty());
        assert(views_of(v@.take(0)) =~= Seq::<ItemV>::empty());
    }
    while i < v.len()
        invariant
            i <= v.len(),
            decreases_to!(*parent => *v),
            out@ == old(out)@ + disp_list(views_of(v@.take(i as int))),
        decreases v.len() - i,
    {
        proof {
            assert(decreases_to!(*v => v@[i as int]));
            assert(decreases_to!(*parent => v@[i as int]));
            lemma_views_of(v@);
        }
        if i > 0 {
            out.push(' ');
        }
        push_disp(&v[i], out);
        proof {
            lemma_views_of_push(v@.take(i as int), v@[i as int]);
            assert(v@.take(i as int).push(v@[i as int]) =~= v@.take(i + 1));
            assert(views_of(v@.take(i + 1)).drop_last() =~= views_of(v@.take(i as int)));
            assert(views_of(v@.take(i + 1)).last() == v@[i as int]@);
            assert(out@ =~= old(out)@ + disp_list(views_of(v@.take(i + 1))));
        }
        i = i + 1;
    }
    assert(v@.take(v@.len() as int) =~= v@);
}

fn push_disp(x: &Item, out: &mut Vec<char>)
    ensures
        final(out)@ == old(out)@ + disp(x@),
    decreases *x, 1nat,
{
    match x {
        Item::Var(s) => {
            push_chars(s, out);
        }
        Item::Assign(s) => {
            out.push(':');
            push_chars(s, out);
            assert(out@ =~= old(out)@ + disp(x@));
        }
        Item::Num(n) => {
            let d = i64_dec_chars(*n);
            push_chars(&d, out);
        }
        Item::Str(s) => {
            out.push('"');
            push_escaped(s, out);
            out.push('"');
            assert(out@ =~= old(out)@ + disp(x@));
        }
        Item::Array(v) => {
            out.push('[');
            push_disp_list(x, v, out);
            out.push(']');
            assert(out@ =~= old(out)@ + disp(x@));
        }
        Item::Block(v) => {
            out.push('{');
            push_disp_list(x, v, out);
            out.push('}');
            assert(out@ =~= old(out)@ + disp(x@));
        }
    }
}

impl Item {
    /// The display form of this value, as characters.
    pub fn display_chars(&self) -> (r: Vec<char>)
        ensures
            r@ == disp(self@),
    {
        let mut out: Vec<char> = Vec::new();
        push_disp(self, &mut out);
        assert(out@ =~= disp(self@));
        out
    }

    /// The display form of this value, as a string.
    pub fn display_string(&self) -> (r: String)
        ensures
            r@ == disp(self@),
    {
        let out = self.display_chars();
        string_from_chars(&out)
    }
}

/// Relies on String's FromIterator impl over chars: the collected
/// string holds exactly the given characters in order.
#[verifier::external_body]
pub(crate) fn string_from_chars(v: &Vec<char>) -> (r: String)
    ensures
        r@ == v@,
{
    v.iter().collect()
}

} // verus!

verus! {

pub proof fn lemma_views_of_concat(a: Seq<Item>, b: Seq<Item>)
    ensures
        views_of(a + b) == views_of(a) + views_of(b),
    decreases b.len(),
{
    if b.len() == 0 {
        assert(a + b =~= a);
        assert(views_of(a) + views_of(b) =~= views_of(a));
    } else {
        lemma_views_of_concat(a, b.drop_last());
        assert((a + b).drop_last() =~= a + b.drop_last());
        assert((a + b).last() == b.last());
        assert(views_of(a) + views_of(b.drop_last()).push(b.last()@) =~= views_of(a) + views_of(
            b.drop_last(),
        ) + seq![b.last()@]);
        assert(views_of(b.drop_last()).push(b.last()@) == views_of(b));
        assert(views_of(a + b) == (views_of(a) + views_of(b.drop_last())).push(b.last()@));
        assert((views_of(a) + views_of(b.drop_last())).push(b.last()@) =~= views_of(a) + views_of(
            b,
        ));
    }
}

} // verus!

verus! {

pub proof fn lemma_views_of_parts(s: Seq<Item>, k: int)
    requires
        0 <= k <= s.len(),
    ensures
        views_of(s.take(k)) == views_of(s).take(k),
        views_of(s.skip(k)) == views_of(s).skip(k),
{
    lemma_views_of(s);
    lemma_views_of(s.take(k));
    lemma_views_of(s.skip(k));
    assert forall|i: int| 0 <= i < k implies views_of(s.take(k))[i] == views_of(s).take(k)[i] by {
        assert(views_of(s.take(k))[i] == s.take(k)[i]@);
        assert(views_of(s)[i] == s[i]@);
    }
    assert(views_of(s.take(k)) =~= views_of(s).take(k));
    assert forall|i: int| 0 <= i < s.len() - k implies views_of(s.skip(k))[i] == views_of(s).skip(
        k,
    )[i] by {
        assert(views_of(s.skip(k))[i] == s.skip(k)[i]@);
        assert(views_of(s)[i + k] == s[i + k]@);
    }
    assert(views_of(s.skip(k)) =~= views_of(s).skip(k));
}

} // verus!
