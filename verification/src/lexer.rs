use vstd::prelude::*;
use vstd::string::StrSliceExecFns;

use crate::items::GSError;
use crate::items::Item;
use crate::items::ItemV;
use crate::items::views_of;
use crate::items::lemma_views_of_push;

verus! {

// ---------------------------------------------------------------------
// Character classes
// ---------------------------------------------------------------------

/// A decimal digit.
pub open spec fn is_dec_digit(c: char) -> bool {
    48 <= c as u32 <= 57
}

/// The Unicode White_Space code points.
pub open spec fn is_space(c: char) -> bool {
    let u = c as u32;
    (9 <= u <= 13) || u == 32 || u == 0x85 || u == 0xA0 || u == 0x1680
        || (0x2000 <= u <= 0x200A) || u == 0x2028 || u == 0x2029 || u == 0x202F
        || u == 0x205F || u == 0x3000
}

/// The one-character operator names.
pub open spec fn is_symbol(c: char) -> bool {
    c == '+' || c == '-' || c == '!' || c == '@' || c == '$' || c == '*' || c == '/'
        || c == '%' || c == '|' || c == '&' || c == '^' || c == '\\' || c == ';' || c == '<'
        || c == '>' || c == '=' || c == '.' || c == '?' || c == '(' || c == ')' || c == '['
        || c == ']' || c == '~' || c == '`' || c == ','
}

/// The characters an identifier may continue with, besides `_`.
/// What char::is_alphanumeric returns; it depends on the character
/// alone.
pub uninterp spec fn is_word_char(c: char) -> bool;

/// Relies on char::is_alphanumeric: whether the character lies in the
/// Unicode Alphabetic or N (number) categories.
#[verifier::external_body]
fn char_is_word(c: char) -> (r: bool)
    ensures
        r == is_word_char(c),
{
    c.is_alphanumeric()
}

fn char_is_dec_digit(c: char) -> (r: bool)
    ensures
        r == is_dec_digit(c),
{
    let u = c as u32;
    48 <= u && u <= 57
}

fn char_is_space(c: char) -> (r: bool)
    ensures
        r == is_space(c),
{
    let u = c as u32;
    (9 <= u && u <= 13) || u == 32 || u == 0x85 || u == 0xA0 || u == 0x1680
        || (0x2000 <= u && u <= 0x200A) || u == 0x2028 || u == 0x2029 || u == 0x202F
        || u == 0x205F || u == 0x3000
}

fn char_is_symbol(c: char) -> (r: bool)
    ensures
        r == is_symbol(c),
{
    c == '+' || c == '-' || c == '!' || c == '@' || c == '$' || c == '*' || c == '/'
        || c == '%' || c == '|' || c == '&' || c == '^' || c == '\\' || c == ';' || c == '<'
        || c == '>' || c == '=' || c == '.' || c == '?' || c == '(' || c == ')' || c == '['
        || c == ']' || c == '~' || c == '`' || c == ','
}

// ---------------------------------------------------------------------
// Scanning helpers
// ---------------------------------------------------------------------

/// Replace every non-overlapping occurrence of the two characters
/// `p0 p1` by the single character `r`, scanning left to right.
pub open spec fn replace2(s: Seq<char>, p0: char, p1: char, r: char) -> Seq<char>
    decreases s.len(),
{
    if s.len() >= 2 && s[0] == p0 && s[1] == p1 {
        seq![r] + replace2(s.skip(2), p0, p1, r)
    } else if s.len() >= 1 {
        seq![s[0]] + replace2(s.skip(1), p0, p1, r)
    } else {
        Seq::empty()
    }
}

fn replace2_exec(s: &Vec<char>, p0: char, p1: char, r: char) -> (out: Vec<char>)
    ensures
        out@ == replace2(s@, p0, p1, r),
{
    let mut out: Vec<char> = Vec::new();
    let mut i: usize = 0;
    proof {
        assert(s@.skip(0) =~= s@);
    }
    while i < s.len()
        invariant
            i <= s.len(),
            replace2(s@, p0, p1, r) == out@ + replace2(s@.skip(i as int), p0, p1, r),
        decreases s.len() - i,
    {
        let ghost pre = out@;
        if i + 1 < s.len() && s[i] == p0 && s[i + 1] == p1 {
            out.push(r);
            proof {
                assert(s@.skip(i as int).skip(2) =~= s@.skip(i + 2));
                assert(pre + replace2(s@.skip(i as int), p0, p1, r)
                    =~= out@ + replace2(s@.skip(i + 2), p0, p1, r));
            }
            i = i + 2;
        } else {
            out.push(s[i]);
            proof {
                assert(s@.skip(i as int).skip(1) =~= s@.skip(i + 1));
                assert(s@.skip(i as int)[0] == s@[i as int]);
                assert(pre + replace2(s@.skip(i as int), p0, p1, r)
                    =~= out@ + replace2(s@.skip(i + 1), p0, p1, r));
            }
            i = i + 1;
        }
    }
    proof {
        assert(s@.skip(s@.len() as int) =~= Seq::<char>::empty());
        assert(replace2(s@, p0, p1, r) =~= out@);
    }
    out
}

/// Scan the inside of a string literal from `pos`: a backslash keeps
/// the following character; the closing quote ends the scan. `None`
/// when the input ends first.
pub open spec fn scan_str(s: Seq<char>, pos: int, acc: Seq<char>) -> Option<(Seq<char>, int)>
    decreases s.len() - pos,
    when 0 <= pos
{
    if pos >= s.len() {
        None
    } else if s[pos] == '\\' {
        if pos + 1 >= s.len() {
            None
        } else {
            scan_str(s, pos + 2, acc.push(s[pos + 1]))
        }
    } else if s[pos] == '"' {
        Some((acc, pos + 1))
    } else {
        scan_str(s, pos + 1, acc.push(s[pos]))
    }
}

proof fn lemma_scan_str_bounds(s: Seq<char>, pos: int, acc: Seq<char>)
    requires
        0 <= pos <= s.len(),
    ensures
        scan_str(s, pos, acc) matches Some((c, np)) ==> pos < np <= s.len(),
    decreases s.len() - pos,
{
    if pos < s.len() {
        if s[pos] == '\\' {
            if pos + 1 < s.len() {
                lemma_scan_str_bounds(s, pos + 2, acc.push(s[pos + 1]));
            }
        } else if s[pos] != '"' {
            lemma_scan_str_bounds(s, pos + 1, acc.push(s[pos]));
        }
    }
}

fn scan_str_exec(s: &Vec<char>, pos: usize) -> (r: Option<(Vec<char>, usize)>)
    requires
        pos <= s@.len(),
    ensures
        match r {
            Some((c, np)) => scan_str(s@, pos as int, Seq::empty())
                == Some((c@, np as int)) && pos < np <= s@.len(),
            None => scan_str(s@, pos as int, Seq::empty()) is None,
        },
{
    let mut acc: Vec<char> = Vec::new();
    let mut i: usize = pos;
    proof {
        lemma_scan_str_bounds(s@, pos as int, Seq::empty());
    }
    while i < s.len()
        invariant
            pos <= i <= s@.len(),
            scan_str(s@, pos as int, Seq::empty()) == scan_str(s@, i as int, acc@),
            scan_str(s@, pos as int, Seq::empty()) matches Some((c, np)) ==> pos < np <= s@.len(),
        decreases s.len() - i,
    {
        let c = s[i];
        if c == '\\' {
            if i + 1 >= s.len() {
                return None;
            }
            acc.push(s[i + 1]);
            i = i + 2;
        } else if c == '"' {
            return Some((acc, i + 1));
        } else {
            acc.push(c);
            i = i + 1;
        }
    }
    None
}

/// Scan a run of decimal digits from `pos`, accumulating the value;
/// `None` when the value leaves the 64-bit signed range.
pub open spec fn scan_num(s: Seq<char>, pos: int, acc: int) -> Option<(int, int)>
    decreases s.len() - pos,
    when 0 <= pos
{
    if pos >= s.len() || !is_dec_digit(s[pos]) {
        Some((acc, pos))
    } else {
        let a2 = acc * 10 + (s[pos] as u32 - 48);
        if a2 > i64::MAX {
            None
        } else {
            scan_num(s, pos + 1, a2)
        }
    }
}

proof fn lemma_scan_num_bounds(s: Seq<char>, pos: int, acc: int)
    requires
        0 <= pos <= s.len(),
    ensures
        scan_num(s, pos, acc) matches Some((v, np)) ==> pos <= np <= s.len(),
    decreases s.len() - pos,
{
    if pos < s.len() && is_dec_digit(s[pos]) {
        let a2 = acc * 10 + (s[pos] as u32 - 48);
        if a2 <= i64::MAX {
            lemma_scan_num_bounds(s, pos + 1, a2);
        }
    }
}

fn scan_num_exec(s: &Vec<char>, pos: usize, acc: i64) -> (r: Option<(i64, usize)>)
    requires
        pos <= s@.len(),
        acc >= 0,
    ensures
        match r {
            Some((v, np)) => scan_num(s@, pos as int, acc as int) == Some((v as int, np as int))
                && pos <= np <= s@.len() && v >= 0,
            None => scan_num(s@, pos as int, acc as int) is None,
        },
{
    let mut i: usize = pos;
    let mut a: i64 = acc;
    while i < s.len() && char_is_dec_digit(s[i])
        invariant
            pos <= i <= s@.len(),
            a >= 0,
            scan_num(s@, pos as int, acc as int) == scan_num(s@, i as int, a as int),
        decreases s.len() - i,
    {
        let d: i64 = ((s[i] as u32) - 48) as i64;
        let m = a.checked_mul(10);
        match m {
            None => {
                return None;
            }
            Some(m10) => {
                match m10.checked_add(d) {
                    None => {
                        return None;
                    }
                    Some(a2) => {
                        a = a2;
                        i = i + 1;
                    }
                }
            }
        }
    }
    Some((a, i))
}

/// Scan a run of identifier characters (possibly empty) from `pos`.
pub open spec fn scan_word_run(s: Seq<char>, pos: int, acc: Seq<char>) -> (Seq<char>, int)
    decreases s.len() - pos,
    when 0 <= pos
{
    if pos >= s.len() || !(is_word_char(s[pos]) || s[pos] == '_') {
        (acc, pos)
    } else {
        scan_word_run(s, pos + 1, acc.push(s[pos]))
    }
}

proof fn lemma_scan_word_run_bounds(s: Seq<char>, pos: int, acc: Seq<char>)
    requires
        0 <= pos <= s.len(),
    ensures
        pos <= scan_word_run(s, pos, acc).1 <= s.len(),
    decreases s.len() - pos,
{
    if pos < s.len() && (is_word_char(s[pos]) || s[pos] == '_') {
        lemma_scan_word_run_bounds(s, pos + 1, acc.push(s[pos]));
    }
}

fn scan_word_run_exec(s: &Vec<char>, pos: usize) -> (r: (Vec<char>, usize))
    requires
        pos <= s@.len(),
    ensures
        scan_word_run(s@, pos as int, Seq::empty()) == (r.0@, r.1 as int),
        pos <= r.1 <= s@.len(),
{
    let mut acc: Vec<char> = Vec::new();
    let mut i: usize = pos;
    proof {
        lemma_scan_word_run_bounds(s@, pos as int, Seq::empty());
    }
    while i < s.len() && (char_is_word(s[i]) || s[i] == '_')
        invariant
            pos <= i <= s@.len(),
            scan_word_run(s@, pos as int, Seq::empty()) == scan_word_run(s@, i as int, acc@),
        decreases s.len() - i,
    {
        acc.push(s[i]);
        i = i + 1;
    }
    (acc, i)
}

// ---------------------------------------------------------------------
// The tokenizer
// ---------------------------------------------------------------------

/// One step of the tokenizer: the next token with the position after
/// it, the end of the input, or a parse failure.
#[verifier::ext_equal]
pub enum LexStep {
    Tok(ItemV, int),
    End,
    Fail,
}

/// Clamp a continuation position into `(pos, len]` so that scanning
/// always advances.
pub open spec fn advance(np: int, pos: int, len: int) -> int {
    if np < pos + 1 {
        pos + 1
    } else if np > len {
        len
    } else {
        np
    }
}

/// The next token at or after `pos`: comments and whitespace are
/// skipped; `"`, `{`, a digit, `-` before a digit, `:`, an operator
/// character or an identifier begin tokens; any other character is a
/// parse failure.
pub open spec fn spec_lex_item(s: Seq<char>, pos: int) -> LexStep
    decreases s.len() - pos, 0nat,
    when 0 <= pos
{
    if pos >= s.len() {
        LexStep::End
    } else {
        let c = s[pos];
        if c == '#' {
            spec_lex_comment(s, pos + 1)
        } else if is_space(c) {
            spec_lex_item(s, pos + 1)
        } else if c == '"' {
            match scan_str(s, pos + 1, Seq::empty()) {
                None => LexStep::Fail,
                Some((raw, np)) => {
                    let cooked = replace2(replace2(raw, '\\', '\\', '\\'), '\\', '"', '"');
                    LexStep::Tok(ItemV::Str(cooked), advance(np, pos, s.len() as int))
                }
            }
        } else if c == '{' {
            spec_lex_block(s, pos + 1, Seq::empty())
        } else if is_dec_digit(c) {
            match scan_num(s, pos, 0) {
                None => LexStep::Fail,
                Some((v, np)) => LexStep::Tok(ItemV::Num(v), advance(np, pos, s.len() as int)),
            }
        } else if c == '-' {
            if pos + 1 < s.len() && is_dec_digit(s[pos + 1]) {
                match scan_num(s, pos + 1, 0) {
                    None => LexStep::Fail,
                    Some((v, np)) => LexStep::Tok(
                        ItemV::Num(-v),
                        advance(np, pos, s.len() as int),
                    ),
                }
            } else {
                LexStep::Tok(ItemV::Var(seq!['-']), pos + 1)
            }
        } else if is_symbol(c) {
            LexStep::Tok(ItemV::Var(seq![c]), pos + 1)
        } else if c == ':' {
            let (w, np) = scan_word_run(s, pos + 1, Seq::empty());
            if w.len() == 0 {
                LexStep::Fail
            } else {
                LexStep::Tok(ItemV::Assign(w), advance(np, pos, s.len() as int))
            }
        } else if is_word_char(c) || c == '_' {
            let (w, np) = scan_word_run(s, pos, Seq::empty());
            LexStep::Tok(ItemV::Var(w), advance(np, pos, s.len() as int))
        } else {
            LexStep::Fail
        }
    }
}

/// Inside a comment: skip to the character after the next newline.
pub open spec fn spec_lex_comment(s: Seq<char>, pos: int) -> LexStep
    decreases s.len() - pos, 1nat,
    when 0 <= pos
{
    if pos >= s.len() {
        LexStep::End
    } else if s[pos] == '\n' {
        spec_lex_item(s, pos + 1)
    } else {
        spec_lex_comment(s, pos + 1)
    }
}

/// Inside a block literal: gather tokens until the matching brace; the
/// end of the input first is a parse failure.
pub open spec fn spec_lex_block(s: Seq<char>, pos: int, acc: Seq<ItemV>) -> LexStep
    decreases s.len() - pos, 2nat,
    when 0 <= pos
{
    if pos >= s.len() {
        LexStep::Fail
    } else if s[pos] == '}' {
        LexStep::Tok(ItemV::Block(acc), pos + 1)
    } else if is_space(s[pos]) {
        spec_lex_block(s, pos + 1, acc)
    } else {
        match spec_lex_item(s, pos) {
            LexStep::Tok(t, np) => spec_lex_block(s, advance(np, pos, s.len() as int), acc.push(t)),
            LexStep::End => LexStep::Fail,
            LexStep::Fail => LexStep::Fail,
        }
    }
}

/// Tokens of the whole input from `pos` on; `None` on a parse failure.
pub open spec fn spec_lex_from(s: Seq<char>, pos: int, acc: Seq<ItemV>) -> Option<Seq<ItemV>>
    decreases s.len() - pos,
    when 0 <= pos
{
    match spec_lex_item(s, pos) {
        LexStep::End => Some(acc),
        LexStep::Fail => None,
        LexStep::Tok(t, np) => spec_lex_from(s, advance(np, pos, s.len() as int), acc.push(t)),
    }
}

/// The token sequence of a source text, or `None` on a parse failure.
pub open spec fn spec_lex(s: Seq<char>) -> Option<Seq<ItemV>> {
    spec_lex_from(s, 0, Seq::empty())
}

/// A token step always lands inside `(pos, len]`.
pub proof fn lemma_lex_item_advances(s: Seq<char>, pos: int)
    requires
        0 <= pos <= s.len(),
    ensures
        spec_lex_item(s, pos) matches LexStep::Tok(t, np) ==> pos < np <= s.len(),
    decreases s.len() - pos, 0nat,
{
    if pos < s.len() {
        let c = s[pos];
        if c == '#' {
            lemma_lex_comment_advances(s, pos + 1);
        } else if is_space(c) {
            lemma_lex_item_advances(s, pos + 1);
        } else if c == '{' {
            lemma_lex_block_advances(s, pos + 1, Seq::empty());
        }
    }
}

proof fn lemma_lex_comment_advances(s: Seq<char>, pos: int)
    requires
        0 <= pos <= s.len(),
    ensures
        spec_lex_comment(s, pos) matches LexStep::Tok(t, np) ==> pos < np <= s.len(),
    decreases s.len() - pos, 1nat,
{
    if pos < s.len() {
        if s[pos] == '\n' {
            lemma_lex_item_advances(s, pos + 1);
        } else {
            lemma_lex_comment_advances(s, pos + 1);
        }
    }
}

proof fn lemma_lex_block_advances(s: Seq<char>, pos: int, acc: Seq<ItemV>)
    requires
        0 <= pos <= s.len(),
    ensures
        spec_lex_block(s, pos, acc) matches LexStep::Tok(t, np) ==> pos < np <= s.len(),
    decreases s.len() - pos, 2nat,
{
    if pos < s.len() {
        if s[pos] == '}' {
        } else if is_space(s[pos]) {
            lemma_lex_block_advances(s, pos + 1, acc);
        } else {
            lemma_lex_item_advances(s, pos);
            match spec_lex_item(s, pos) {
                LexStep::Tok(t, np) => {
                    lemma_lex_block_advances(s, advance(np, pos, s.len() as int), acc.push(t));
                }
                _ => {}
            }
        }
    }
}

fn lex_item_exec(s: &Vec<char>, pos: usize) -> (r: Result<Option<(Item, usize)>, GSError>)
    requires
        pos <= s@.len(),
    ensures
        match r {
            Ok(Some((t, np))) => spec_lex_item(s@, pos as int) == LexStep::Tok(t@, np as int)
                && pos < np <= s@.len(),
            Ok(None) => spec_lex_item(s@, pos as int) == LexStep::End,
            Err(e) => spec_lex_item(s@, pos as int) == LexStep::Fail && e is Parse,
        },
    decreases s@.len() - pos,
{
    let mut i: usize = pos;
    // skip whitespace and comments
    while i < s.len() && (char_is_space(s[i]) || s[i] == '#')
        invariant
            pos <= i <= s@.len(),
            spec_lex_item(s@, pos as int) == spec_lex_item(s@, i as int),
        decreases s@.len() - i,
    {
        if s[i] == '#' {
            let ghost i0: int = i as int;
            i = i + 1;
            while i < s.len() && s[i] != '\n'
                invariant
                    pos < i <= s@.len(),
                    i0 < i,
                    spec_lex_item(s@, pos as int) == spec_lex_comment(s@, i as int),
                decreases s@.len() - i,
            {
                i = i + 1;
            }
            if i >= s.len() {
                return Ok(None);
            }
            // s[i] is the newline
            i = i + 1;
        } else {
            i = i + 1;
        }
    }
    if i >= s.len() {
        return Ok(None);
    }
    let c = s[i];
    let ghost ip = i as int;
    if c == '"' {
        match scan_str_exec(s, i + 1) {
            None => Err(GSError::Parse(String::from_str("bad string literal"))),
            Some((raw, np)) => {
                let cooked = replace2_exec(&replace2_exec(&raw, '\\', '\\', '\\'), '\\', '"', '"');
                proof {
                    assert(advance(np as int, ip, s@.len() as int) == np as int);
                }
                Ok(Some((Item::Str(cooked), np)))
            }
        }
    } else if c == '{' {
        let mut toks: Vec<Item> = Vec::new();
        let mut j: usize = i + 1;
        proof {
            lemma_lex_block_advances(s@, ip + 1, Seq::empty());
        }
        loop
            invariant
                ip < j <= s@.len(),
                i == ip,
                pos <= i < s@.len(),
                spec_lex_item(s@, pos as int) == spec_lex_item(s@, ip),
                s@[ip] == '{',
                spec_lex_block(s@, ip + 1, Seq::empty())
                    == spec_lex_block(s@, j as int, views_of(toks@)),
                spec_lex_block(s@, ip + 1, Seq::empty()) matches LexStep::Tok(t, np)
                    ==> ip < np <= s@.len(),
            decreases s@.len() - j,
        {
            if j >= s.len() {
                return Err(GSError::Parse(String::from_str("unterminated block")));
            }
            if s[j] == '}' {
                let blk = Item::Block(toks);
                proof {
                    assert(blk@ == ItemV::Block(views_of(toks@)));
                }
                return Ok(Some((blk, j + 1)));
            }
            if char_is_space(s[j]) {
                j = j + 1;
                continue;
            }
            match lex_item_exec(s, j) {
                Err(e) => {
                    return Err(e);
                }
                Ok(None) => {
                    return Err(GSError::Parse(String::from_str("unterminated block")));
                }
                Ok(Some((t, np))) => {
                    proof {
                        assert(advance(np as int, j as int, s@.len() as int) == np as int);
                        lemma_views_of_push(toks@, t);
                    }
                    toks.push(t);
                    j = np;
                }
            }
        }
    } else if char_is_dec_digit(c) {
        match scan_num_exec(s, i, 0) {
            None => Err(GSError::Parse(String::from_str("number too large"))),
            Some((v, np)) => {
                proof {
                    assert(np > ip) by {
                        assert(is_dec_digit(s@[ip]));
                        assert(scan_num(s@, ip, 0) == scan_num(s@, ip + 1, (s@[ip] as u32 - 48) as int)
                            || scan_num(s@, ip, 0) is None);
                        lemma_scan_num_bounds(s@, ip + 1, (s@[ip] as u32 - 48) as int);
                    }
                    assert(advance(np as int, ip, s@.len() as int) == np as int);
                }
                Ok(Some((Item::Num(v), np)))
            }
        }
    } else if c == '-' {
        if i + 1 < s.len() && char_is_dec_digit(s[i + 1]) {
            match scan_num_exec(s, i + 1, 0) {
                None => Err(GSError::Parse(String::from_str("number too large"))),
                Some((v, np)) => {
                    proof {
                        assert(advance(np as int, ip, s@.len() as int) == np as int);
                    }
                    Ok(Some((Item::Num(-v), np)))
                }
            }
        } else {
            let mut w: Vec<char> = Vec::new();
            w.push('-');
            proof {
                assert(w@ =~= seq!['-']);
            }
            Ok(Some((Item::Var(w), i + 1)))
        }
    } else if char_is_symbol(c) {
        let mut w: Vec<char> = Vec::new();
        w.push(c);
        proof {
            assert(w@ =~= seq![s@[ip]]);
            assert(!(c == '-'));
        }
        Ok(Some((Item::Var(w), i + 1)))
    } else if c == ':' {
        let (w, np) = scan_word_run_exec(s, i + 1);
        if w.len() == 0 {
            Err(GSError::Parse(String::from_str("empty name after :")))
        } else {
            proof {
                assert(advance(np as int, ip, s@.len() as int) == np as int);
            }
            Ok(Some((Item::Assign(w), np)))
        }
    } else if char_is_word(c) || c == '_' {
        let (w, np) = scan_word_run_exec(s, i);
        proof {
            lemma_scan_word_run_bounds(s@, ip + 1, Seq::empty().push(s@[ip]));
            assert(scan_word_run(s@, ip, Seq::empty())
                == scan_word_run(s@, ip + 1, Seq::empty().push(s@[ip])));
            assert(np > ip);
            assert(advance(np as int, ip, s@.len() as int) == np as int);
        }
        Ok(Some((Item::Var(w), np)))
    } else {
        Err(GSError::Parse(String::from_str("unexpected character")))
    }
}

pub(crate) fn lex_chars(s: &Vec<char>) -> (r: Result<Vec<Item>, GSError>)
    ensures
        match r {
            Ok(toks) => spec_lex(s@) == Some(views_of(toks@)),
            Err(e) => spec_lex(s@) is None && e is Parse,
        },
{
    let mut toks: Vec<Item> = Vec::new();
    let mut i: usize = 0;
    loop
        invariant
            i <= s@.len(),
            spec_lex(s@) == spec_lex_from(s@, i as int, views_of(toks@)),
        decreases s@.len() - i,
    {
        match lex_item_exec(s, i) {
            Err(e) => {
                return Err(e);
            }
            Ok(None) => {
                return Ok(toks);
            }
            Ok(Some((t, np))) => {
                proof {
                    assert(advance(np as int, i as int, s@.len() as int) == np as int);
                    lemma_views_of_push(toks@, t);
                }
                toks.push(t);
                i = np;
            }
        }
    }
}

/// Tokenize a source text. The result is exactly what `spec_lex` gives
/// on the text's characters; a parse failure is a `Parse` error.
pub fn lex(input: &str) -> (r: Result<Vec<Item>, GSError>)
    ensures
        match r {
            Ok(toks) => spec_lex(input@) == Some(views_of(toks@)),
            Err(e) => spec_lex(input@) is None && e is Parse,
        },
{
    let chars = chars_of_str(input);
    lex_chars(&chars)
}

/// The characters of a text, in order.
pub fn chars_of_str(input: &str) -> (r: Vec<char>)
    ensures
        r@ == input@,
{
    let n = input.unicode_len();
    let mut out: Vec<char> = Vec::new();
    let mut i: usize = 0;
    while i < n
        invariant
            i <= n,
            n == input@.len(),
            out@ == input@.take(i as int),
        decreases n - i,
    {
        out.push(input.get_char(i));
        assert(out@ =~= input@.take(i + 1));
        i = i + 1;
    }
    assert(out@ =~= input@);
    out
}

} // verus!
