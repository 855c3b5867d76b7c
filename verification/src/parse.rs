//! The grammar parser.
//!
//! An expression has the shape
//!
//! ```text
//! expression     := [count "@"] [diceCount] "d" sides [keepDropToken] [arithmeticToken]
//! keepDropToken  := ("k"|"d") ("h"|"l") [digits]
//! arithmeticToken:= ("+"|"-"|"*"|"/") digits
//! ```
//!
//! anchored at both ends.  Missing groups fall back to their defaults:
//! `count = 1`, `diceCount = 1`, and a keep/drop token without a trailing
//! number means `keepDropCount = 1`.  The grammar itself is written down as
//! the spec predicate [`expr_matches`]; [`parse`] is proved sound (whatever it
//! returns matches) and complete (it fails only when nothing matches).

use vstd::prelude::*;
use vstd::string::*;
use crate::{MAX_COUNT, MAX_DICE, MAX_SIDES};

verus! {

/// A keep/drop selection policy.
#[derive(Clone, Copy, Debug, PartialEq, Eq, Structural)]
pub enum KeepDrop {
    KeepHigh,
    KeepLow,
    DropHigh,
    DropLow,
}

/// An arithmetic modifier operator.  It is parsed but deliberately never
/// applied to any total: callers see it only as data.
#[derive(Clone, Copy, Debug, PartialEq, Eq, Structural)]
pub enum ArithOp {
    Add,
    Sub,
    Mul,
    Div,
}

/// Why a request was refused.
#[derive(Clone, Copy, Debug, PartialEq, Eq, Structural)]
pub enum RollError {
    /// The expression does not match the grammar.
    ParseError,
    /// The expression matches the grammar, but a parameter is degenerate or
    /// beyond the configured bounds (zero-sided dice, oversized counts).
    ValidationError,
}

/// The parsed, structured form of a dice-notation expression.
#[derive(Clone, Copy, Debug, PartialEq, Eq, Structural)]
pub struct RollSpec {
    pub count: u32,
    pub dice_count: u32,
    pub sides: u32,
    pub keep_drop_op: Option<KeepDrop>,
    pub keep_drop_count: u32,
    pub arith_op: Option<ArithOp>,
    pub arith_value: u32,
}

/// Mathematical image of a [`RollSpec`]: the numeric fields are unbounded, so
/// the grammar can be stated before any bounds checking.
#[verifier::ext_equal]
pub ghost struct RollSpecV {
    pub count: int,
    pub dice_count: int,
    pub sides: int,
    pub keep_drop_op: Option<KeepDrop>,
    pub keep_drop_count: int,
    pub arith_op: Option<ArithOp>,
    pub arith_value: int,
}

impl View for RollSpec {
    type V = RollSpecV;

    open spec fn view(&self) -> RollSpecV {
        RollSpecV {
            count: self.count as int,
            dice_count: self.dice_count as int,
            sides: self.sides as int,
            keep_drop_op: self.keep_drop_op,
            keep_drop_count: self.keep_drop_count as int,
            arith_op: self.arith_op,
            arith_value: self.arith_value as int,
        }
    }
}

// ---------------------------------------------------------------------------
// Digits
// ---------------------------------------------------------------------------

pub open spec fn is_digit(c: char) -> bool {
    48 <= c as u32 <= 57
}

pub open spec fn digit_val(c: char) -> int {
    c as u32 - 48
}

/// Every character of `s[a..b)` is a decimal digit.
pub open spec fn all_digits_range(s: Seq<char>, a: int, b: int) -> bool {
    forall|i: int| a <= i < b ==> is_digit(#[trigger] s[i])
}

/// The number denoted by the decimal digits `s[a..b)` (0 for the empty range).
pub open spec fn digits_val_range(s: Seq<char>, a: int, b: int) -> int
    decreases b - a,
{
    if b <= a {
        0
    } else {
        digits_val_range(s, a, b - 1) * 10 + digit_val(s[b - 1])
    }
}

pub proof fn lemma_digits_val_nonneg(s: Seq<char>, a: int, b: int)
    requires
        all_digits_range(s, a, b),
    ensures
        digits_val_range(s, a, b) >= 0,
    decreases b - a,
{
    if b > a {
        lemma_digits_val_nonneg(s, a, b - 1);
    }
}

/// A digit string only grows when digits are appended.
pub proof fn lemma_digits_val_mono(s: Seq<char>, a: int, b: int, b2: int)
    requires
        a <= b <= b2,
        all_digits_range(s, a, b2),
    ensures
        digits_val_range(s, a, b2) >= digits_val_range(s, a, b),
    decreases b2 - b,
{
    if b2 > b {
        lemma_digits_val_mono(s, a, b, b2 - 1);
        lemma_digits_val_nonneg(s, a, b2 - 1);
    }
}

/// Two digit runs starting at the same place and both ending at a non-digit
/// (or the end) are the same run.
pub proof fn lemma_digit_run_bound(s: Seq<char>, a: int, e: int, m: int)
    requires
        a <= e <= s.len(),
        all_digits_range(s, a, e),
        a <= m <= s.len(),
        all_digits_range(s, a, m),
        m == s.len() || !is_digit(s[m]),
    ensures
        e <= m,
{
    if e > m {
        assert(is_digit(s[m]));
    }
}

// ---------------------------------------------------------------------------
// The grammar, as a predicate over the character sequence
// ---------------------------------------------------------------------------

pub open spec fn kd_op_of(c1: char, c2: char) -> Option<KeepDrop> {
    if c1 == 'k' && c2 == 'h' {
        Some(KeepDrop::KeepHigh)
    } else if c1 == 'k' && c2 == 'l' {
        Some(KeepDrop::KeepLow)
    } else if c1 == 'd' && c2 == 'h' {
        Some(KeepDrop::DropHigh)
    } else if c1 == 'd' && c2 == 'l' {
        Some(KeepDrop::DropLow)
    } else {
        None
    }
}

pub open spec fn arith_op_of(c: char) -> Option<ArithOp> {
    if c == '+' {
        Some(ArithOp::Add)
    } else if c == '-' {
        Some(ArithOp::Sub)
    } else if c == '*' {
        Some(ArithOp::Mul)
    } else if c == '/' {
        Some(ArithOp::Div)
    } else {
        None
    }
}

/// The suffix of `s` starting at `p` is exactly an optional arithmetic token.
pub open spec fn arith_matches_at(s: Seq<char>, p: int, v: RollSpecV) -> bool {
    if p == s.len() {
        v.arith_op is None && v.arith_value == 0
    } else {
        &&& arith_op_of(s[p]) is Some
        &&& v.arith_op == arith_op_of(s[p])
        &&& p + 1 < s.len()
        &&& all_digits_range(s, p + 1, s.len() as int)
        &&& v.arith_value == digits_val_range(s, p + 1, s.len() as int)
    }
}

/// The suffix of `s` starting at `p` is an optional keep/drop token followed
/// by an optional arithmetic token.
pub open spec fn kd_matches_at(s: Seq<char>, p: int, v: RollSpecV) -> bool {
    if p + 2 <= s.len() && kd_op_of(s[p], s[p + 1]) is Some {
        &&& v.keep_drop_op == kd_op_of(s[p], s[p + 1])
        &&& exists|u: int|
            p + 2 <= u <= s.len() && all_digits_range(s, p + 2, u) && v.keep_drop_count == (
            if u == p + 2 {
                1
            } else {
                digits_val_range(s, p + 2, u)
            }) && #[trigger] arith_matches_at(s, u, v)
    } else {
        &&& v.keep_drop_op is None
        &&& v.keep_drop_count == 1
        &&& arith_matches_at(s, p, v)
    }
}

/// The suffix of `s` starting at `p` is the sides number followed by the
/// optional trailing tokens.
pub open spec fn sides_matches_at(s: Seq<char>, p: int, v: RollSpecV) -> bool {
    exists|t: int|
        p < t <= s.len() && all_digits_range(s, p, t) && v.sides == digits_val_range(s, p, t)
            && #[trigger] kd_matches_at(s, t, v)
}

/// The suffix of `s` starting at `p` is a whole roll body:
/// `[diceCount] "d" sides [keepDropToken] [arithmeticToken]`.
pub open spec fn body_matches_at(s: Seq<char>, p: int, v: RollSpecV) -> bool {
    exists|j: int|
        p <= j < s.len() && all_digits_range(s, p, j) && s[j] == 'd' && v.dice_count == (
        if j == p {
            1
        } else {
            digits_val_range(s, p, j)
        }) && #[trigger] sides_matches_at(s, j + 1, v)
}

/// `s` starts with a repetition prefix `digits "@"` whose `@` sits at `m`.
pub open spec fn count_prefix_at(s: Seq<char>, m: int) -> bool {
    1 <= m < s.len() && all_digits_range(s, 0, m) && s[m] == '@'
}

/// The whole expression `s` matches the grammar and `v` holds exactly the
/// extracted fields (defaults filled in for the missing groups).
pub open spec fn expr_matches(s: Seq<char>, v: RollSpecV) -> bool {
    if exists|m: int| #[trigger] count_prefix_at(s, m) {
        exists|m: int|
            #[trigger] count_prefix_at(s, m) && v.count == digits_val_range(s, 0, m)
                && body_matches_at(s, m + 1, v)
    } else {
        v.count == 1 && body_matches_at(s, 0, v)
    }
}

/// Where the roll body (the expression without its `count@` prefix) starts.
pub open spec fn spec_body_start(s: Seq<char>) -> int {
    if exists|m: int| #[trigger] count_prefix_at(s, m) {
        (choose|m: int| #[trigger] count_prefix_at(s, m)) + 1
    } else {
        0
    }
}

/// The sub-expression text a roll set reports: the expression without its
/// repetition prefix.
pub open spec fn body_of(s: Seq<char>) -> Seq<char> {
    s.subrange(spec_body_start(s), s.len() as int)
}

/// The configured hardening bounds on a parsed specification: they reject
/// degenerate dice (`sides = 0`) and resource-exhausting requests.
pub open spec fn spec_in_bounds(v: RollSpecV) -> bool {
    &&& v.count <= MAX_COUNT
    &&& v.dice_count <= MAX_DICE
    &&& 1 <= v.sides <= MAX_SIDES
    &&& v.keep_drop_count <= u32::MAX
    &&& v.arith_value <= u32::MAX
}

// ---------------------------------------------------------------------------
// Scanning helpers
// ---------------------------------------------------------------------------

/// Copies the characters of a string into a vector for O(1) indexing.
pub(crate) fn chars_of(s: &str) -> (r: Vec<char>)
    ensures
        r@ == s@,
{
    let n = s.unicode_len();
    let mut r: Vec<char> = Vec::new();
    let mut i: usize = 0;
    while i < n
        invariant
            i <= n,
            n == s@.len(),
            r@ == s@.subrange(0, i as int),
        decreases n - i,
    {
        r.push(s.get_char(i));
        i = i + 1;
        assert(r@ =~= s@.subrange(0, i as int));
    }
    assert(r@ =~= s@);
    r
}

fn is_digit_exec(c: char) -> (r: bool)
    ensures
        r == is_digit(c),
{
    let u = c as u32;
    48 <= u && u <= 57
}

/// Finds the end of the maximal digit run starting at `start`.
fn scan_digits(cs: &Vec<char>, start: usize) -> (end: usize)
    requires
        start <= cs@.len(),
    ensures
        start <= end <= cs@.len(),
        all_digits_range(cs@, start as int, end as int),
        end == cs@.len() || !is_digit(cs@[end as int]),
{
    let mut i = start;
    while i < cs.len() && is_digit_exec(cs[i])
        invariant
            start <= i <= cs@.len(),
            all_digits_range(cs@, start as int, i as int),
        decreases cs@.len() - i,
    {
        i = i + 1;
    }
    i
}

/// Converts the digit run `cs[start..end)` to a number, detecting overflow.
fn seg_value(cs: &Vec<char>, start: usize, end: usize) -> (r: Option<u32>)
    requires
        start <= end <= cs@.len(),
        all_digits_range(cs@, start as int, end as int),
    ensures
        match r {
            Some(x) => x as int == digits_val_range(cs@, start as int, end as int),
            None => digits_val_range(cs@, start as int, end as int) > u32::MAX,
        },
{
    let mut acc: u64 = 0;
    let mut i = start;
    while i < end
        invariant
            start <= i <= end <= cs@.len(),
            all_digits_range(cs@, start as int, end as int),
            acc as int == digits_val_range(cs@, start as int, i as int),
            acc <= u32::MAX as u64,
        decreases end - i,
    {
        let d = (cs[i] as u32) - 48;
        acc = acc * 10 + (d as u64);
        i = i + 1;
        if acc > u32::MAX as u64 {
            proof {
                lemma_digits_val_mono(cs@, start as int, i as int, end as int);
            }
            return None;
        }
    }
    Some(acc as u32)
}

fn kd_op_of_exec(c1: char, c2: char) -> (r: Option<KeepDrop>)
    ensures
        r == kd_op_of(c1, c2),
{
    if c1 == 'k' && c2 == 'h' {
        Some(KeepDrop::KeepHigh)
    } else if c1 == 'k' && c2 == 'l' {
        Some(KeepDrop::KeepLow)
    } else if c1 == 'd' && c2 == 'h' {
        Some(KeepDrop::DropHigh)
    } else if c1 == 'd' && c2 == 'l' {
        Some(KeepDrop::DropLow)
    } else {
        None
    }
}

fn arith_op_of_exec(c: char) -> (r: Option<ArithOp>)
    ensures
        r == arith_op_of(c),
{
    if c == '+' {
        Some(ArithOp::Add)
    } else if c == '-' {
        Some(ArithOp::Sub)
    } else if c == '*' {
        Some(ArithOp::Mul)
    } else if c == '/' {
        Some(ArithOp::Div)
    } else {
        None
    }
}

/// A digit is not an operator sign, not a `d`, and not a keep/drop letter.
proof fn lemma_digit_is_no_token(c: char)
    requires
        is_digit(c),
    ensures
        arith_op_of(c) is None,
        c != 'd',
        c != 'k',
        c != '@',
{
}

// ---------------------------------------------------------------------------
// Stage lemmas: at each stage of the expression the maximal digit run is the
// only decomposition the grammar allows.
// ---------------------------------------------------------------------------

/// After the maximal digit prefix `[0, m)`, either an `@` follows and the
/// repetition prefix is forced, or no repetition prefix can exist at all.
proof fn lemma_count_stage(s: Seq<char>, m: int)
    requires
        0 <= m <= s.len(),
        all_digits_range(s, 0, m),
        m == s.len() || !is_digit(s[m]),
    ensures
        (m < s.len() && s[m] == '@' && m >= 1) ==> count_prefix_at(s, m) && (forall|m2: int|
            #[trigger] count_prefix_at(s, m2) ==> m2 == m) && (forall|v: RollSpecV|
            #[trigger] expr_matches(s, v) <==> (v.count == digits_val_range(s, 0, m)
                && body_matches_at(s, m + 1, v))),
        !(m < s.len() && s[m] == '@' && m >= 1) ==> (forall|m2: int|
            !(#[trigger] count_prefix_at(s, m2))) && (forall|v: RollSpecV|
            #[trigger] expr_matches(s, v) <==> (v.count == 1 && body_matches_at(s, 0, v))),
{
    if m < s.len() && s[m] == '@' && m >= 1 {
        assert(count_prefix_at(s, m));
        assert forall|m2: int| #[trigger] count_prefix_at(s, m2) implies m2 == m by {
            lemma_digit_run_bound(s, 0, m2, m);
            if m2 < m {
                assert(is_digit(s[m2]));
                lemma_digit_is_no_token(s[m2]);
            }
        }
        assert forall|v: RollSpecV|
            #[trigger] expr_matches(s, v) <==> (v.count == digits_val_range(s, 0, m)
                && body_matches_at(s, m + 1, v)) by {
            if expr_matches(s, v) {
                let m2 = choose|m2: int|
                    #[trigger] count_prefix_at(s, m2) && v.count == digits_val_range(s, 0, m2)
                        && body_matches_at(s, m2 + 1, v);
                assert(m2 == m);
            }
            if v.count == digits_val_range(s, 0, m) && body_matches_at(s, m + 1, v) {
                assert(count_prefix_at(s, m) && v.count == digits_val_range(s, 0, m)
                    && body_matches_at(s, m + 1, v));
            }
        }
    } else {
        assert forall|m2: int| !(#[trigger] count_prefix_at(s, m2)) by {
            if count_prefix_at(s, m2) {
                lemma_digit_run_bound(s, 0, m2, m);
                if m2 < m {
                    assert(is_digit(s[m2]));
                    lemma_digit_is_no_token(s[m2]);
                }
            }
        }
    }
}

/// After the maximal digit run `[p, j)`, a `d` must follow; then the dice
/// count is forced, and the sides number starts right after the `d`.
proof fn lemma_dice_stage(s: Seq<char>, p: int, j: int)
    requires
        0 <= p <= j <= s.len(),
        all_digits_range(s, p, j),
        j == s.len() || !is_digit(s[j]),
    ensures
        (j < s.len() && s[j] == 'd') ==> (forall|v: RollSpecV|
            #[trigger] body_matches_at(s, p, v) <==> (v.dice_count == (
            if j == p {
                1
            } else {
                digits_val_range(s, p, j)
            }) && sides_matches_at(s, j + 1, v))),
        !(j < s.len() && s[j] == 'd') ==> (forall|v: RollSpecV|
            !(#[trigger] body_matches_at(s, p, v))),
{
    assert forall|j2: int|
        p <= j2 < s.len() && all_digits_range(s, p, j2) && s[j2] == 'd' implies j2 == j && j
        < s.len() && s[j] == 'd' by {
        assert(!is_digit(s[j2])) by {
            if is_digit(s[j2]) {
                lemma_digit_is_no_token(s[j2]);
            }
        };
        lemma_digit_run_bound(s, p, j2, j);
        if j2 < j {
            assert(is_digit(s[j2]));
        }
    }
    if j < s.len() && s[j] == 'd' {
        assert forall|v: RollSpecV|
            #[trigger] body_matches_at(s, p, v) <==> (v.dice_count == (
            if j == p {
                1
            } else {
                digits_val_range(s, p, j)
            }) && sides_matches_at(s, j + 1, v)) by {
            if body_matches_at(s, p, v) {
                let j2 = choose|j2: int|
                    p <= j2 < s.len() && all_digits_range(s, p, j2) && s[j2] == 'd'
                        && v.dice_count == (
                    if j2 == p {
                        1
                    } else {
                        digits_val_range(s, p, j2)
                    }) && #[trigger] sides_matches_at(s, j2 + 1, v);
                assert(j2 == j);
            }
            if v.dice_count == (
            if j == p {
                1
            } else {
                digits_val_range(s, p, j)
            }) && sides_matches_at(s, j + 1, v) {
                assert(p <= j < s.len() && all_digits_range(s, p, j) && s[j] == 'd'
                    && v.dice_count == (
                if j == p {
                    1
                } else {
                    digits_val_range(s, p, j)
                }) && sides_matches_at(s, j + 1, v));
            }
        }
    } else {
        assert forall|v: RollSpecV| !(#[trigger] body_matches_at(s, p, v)) by {
            if body_matches_at(s, p, v) {
                let j2 = choose|j2: int|
                    p <= j2 < s.len() && all_digits_range(s, p, j2) && s[j2] == 'd'
                        && v.dice_count == (
                    if j2 == p {
                        1
                    } else {
                        digits_val_range(s, p, j2)
                    }) && #[trigger] sides_matches_at(s, j2 + 1, v);
            }
        }
    }
}

/// The sides number is the maximal digit run after the `d`, and it may not be
/// empty: a shorter run would leave a digit where only a keep/drop letter, an
/// operator sign or the end of the expression may stand.
proof fn lemma_sides_stage(s: Seq<char>, p: int, t: int)
    requires
        0 <= p <= t <= s.len(),
        all_digits_range(s, p, t),
        t == s.len() || !is_digit(s[t]),
    ensures
        (t > p) ==> (forall|v: RollSpecV|
            #[trigger] sides_matches_at(s, p, v) <==> (v.sides == digits_val_range(s, p, t)
                && kd_matches_at(s, t, v))),
        (t == p) ==> (forall|v: RollSpecV| !(#[trigger] sides_matches_at(s, p, v))),
{
    assert forall|v: RollSpecV, t2: int|
        p < t2 <= s.len() && all_digits_range(s, p, t2) && #[trigger] kd_matches_at(s, t2, v)
            implies t2 == t by {
        lemma_digit_run_bound(s, p, t2, t);
        if t2 < t {
            assert(is_digit(s[t2]));
            lemma_digit_is_no_token(s[t2]);
            assert(s[t2] != 'k' && s[t2] != 'd');
            assert(kd_op_of(s[t2], s[t2 + 1]) is None);
            assert(arith_matches_at(s, t2, v));
            assert(arith_op_of(s[t2]) is Some);
        }
    }
    if t > p {
        assert forall|v: RollSpecV|
            #[trigger] sides_matches_at(s, p, v) <==> (v.sides == digits_val_range(s, p, t)
                && kd_matches_at(s, t, v)) by {
            if sides_matches_at(s, p, v) {
                let t2 = choose|t2: int|
                    p < t2 <= s.len() && all_digits_range(s, p, t2) && v.sides
                        == digits_val_range(s, p, t2) && #[trigger] kd_matches_at(s, t2, v);
                assert(t2 == t);
            }
            if v.sides == digits_val_range(s, p, t) && kd_matches_at(s, t, v) {
                assert(p < t <= s.len() && all_digits_range(s, p, t) && v.sides
                    == digits_val_range(s, p, t) && kd_matches_at(s, t, v));
            }
        }
    } else {
        assert forall|v: RollSpecV| !(#[trigger] sides_matches_at(s, p, v)) by {
            if sides_matches_at(s, p, v) {
                let t2 = choose|t2: int|
                    p < t2 <= s.len() && all_digits_range(s, p, t2) && v.sides
                        == digits_val_range(s, p, t2) && #[trigger] kd_matches_at(s, t2, v);
            }
        }
    }
}

/// After a keep/drop operator the optional count is the maximal digit run
/// starting at `p`; a shorter run would leave a digit where only an operator
/// sign or the end may stand.
proof fn lemma_kdcount_stage(s: Seq<char>, p: int, u: int)
    requires
        0 <= p <= u <= s.len(),
        all_digits_range(s, p, u),
        u == s.len() || !is_digit(s[u]),
    ensures
        forall|v: RollSpecV|
            (exists|u2: int|
                p <= u2 <= s.len() && all_digits_range(s, p, u2) && v.keep_drop_count == (
                if u2 == p {
                    1
                } else {
                    digits_val_range(s, p, u2)
                }) && #[trigger] arith_matches_at(s, u2, v)) <==> (v.keep_drop_count == (
            if u == p {
                1
            } else {
                digits_val_range(s, p, u)
            }) && #[trigger] arith_matches_at(s, u, v)),
{
    assert forall|v: RollSpecV, u2: int|
        p <= u2 <= s.len() && all_digits_range(s, p, u2) && #[trigger] arith_matches_at(s, u2, v)
            implies u2 == u by {
        lemma_digit_run_bound(s, p, u2, u);
        if u2 < u {
            assert(is_digit(s[u2]));
            lemma_digit_is_no_token(s[u2]);
        }
    }
    assert forall|v: RollSpecV|
        (exists|u2: int|
            p <= u2 <= s.len() && all_digits_range(s, p, u2) && v.keep_drop_count == (
            if u2 == p {
                1
            } else {
                digits_val_range(s, p, u2)
            }) && #[trigger] arith_matches_at(s, u2, v)) <==> (v.keep_drop_count == (
        if u == p {
            1
        } else {
            digits_val_range(s, p, u)
        }) && #[trigger] arith_matches_at(s, u, v)) by {
        if exists|u2: int|
            p <= u2 <= s.len() && all_digits_range(s, p, u2) && v.keep_drop_count == (
            if u2 == p {
                1
            } else {
                digits_val_range(s, p, u2)
            }) && #[trigger] arith_matches_at(s, u2, v) {
            let u2 = choose|u2: int|
                p <= u2 <= s.len() && all_digits_range(s, p, u2) && v.keep_drop_count == (
                if u2 == p {
                    1
                } else {
                    digits_val_range(s, p, u2)
                }) && #[trigger] arith_matches_at(s, u2, v);
            assert(u2 == u);
        }
        if v.keep_drop_count == (
        if u == p {
            1
        } else {
            digits_val_range(s, p, u)
        }) && arith_matches_at(s, u, v) {
            assert(p <= u <= s.len() && all_digits_range(s, p, u) && v.keep_drop_count == (
            if u == p {
                1
            } else {
                digits_val_range(s, p, u)
            }) && arith_matches_at(s, u, v));
        }
    }
}

// ---------------------------------------------------------------------------
// The parser
// ---------------------------------------------------------------------------

/// Parses a character vector; on success also reports where the roll body
/// (the expression without its `count@` prefix) starts.
#[verifier::rlimit(100)]
pub(crate) fn parse_at(cs: &Vec<char>) -> (r: Result<(RollSpec, usize), RollError>)
    ensures
        (match r {
            Ok(p) => expr_matches(cs@, p.0@) && spec_in_bounds(p.0@) && p.1 as int
                == spec_body_start(cs@) && p.1 <= cs@.len(),
            Err(RollError::ParseError) => forall|v: RollSpecV| !expr_matches(cs@, v),
            Err(RollError::ValidationError) => exists|v: RollSpecV|
                expr_matches(cs@, v) && !spec_in_bounds(v),
        }),
        (exists|v: RollSpecV| expr_matches(cs@, v) && spec_in_bounds(v)) ==> r is Ok,
{
    let ghost s = cs@;
    let n = cs.len();

    // Repetition prefix `count@`.
    let m = scan_digits(cs, 0);
    proof {
        lemma_count_stage(s, m as int);
    }
    let has_count = m < n && m >= 1 && cs[m] == '@';
    let body_pos: usize = if has_count {
        m + 1
    } else {
        0
    };
    let ghost cval: int = if has_count {
        digits_val_range(s, 0, m as int)
    } else {
        1
    };
    assert(forall|v: RollSpecV|
        #[trigger] expr_matches(s, v) <==> (v.count == cval && body_matches_at(
            s,
            body_pos as int,
            v,
        )));
    assert(spec_body_start(s) == body_pos as int) by {
        if has_count {
            let m2 = choose|m2: int| #[trigger] count_prefix_at(s, m2);
            assert(count_prefix_at(s, m as int));
            assert(m2 == m as int);
        }
    };

    // Dice count and the mandatory `d`.
    let j = scan_digits(cs, body_pos);
    proof {
        lemma_dice_stage(s, body_pos as int, j as int);
    }
    if j == n || cs[j] != 'd' {
        return Err(RollError::ParseError);
    }
    let ghost dval: int = if j == body_pos {
        1
    } else {
        digits_val_range(s, body_pos as int, j as int)
    };
    assert(forall|v: RollSpecV|
        #[trigger] expr_matches(s, v) <==> (v.count == cval && v.dice_count == dval
            && sides_matches_at(s, j as int + 1, v)));

    // Sides.
    let t = scan_digits(cs, j + 1);
    proof {
        lemma_sides_stage(s, j as int + 1, t as int);
    }
    if t == j + 1 {
        return Err(RollError::ParseError);
    }
    let ghost sval: int = digits_val_range(s, j as int + 1, t as int);
    assert(forall|v: RollSpecV|
        #[trigger] expr_matches(s, v) <==> (v.count == cval && v.dice_count == dval && v.sides
            == sval && kd_matches_at(s, t as int, v)));

    // Optional keep/drop token.
    let mut pos = t;
    let mut kd_op: Option<KeepDrop> = None;
    let ghost mut kdval: int = 1;
    let mut kd_num: Option<u32> = Some(1);
    if n - pos >= 2 {
        let kop = kd_op_of_exec(cs[pos], cs[pos + 1]);
        if kop.is_some() {
            kd_op = kop;
            let u = scan_digits(cs, pos + 2);
            proof {
                lemma_kdcount_stage(s, pos as int + 2, u as int);
                kdval = if u == pos + 2 {
                    1int
                } else {
                    digits_val_range(s, pos as int + 2, u as int)
                };
            }
            kd_num = if u == pos + 2 {
                Some(1)
            } else {
                seg_value(cs, pos + 2, u)
            };
            pos = u;
        }
    }
    assert(forall|v: RollSpecV|
        #[trigger] expr_matches(s, v) <==> (v.count == cval && v.dice_count == dval && v.sides
            == sval && v.keep_drop_op == kd_op && v.keep_drop_count == kdval && arith_matches_at(
            s,
            pos as int,
            v,
        )));

    // Optional arithmetic token.
    let mut ar_op: Option<ArithOp> = None;
    let ghost mut aval: int = 0;
    let mut ar_num: Option<u32> = Some(0);
    if pos < n {
        let a = arith_op_of_exec(cs[pos]);
        if a.is_none() {
            return Err(RollError::ParseError);
        }
        let w = scan_digits(cs, pos + 1);
        if w == pos + 1 || w < n {
            assert(!all_digits_range(s, pos as int + 1, n as int) || !(pos as int + 1 < n));
            return Err(RollError::ParseError);
        }
        ar_op = a;
        proof {
            aval = digits_val_range(s, pos as int + 1, n as int);
        }
        ar_num = seg_value(cs, pos + 1, w);
    }
    assert(forall|v: RollSpecV|
        #[trigger] expr_matches(s, v) <==> (v.count == cval && v.dice_count == dval && v.sides
            == sval && v.keep_drop_op == kd_op && v.keep_drop_count == kdval && v.arith_op == ar_op
            && v.arith_value == aval));
    let ghost vstar = RollSpecV {
        count: cval,
        dice_count: dval,
        sides: sval,
        keep_drop_op: kd_op,
        keep_drop_count: kdval,
        arith_op: ar_op,
        arith_value: aval,
    };
    assert(expr_matches(s, vstar));

    // Numeric conversion and bounds checking.
    let c_num: Option<u32> = if has_count {
        seg_value(cs, 0, m)
    } else {
        Some(1)
    };
    let d_num: Option<u32> = if j == body_pos {
        Some(1)
    } else {
        seg_value(cs, body_pos, j)
    };
    let s_num: Option<u32> = seg_value(cs, j + 1, t);
    if c_num.is_none() || d_num.is_none() || s_num.is_none() || kd_num.is_none()
        || ar_num.is_none() {
        assert(!spec_in_bounds(vstar));
        return Err(RollError::ValidationError);
    }
    let cv = c_num.unwrap();
    let dv = d_num.unwrap();
    let sv = s_num.unwrap();
    let kv = kd_num.unwrap();
    let av = ar_num.unwrap();
    if cv > MAX_COUNT || dv > MAX_DICE || sv == 0 || sv > MAX_SIDES {
        assert(!spec_in_bounds(vstar));
        return Err(RollError::ValidationError);
    }
    let rs = RollSpec {
        count: cv,
        dice_count: dv,
        sides: sv,
        keep_drop_op: kd_op,
        keep_drop_count: kv,
        arith_op: ar_op,
        arith_value: av,
    };
    assert(expr_matches(s, rs@));
    Ok((rs, body_pos))
}

/// Parses a dice-notation expression.
///
/// Returns the extracted specification on success; `ParseError` exactly when
/// the expression does not match the grammar; `ValidationError` exactly when
/// it matches the grammar but a parameter is out of bounds.
pub fn parse(expression: &str) -> (r: Result<RollSpec, RollError>)
    ensures
        (match r {
            Ok(rs) => expr_matches(expression@, rs@) && spec_in_bounds(rs@),
            Err(RollError::ParseError) => forall|v: RollSpecV| !expr_matches(expression@, v),
            Err(RollError::ValidationError) => exists|v: RollSpecV|
                expr_matches(expression@, v) && !spec_in_bounds(v),
        }),
        (exists|v: RollSpecV| expr_matches(expression@, v) && spec_in_bounds(v)) ==> r is Ok,
{
    let cs = chars_of(expression);
    match parse_at(&cs) {
        Ok(p) => Ok(p.0),
        Err(e) => Err(e),
    }
}

/// The grammar is unambiguous: an expression determines every extracted
/// field, so whatever [`parse`] returns is the only reading of its input.
pub proof fn lemma_expr_matches_unique(s: Seq<char>, v1: RollSpecV, v2: RollSpecV)
    requires
        expr_matches(s, v1),
        expr_matches(s, v2),
    ensures
        v1 == v2,
{
    assert forall|a: int, b: int|
        0 <= a <= s.len() && 0 <= b <= s.len() && all_digits_range(s, 0, a) && all_digits_range(
            s,
            0,
            b,
        ) && a < s.len() && b < s.len() && s[a] == '@' && s[b] == '@' implies a == b by {
        if a < b {
            assert(is_digit(s[a]));
            lemma_digit_is_no_token(s[a]);
        }
        if b < a {
            assert(is_digit(s[b]));
            lemma_digit_is_no_token(s[b]);
        }
    }
    let p: int = if exists|m: int| #[trigger] count_prefix_at(s, m) {
        let m1 = choose|m: int|
            #[trigger] count_prefix_at(s, m) && v1.count == digits_val_range(s, 0, m)
                && body_matches_at(s, m + 1, v1);
        let m2 = choose|m: int|
            #[trigger] count_prefix_at(s, m) && v2.count == digits_val_range(s, 0, m)
                && body_matches_at(s, m + 1, v2);
        assert(m1 == m2);
        m1 + 1
    } else {
        0
    };
    assert(v1.count == v2.count);
    assert(body_matches_at(s, p, v1) && body_matches_at(s, p, v2));

    let j1 = choose|j: int|
        p <= j < s.len() && all_digits_range(s, p, j) && s[j] == 'd' && v1.dice_count == (
        if j == p {
            1
        } else {
            digits_val_range(s, p, j)
        }) && #[trigger] sides_matches_at(s, j + 1, v1);
    let j2 = choose|j: int|
        p <= j < s.len() && all_digits_range(s, p, j) && s[j] == 'd' && v2.dice_count == (
        if j == p {
            1
        } else {
            digits_val_range(s, p, j)
        }) && #[trigger] sides_matches_at(s, j + 1, v2);
    assert(j1 == j2) by {
        if j1 < j2 {
            assert(is_digit(s[j1]));
            lemma_digit_is_no_token(s[j1]);
        }
        if j2 < j1 {
            assert(is_digit(s[j2]));
            lemma_digit_is_no_token(s[j2]);
        }
    };
    let j = j1;
    assert(v1.dice_count == v2.dice_count);

    let t1 = choose|t: int|
        j + 1 < t <= s.len() && all_digits_range(s, j + 1, t) && v1.sides == digits_val_range(
            s,
            j + 1,
            t,
        ) && #[trigger] kd_matches_at(s, t, v1);
    let t2 = choose|t: int|
        j + 1 < t <= s.len() && all_digits_range(s, j + 1, t) && v2.sides == digits_val_range(
            s,
            j + 1,
            t,
        ) && #[trigger] kd_matches_at(s, t, v2);
    assert(t1 == t2) by {
        if t1 < t2 {
            assert(is_digit(s[t1]));
            lemma_digit_is_no_token(s[t1]);
            assert(arith_matches_at(s, t1, v1));
        }
        if t2 < t1 {
            assert(is_digit(s[t2]));
            lemma_digit_is_no_token(s[t2]);
            assert(arith_matches_at(s, t2, v2));
        }
    };
    let t = t1;
    assert(v1.sides == v2.sides);

    let q: int = if t + 2 <= s.len() && kd_op_of(s[t], s[t + 1]) is Some {
        let u1 = choose|u: int|
            t + 2 <= u <= s.len() && all_digits_range(s, t + 2, u) && v1.keep_drop_count == (
            if u == t + 2 {
                1
            } else {
                digits_val_range(s, t + 2, u)
            }) && #[trigger] arith_matches_at(s, u, v1);
        let u2 = choose|u: int|
            t + 2 <= u <= s.len() && all_digits_range(s, t + 2, u) && v2.keep_drop_count == (
            if u == t + 2 {
                1
            } else {
                digits_val_range(s, t + 2, u)
            }) && #[trigger] arith_matches_at(s, u, v2);
        assert(u1 == u2) by {
            if u1 < u2 {
                assert(is_digit(s[u1]));
                lemma_digit_is_no_token(s[u1]);
            }
            if u2 < u1 {
                assert(is_digit(s[u2]));
                lemma_digit_is_no_token(s[u2]);
            }
        };
        u1
    } else {
        t
    };
    assert(v1.keep_drop_op == v2.keep_drop_op && v1.keep_drop_count == v2.keep_drop_count);
    assert(arith_matches_at(s, q, v1) && arith_matches_at(s, q, v2));
    assert(v1.arith_op == v2.arith_op && v1.arith_value == v2.arith_value);
    assert(v1 =~= v2);
}

} // verus!
