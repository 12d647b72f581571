//! The constraint parser: reduces an input field's `range`/`min`/`max` to an
//! inclusive `[lo, hi]` interval of signed 64-bit integers.
//!
//! A `range` string is a list of tokens separated by `,` or `&`; each token is
//! an operator (`<=`, `>=`, `<`, `>`, `==`, two-character operators first)
//! followed by optional whitespace and an optionally-signed decimal integer.
//! Tokens narrow the interval; `==` overrides it; an interval left empty is an
//! error, as is a token outside the grammar.

use vstd::prelude::*;

use crate::config::InputSpec;
use crate::config::Problem;

verus! {

/// The interval parsed out of one input field. Invariant: `min <= max`.
#[derive(Clone)]
pub struct ParsedInput {
    pub min: i64,
    pub max: i64,
}

/// A comparison operator of the range grammar; `Exact` is `==`.
#[derive(Clone, Copy)]
pub enum RangeOp {
    Lt,
    Le,
    Gt,
    Ge,
    Exact,
}

/// Byte defaults when neither `min`/`max` nor `range` narrows a side.
pub const DEFAULT_LO: i64 = -100;

/// See `DEFAULT_LO`.
pub const DEFAULT_HI: i64 = 100;

/// Token separators: `,` and `&`.
pub open spec fn is_sep(b: u8) -> bool {
    b == 44 || b == 38
}

/// ASCII whitespace as the range grammar knows it.
pub open spec fn is_space(b: u8) -> bool {
    b == 32 || (9 <= b && b <= 13)
}

/// ASCII decimal digit.
pub open spec fn is_digit(b: u8) -> bool {
    48 <= b && b <= 57
}

/// The sequence with its leading whitespace removed.
pub open spec fn trim_start(s: Seq<u8>) -> Seq<u8>
    decreases s.len(),
{
    if s.len() > 0 && is_space(s[0]) {
        trim_start(s.skip(1))
    } else {
        s
    }
}

/// The sequence with its trailing whitespace removed.
pub open spec fn trim_end(s: Seq<u8>) -> Seq<u8>
    decreases s.len(),
{
    if s.len() > 0 && is_space(s.last()) {
        trim_end(s.drop_last())
    } else {
        s
    }
}

/// The sequence with whitespace removed from both ends.
pub open spec fn trim(s: Seq<u8>) -> Seq<u8> {
    trim_end(trim_start(s))
}

/// Index of the first separator, or the length when there is none.
pub open spec fn first_sep(s: Seq<u8>) -> int
    decreases s.len(),
{
    if s.len() == 0 {
        0
    } else if is_sep(s[0]) {
        0
    } else {
        1 + first_sep(s.skip(1))
    }
}

/// The numeric value of a digit string, most significant digit first.
pub open spec fn digits_val(d: Seq<u8>) -> int
    decreases d.len(),
{
    if d.len() == 0 {
        0
    } else {
        digits_val(d.drop_last()) * 10 + (d.last() - 48)
    }
}

/// Every byte is a decimal digit.
pub open spec fn all_digits(d: Seq<u8>) -> bool {
    forall|i: int| 0 <= i < d.len() ==> is_digit(d[i])
}

/// The value of an optionally-signed, non-empty digit string; `None` when the
/// shape is wrong.
pub open spec fn num_val(u: Seq<u8>) -> Option<int> {
    if u.len() > 0 && u[0] == 45 {
        let d = u.skip(1);
        if d.len() > 0 && all_digits(d) {
            Some(-digits_val(d))
        } else {
            None
        }
    } else if u.len() > 0 && all_digits(u) {
        Some(digits_val(u))
    } else {
        None
    }
}

/// The operator at the head of a trimmed token and how many bytes it spans;
/// two-character operators are matched first.
pub open spec fn tok_op(t: Seq<u8>) -> Option<(RangeOp, int)> {
    if t.len() >= 2 && t[0] == 60 && t[1] == 61 {
        Some((RangeOp::Le, 2))
    } else if t.len() >= 2 && t[0] == 62 && t[1] == 61 {
        Some((RangeOp::Ge, 2))
    } else if t.len() >= 2 && t[0] == 61 && t[1] == 61 {
        Some((RangeOp::Exact, 2))
    } else if t.len() >= 1 && t[0] == 60 {
        Some((RangeOp::Lt, 1))
    } else if t.len() >= 1 && t[0] == 62 {
        Some((RangeOp::Gt, 1))
    } else {
        None
    }
}

/// Parse of one trimmed, non-empty token: operator, optional whitespace, and
/// a signed decimal that must fit in an `i64`.
pub open spec fn parse_tok(t: Seq<u8>) -> Option<(RangeOp, i64)> {
    match tok_op(t) {
        None => None,
        Some((op, k)) => match num_val(trim_start(t.skip(k))) {
            None => None,
            Some(v) => if i64::MIN <= v <= i64::MAX {
                Some((op, v as i64))
            } else {
                None
            },
        },
    }
}

/// One token applied to an interval. Every operator but `==` only narrows.
pub open spec fn apply_op(lo: int, hi: int, op: RangeOp, v: int) -> (int, int) {
    match op {
        RangeOp::Gt => (if v + 1 > lo { v + 1 } else { lo }, hi),
        RangeOp::Ge => (if v > lo { v } else { lo }, hi),
        RangeOp::Lt => (lo, if v - 1 < hi { v - 1 } else { hi }),
        RangeOp::Le => (lo, if v < hi { v } else { hi }),
        RangeOp::Exact => (v, v),
    }
}

/// The first separator index lies within the sequence.
pub proof fn lemma_first_sep_range(s: Seq<u8>)
    ensures
        0 <= first_sep(s) <= s.len(),
        first_sep(s) < s.len() ==> is_sep(s[first_sep(s)]),
        forall|i: int| 0 <= i < first_sep(s) ==> !is_sep(s[i]),
    decreases s.len(),
{
    if s.len() > 0 && !is_sep(s[0]) {
        lemma_first_sep_range(s.skip(1));
        assert forall|i: int| 0 <= i < first_sep(s) implies !is_sep(s[i]) by {
            if i >= 1 {
                assert(s[i] == s.skip(1)[i - 1]);
            }
        }
    }
}

/// The whole range string folded over a starting interval: `None` when some
/// token is outside the grammar, else the final (possibly empty) interval.
pub open spec fn fold_range(lo: int, hi: int, s: Seq<u8>) -> Option<(int, int)>
    decreases s.len(),
    via fold_range_dec
{
    let k = first_sep(s);
    let t = trim(s.take(k));
    let step = if t.len() == 0 {
        Some((lo, hi))
    } else {
        match parse_tok(t) {
            None => None,
            Some((op, v)) => Some(apply_op(lo, hi, op, v as int)),
        }
    };
    match step {
        None => None,
        Some((lo2, hi2)) => if k == s.len() {
            Some((lo2, hi2))
        } else {
            fold_range(lo2, hi2, s.skip(k + 1))
        },
    }
}

#[via_fn]
proof fn fold_range_dec(lo: int, hi: int, s: Seq<u8>) {
    lemma_first_sep_range(s);
}

/// Law: a tighter range never widens the interval. Extending a range string
/// that folds successfully by one more narrowing token `t` (any operator but
/// `==`, which overrides rather than narrows) yields the old interval with
/// that token applied, and the new interval never reaches below the old lower
/// bound nor above the old upper bound. A range left contradictory by the
/// extra token folds to an empty interval, which `parse_bounds` rejects.
pub proof fn lemma_tighter_range_narrows(
    lo: int,
    hi: int,
    s: Seq<u8>,
    sep: u8,
    t: Seq<u8>,
    op: RangeOp,
    v: i64,
)
    requires
        is_sep(sep),
        forall|i: int| 0 <= i < t.len() ==> !is_sep(t[i]),
        parse_tok(trim(t)) == Some((op, v)),
        !(op is Exact),
        fold_range(lo, hi, s) is Some,
    ensures
        ({
            let prev = fold_range(lo, hi, s)->Some_0;
            let r = fold_range(lo, hi, s + seq![sep] + t);
            &&& r == Some(apply_op(prev.0, prev.1, op, v as int))
            &&& r->Some_0.0 >= prev.0
            &&& r->Some_0.1 <= prev.1
        }),
    decreases s.len(),
{
    let u = s + seq![sep] + t;
    lemma_first_sep_range(s);
    let k = first_sep(s);
    if k < s.len() {
        assert(forall|i: int| 0 <= i < k ==> u[i] == s[i]);
        assert(u[k] == s[k]);
        lemma_first_sep_at(u, k);
        assert(u.take(k) =~= s.take(k));
        let tk = trim(s.take(k));
        let step = if tk.len() == 0 {
            Some((lo, hi))
        } else {
            match parse_tok(tk) {
                None => None,
                Some((op2, v2)) => Some(apply_op(lo, hi, op2, v2 as int)),
            }
        };
        assert(step is Some);
        let (lo2, hi2) = step->Some_0;
        assert(fold_range(lo, hi, s) == fold_range(lo2, hi2, s.skip(k + 1)));
        assert(u.skip(k + 1) =~= s.skip(k + 1) + seq![sep] + t);
        assert(forall|i: int| 0 <= i < s.skip(k + 1).len() ==> #[trigger] s.skip(k + 1)[i] == s[k
            + 1 + i]);
        lemma_tighter_range_narrows(lo2, hi2, s.skip(k + 1), sep, t, op, v);
        assert(trim(u.take(k)) == trim(s.take(k)));
        assert(k < u.len());
        assert(fold_range(lo, hi, u) == fold_range(lo2, hi2, u.skip(k + 1)));
    } else {
        assert(forall|i: int| 0 <= i < s.len() ==> u[i] == s[i] && !is_sep(u[i]));
        assert(u[s.len() as int] == sep);
        lemma_first_sep_at(u, s.len() as int);
        assert(u.take(s.len() as int) =~= s);
        assert(u.skip(s.len() as int + 1) =~= t);
        let prev = fold_range(lo, hi, s)->Some_0;
        assert(trim(u.take(s.len() as int)) == trim(s.take(first_sep(s)))) by {
            assert(s.take(first_sep(s)) =~= s);
        }
        assert(fold_range(lo, hi, u) == fold_range(prev.0, prev.1, u.skip(s.len() as int + 1)));
        lemma_first_sep_at(t, t.len() as int);
        assert(t.take(t.len() as int) =~= t);
        assert(fold_range(prev.0, prev.1, t) == Some(apply_op(prev.0, prev.1, op, v as int)));
    }
}

/// The lower bound before the range string is applied.
pub open spec fn start_lo(s: InputSpec) -> int {
    match s.min {
        Some(m) => m as int,
        None => DEFAULT_LO as int,
    }
}

/// The upper bound before the range string is applied.
pub open spec fn start_hi(s: InputSpec) -> int {
    match s.max {
        Some(m) => m as int,
        None => DEFAULT_HI as int,
    }
}

/// The interval an input spec denotes, before the emptiness check; `None`
/// when a range token is outside the grammar.
pub open spec fn spec_bounds(s: InputSpec) -> Option<(int, int)> {
    match s.range {
        Some(r) => fold_range(start_lo(s), start_hi(s), r@),
        None => Some((start_lo(s), start_hi(s))),
    }
}

/// The byte string `integer`, the only supported input kind.
pub open spec fn integer_kind() -> Seq<u8> {
    seq![105u8, 110u8, 116u8, 101u8, 103u8, 101u8, 114u8]
}

/// An input spec that parses to a non-empty interval of the `integer` kind.
pub open spec fn spec_input_ok(s: InputSpec) -> bool {
    &&& s.kind@ == integer_kind()
    &&& match spec_bounds(s) {
        Some((lo, hi)) => lo <= hi,
        None => false,
    }
}

/// The interval of an input spec for which `spec_input_ok` holds.
pub open spec fn spec_interval(s: InputSpec) -> (int, int)
    recommends
        spec_bounds(s) is Some,
{
    spec_bounds(s)->Some_0
}

/// Why `parse_bounds` rejected a spec.
#[derive(Debug)]
pub enum BoundsError {
    /// Some range token is outside the `op value` grammar.
    UnsupportedToken,
    /// The constraints contradict each other: the folded interval is empty.
    /// The bounds are wide integers because a `>` on the largest value pushes
    /// the lower bound past the 64-bit range before the check fires.
    EmptyInterval { lo: i128, hi: i128 },
}

/// Why `parse_problem_inputs` rejected a problem section.
#[derive(Debug)]
pub enum InputsError {
    /// `problem.inputs` is empty.
    NoInputs,
    /// The input at this position is not of the `integer` kind.
    NonIntegerKind { index: usize },
    /// The input at this position has a bad range.
    Bounds { index: usize, err: BoundsError },
}

proof fn lemma_trim_start_skip(t: Seq<u8>, j: int)
    requires
        0 <= j <= t.len(),
        forall|i: int| 0 <= i < j ==> is_space(t[i]),
        j == t.len() || !is_space(t[j]),
    ensures
        trim_start(t) == t.skip(j),
    decreases j,
{
    if j == 0 {
        assert(t.skip(0) =~= t);
    } else {
        assert(is_space(t[0]));
        lemma_trim_start_skip(t.skip(1), j - 1);
        assert(t.skip(1).skip(j - 1) =~= t.skip(j));
    }
}

proof fn lemma_trim_end_take(t: Seq<u8>, j: int)
    requires
        0 <= j <= t.len(),
        forall|i: int| j <= i < t.len() ==> is_space(t[i]),
        j == 0 || !is_space(t[j - 1]),
    ensures
        trim_end(t) == t.take(j),
    decreases t.len() - j,
{
    if j == t.len() {
        if t.len() > 0 {
            assert(!is_space(t.last()));
        }
        assert(t.take(j) =~= t);
    } else {
        assert(is_space(t.last()));
        assert(t.drop_last() =~= t.take(t.len() - 1));
        lemma_trim_end_take(t.drop_last(), j);
        assert(t.drop_last().take(j) =~= t.take(j));
    }
}

proof fn lemma_first_sep_at(s: Seq<u8>, k: int)
    requires
        0 <= k <= s.len(),
        forall|i: int| 0 <= i < k ==> !is_sep(s[i]),
        k == s.len() || is_sep(s[k]),
    ensures
        first_sep(s) == k,
    decreases k,
{
    if k == 0 {
    } else {
        assert(!is_sep(s[0]));
        lemma_first_sep_at(s.skip(1), k - 1);
    }
}

proof fn lemma_digits_val_nonneg(d: Seq<u8>)
    requires
        all_digits(d),
    ensures
        digits_val(d) >= 0,
    decreases d.len(),
{
    if d.len() > 0 {
        assert(all_digits(d.drop_last())) by {
            assert(forall|i: int| 0 <= i < d.len() - 1 ==> is_digit(#[trigger] d.drop_last()[i]));
        }
        lemma_digits_val_nonneg(d.drop_last());
    }
}

proof fn lemma_digits_val_prefix(d: Seq<u8>, i: int)
    requires
        all_digits(d),
        0 <= i <= d.len(),
    ensures
        digits_val(d) >= digits_val(d.take(i)),
        digits_val(d.take(i)) >= 0,
    decreases d.len() - i,
{
    assert(all_digits(d.take(i))) by {
        assert(forall|j: int| 0 <= j < i ==> is_digit(#[trigger] d.take(i)[j]));
    }
    lemma_digits_val_nonneg(d.take(i));
    if i == d.len() {
        assert(d.take(i) =~= d);
    } else {
        lemma_digits_val_prefix(d, i + 1);
        assert(d.take(i + 1).drop_last() =~= d.take(i));
        assert(d.take(i + 1).last() == d[i]);
        assert(digits_val(d.take(i + 1)) == digits_val(d.take(i)) * 10 + (d[i] - 48));
        assert(digits_val(d.take(i)) * 10 >= digits_val(d.take(i))) by {
            lemma_digits_val_nonneg(d.take(i));
        }
    }
}

/// True iff `b` is a `,` or `&` separator.
fn sep_byte(b: u8) -> (r: bool)
    ensures
        r == is_sep(b),
{
    b == 44 || b == 38
}

/// True iff `b` is whitespace for the range grammar.
fn space_byte(b: u8) -> (r: bool)
    ensures
        r == is_space(b),
{
    b == 32 || (9 <= b && b <= 13)
}

/// True iff `b` is an ASCII digit.
fn digit_byte(b: u8) -> (r: bool)
    ensures
        r == is_digit(b),
{
    48 <= b && b <= 57
}

/// Trims whitespace from both ends of `s[from..to]`, returning the trimmed
/// half-open index range.
#[verifier::loop_isolation(false)]
pub(crate) fn trim_range(s: &Vec<u8>, from: usize, to: usize) -> (r: (usize, usize))
    requires
        from <= to <= s@.len(),
    ensures
        from <= r.0 <= r.1 <= to,
        s@.subrange(r.0 as int, r.1 as int) == trim(s@.subrange(from as int, to as int)),
{
    let ghost t = s@.subrange(from as int, to as int);
    let mut a = from;
    while a < to && space_byte(s[a])
        invariant
            from <= a <= to <= s@.len(),
            forall|i: int| from <= i < a ==> is_space(s@[i]),
        decreases to - a,
    {
        a = a + 1;
    }
    proof {
        assert(t.skip(a - from) =~= s@.subrange(a as int, to as int));
        lemma_trim_start_skip(t, a - from);
    }
    let ghost u = s@.subrange(a as int, to as int);
    let mut b = to;
    while b > a && space_byte(s[b - 1])
        invariant
            a <= b <= to <= s@.len(),
            forall|i: int| b <= i < to ==> is_space(s@[i]),
        decreases b,
    {
        b = b - 1;
    }
    proof {
        assert(u.take(b - a) =~= s@.subrange(a as int, b as int));
        lemma_trim_end_take(u, b - a);
    }
    (a, b)
}

/// Parses the trimmed, non-empty token `s[a..b]` as `op value`.
#[verifier::loop_isolation(false)]
#[verifier::rlimit(60)]
fn parse_token(s: &Vec<u8>, a: usize, b: usize) -> (r: Option<(RangeOp, i64)>)
    requires
        a < b <= s@.len(),
    ensures
        r == parse_tok(s@.subrange(a as int, b as int)),
{
    let ghost t = s@.subrange(a as int, b as int);
    let len = b - a;
    let first = s[a];
    let second_eq = len >= 2 && s[a + 1] == 61;
    let (op, k): (RangeOp, usize) = if first == 60 && second_eq {
        (RangeOp::Le, 2)
    } else if first == 62 && second_eq {
        (RangeOp::Ge, 2)
    } else if first == 61 && second_eq {
        (RangeOp::Exact, 2)
    } else if first == 60 {
        (RangeOp::Lt, 1)
    } else if first == 62 {
        (RangeOp::Gt, 1)
    } else {
        return None;
    };
    proof {
        assert(tok_op(t) == Some((op, k as int)));
    }
    // skip whitespace between the operator and the number
    let mut c = a + k;
    while c < b && space_byte(s[c])
        invariant
            a + k <= c <= b <= s@.len(),
            forall|i: int| a + k <= i < c ==> is_space(s@[i]),
        decreases b - c,
    {
        c = c + 1;
    }
    proof {
        assert(t.skip(k as int) =~= s@.subrange(a + k, b as int));
        assert(t.skip(k as int).skip(c - (a + k)) =~= s@.subrange(c as int, b as int));
        lemma_trim_start_skip(t.skip(k as int), c - (a + k));
    }
    let ghost u = s@.subrange(c as int, b as int);
    // optional sign
    let neg = c < b && s[c] == 45;
    let ds = if neg { c + 1 } else { c };
    let ghost d = s@.subrange(ds as int, b as int);
    proof {
        if neg {
            assert(u.skip(1) =~= d);
        }
    }
    if ds == b {
        // no digits at all
        return None;
    }
    let limit: u128 = if neg {
        9223372036854775808u128
    } else {
        9223372036854775807u128
    };
    let mut mag: u128 = 0;
    let mut i = ds;
    while i < b
        invariant
            ds <= i <= b <= s@.len(),
            d == s@.subrange(ds as int, b as int),
            ds < b,
            all_digits(d.take(i - ds)),
            mag == digits_val(d.take(i - ds)),
            mag <= limit,
            limit < 0x1_0000_0000_0000_0000u128,
        decreases b - i,
    {
        let by = s[i];
        if !digit_byte(by) {
            proof {
                assert(d[i - ds] == s@[i as int]);
                assert(!all_digits(d));
            }
            return None;
        }
        proof {
            assert(d.take(i + 1 - ds).drop_last() =~= d.take(i - ds));
            assert(d.take(i + 1 - ds).last() == d[i - ds]);
            assert(forall|j: int| 0 <= j < i + 1 - ds ==> is_digit(#[trigger] d.take(i + 1 - ds)[j]));
        }
        mag = mag * 10 + ((by - 48) as u128);
        i = i + 1;
        if mag > limit {
            proof {
                assert(all_digits(d) ==> digits_val(d) > limit) by {
                    if all_digits(d) {
                        lemma_digits_val_prefix(d, i - ds);
                    }
                }
            }
            return None;
        }
    }
    proof {
        assert(d.take(b - ds) =~= d);
    }
    let v: i64 = if neg {
        (-(mag as i128)) as i64
    } else {
        mag as i64
    };
    Some((op, v))
}

/// Reduces one input spec to its `[lo, hi]` interval.
///
/// Starts from `min`/`max` (or the -100/100 defaults), folds every range
/// token, and fails on a token outside the grammar or on an interval left
/// empty.
pub fn parse_bounds(spec: &InputSpec) -> (r: Result<(i64, i64), BoundsError>)
    ensures
        match spec_bounds(*spec) {
            None => r matches Err(BoundsError::UnsupportedToken),
            Some((lo, hi)) => if lo <= hi {
                r matches Ok(p) && p.0 == lo && p.1 == hi
            } else {
                r matches Err(BoundsError::EmptyInterval { lo: l, hi: h })
                    && l == lo && h == hi
            },
        },
        r matches Ok(p) ==> spec_bounds(*spec) == Some((p.0 as int, p.1 as int)) && p.0 <= p.1,
{
    let mut lo: i128 = match spec.min {
        Some(m) => m as i128,
        None => -100,
    };
    let mut hi: i128 = match spec.max {
        Some(m) => m as i128,
        None => 100,
    };
    let ghost lo0 = lo as int;
    let ghost hi0 = hi as int;
    match &spec.range {
        None => {},
        Some(range) => {
            let n = range.len();
            let mut pos: usize = 0;
            proof {
                assert(range@.skip(0) =~= range@);
            }
            loop
                invariant_except_break
                    fold_range(lo0, hi0, range@) == fold_range(
                        lo as int,
                        hi as int,
                        range@.skip(pos as int),
                    ),
                invariant
                    pos <= n,
                    n == range@.len(),
                    i64::MIN <= lo <= i64::MAX as i128 + 1,
                    i64::MIN as i128 - 1 <= hi <= i64::MAX,
                    spec_bounds(*spec) == fold_range(lo0, hi0, range@),
                ensures
                    fold_range(lo0, hi0, range@) == Some((lo as int, hi as int)),
                decreases n - pos,
            {
                let ghost rest = range@.skip(pos as int);
                let ghost lo_in = lo as int;
                let ghost hi_in = hi as int;
                // find the end of this token
                let mut k = pos;
                while k < n && !sep_byte(range[k])
                    invariant
                        pos <= k <= n,
                        n == range@.len(),
                        forall|i: int| pos <= i < k ==> !is_sep(range@[i]),
                    decreases n - k,
                {
                    k = k + 1;
                }
                proof {
                    assert(forall|i: int| 0 <= i < k - pos ==> rest[i] == range@[pos + i]);
                    lemma_first_sep_at(rest, k - pos);
                    assert(rest.take(k - pos) =~= range@.subrange(pos as int, k as int));
                }
                let (a, b) = trim_range(range, pos, k);
                let ghost tok = trim(rest.take(k - pos));
                proof {
                    assert(tok == range@.subrange(a as int, b as int));
                }
                if a < b {
                    match parse_token(range, a, b) {
                        None => {
                            proof {
                                assert(fold_range(lo_in, hi_in, rest) is None);
                            }
                            return Err(BoundsError::UnsupportedToken);
                        },
                        Some((op, v)) => {
                            let w = v as i128;
                            match op {
                                RangeOp::Gt => {
                                    if w + 1 > lo {
                                        lo = w + 1;
                                    }
                                },
                                RangeOp::Ge => {
                                    if w > lo {
                                        lo = w;
                                    }
                                },
                                RangeOp::Lt => {
                                    if w - 1 < hi {
                                        hi = w - 1;
                                    }
                                },
                                RangeOp::Le => {
                                    if w < hi {
                                        hi = w;
                                    }
                                },
                                RangeOp::Exact => {
                                    lo = w;
                                    hi = w;
                                },
                            }
                            proof {
                                assert((lo as int, hi as int) == apply_op(lo_in, hi_in, op, v as int));
                            }
                        },
                    }
                }
                proof {
                    if k == n {
                        assert(fold_range(lo_in, hi_in, rest) == Some((lo as int, hi as int)));
                    } else {
                        assert(rest.skip(k - pos + 1) =~= range@.skip(k + 1));
                        assert(fold_range(lo_in, hi_in, rest) == fold_range(
                            lo as int,
                            hi as int,
                            range@.skip(k + 1),
                        ));
                    }
                }
                if k == n {
                    break;
                }
                pos = k + 1;
            }
        },
    }
    if lo > hi {
        Err(BoundsError::EmptyInterval { lo, hi })
    } else {
        Ok((lo as i64, hi as i64))
    }
}

/// True iff `kind` is exactly the byte string `integer`.
fn is_integer_kind(kind: &Vec<u8>) -> (r: bool)
    ensures
        r == (kind@ == integer_kind()),
{
    let ok = kind.len() == 7 && kind[0] == 105 && kind[1] == 110 && kind[2] == 116 && kind[3]
        == 101 && kind[4] == 103 && kind[5] == 101 && kind[6] == 114;
    proof {
        if ok {
            assert(kind@ =~= integer_kind());
        }
    }
    ok
}

/// Parses every input field of the problem into its interval, in order.
///
/// Fails when the input set is empty, when a field is not of the `integer`
/// kind, or when its bounds do not parse; the error names the first offending
/// field.
#[verifier::loop_isolation(false)]
pub fn parse_problem_inputs(problem: &Problem) -> (r: Result<Vec<ParsedInput>, InputsError>)
    ensures
        match r {
            Ok(v) => {
                &&& problem.inputs@.len() > 0
                &&& v@.len() == problem.inputs@.len()
                &&& forall|i: int| 0 <= i < v@.len() ==> spec_input_ok(#[trigger] problem.inputs@[i].1)
                &&& forall|i: int| 0 <= i < v@.len() ==> (#[trigger] v@[i].min as int, v@[i].max as int)
                    == spec_interval(problem.inputs@[i].1)
                &&& forall|i: int| 0 <= i < v@.len() ==> #[trigger] v@[i].min <= v@[i].max
            },
            Err(InputsError::NoInputs) => problem.inputs@.len() == 0,
            Err(InputsError::NonIntegerKind { index }) => {
                &&& index < problem.inputs@.len()
                &&& problem.inputs@[index as int].1.kind@ != integer_kind()
                &&& forall|i: int| 0 <= i < index ==> spec_input_ok(#[trigger] problem.inputs@[i].1)
            },
            Err(InputsError::Bounds { index, err }) => {
                &&& index < problem.inputs@.len()
                &&& problem.inputs@[index as int].1.kind@ == integer_kind()
                &&& !spec_input_ok(problem.inputs@[index as int].1)
                &&& forall|i: int| 0 <= i < index ==> spec_input_ok(#[trigger] problem.inputs@[i].1)
            },
        },
{
    if problem.inputs.len() == 0 {
        return Err(InputsError::NoInputs);
    }
    let mut parsed: Vec<ParsedInput> = Vec::new();
    let mut idx: usize = 0;
    while idx < problem.inputs.len()
        invariant
            idx <= problem.inputs@.len(),
            parsed@.len() == idx,
            forall|i: int| 0 <= i < idx ==> spec_input_ok(#[trigger] problem.inputs@[i].1),
            forall|i: int| 0 <= i < idx ==> (#[trigger] parsed@[i].min as int, parsed@[i].max as int)
                == spec_interval(problem.inputs@[i].1),
            forall|i: int| 0 <= i < idx ==> #[trigger] parsed@[i].min <= parsed@[i].max,
        decreases problem.inputs@.len() - idx,
    {
        let entry = &problem.inputs[idx];
        if !is_integer_kind(&entry.1.kind) {
            return Err(InputsError::NonIntegerKind { index: idx });
        }
        match parse_bounds(&entry.1) {
            Ok((lo, hi)) => {
                parsed.push(ParsedInput { min: lo, max: hi });
            },
            Err(err) => {
                return Err(InputsError::Bounds { index: idx, err });
            },
        }
        idx = idx + 1;
    }
    Ok(parsed)
}

} // verus!
