//! The case generator: turns parsed intervals, a corpus size, a seed and the
//! mixing ratios into an ordered list of input lines.
//!
//! The corpus mixes edge cases, partition (quartile-grid) cases and
//! uniform-random cases; the seeded phases deduplicate by tuple value, and
//! every emitted value lies inside its field's interval.

use vstd::prelude::*;
use vstd::arithmetic::div_mod::lemma_div_is_ordered;
use vstd::arithmetic::div_mod::lemma_div_multiples_vanish;
use vstd::arithmetic::div_mod::lemma_div_pos_is_pos;
use vstd::arithmetic::mul::lemma_mul_inequality;
use vstd::arithmetic::mul::lemma_mul_nonnegative;

use crate::config::Pbt;
use crate::constraints::ParsedInput;
use crate::text::dec_i64;
use crate::text::push_i64_dec;

verus! {

/// All interval bounds are ordered; the generator's precondition.
pub open spec fn specs_wf(specs: Seq<ParsedInput>) -> bool {
    forall|i: int| 0 <= i < specs.len() ==> #[trigger] specs[i].min <= specs[i].max
}

/// The tuple has one value per field and each lies in its field's interval.
pub open spec fn tuple_in_bounds(t: Seq<i64>, specs: Seq<ParsedInput>) -> bool {
    &&& t.len() == specs.len()
    &&& forall|i: int| 0 <= i < t.len() ==> specs[i].min <= #[trigger] t[i] <= specs[i].max
}

/// Every tuple of the list is in bounds.
pub open spec fn all_in_bounds(ts: Seq<Vec<i64>>, specs: Seq<ParsedInput>) -> bool {
    forall|i: int| 0 <= i < ts.len() ==> tuple_in_bounds(#[trigger] ts[i]@, specs)
}

/// The list holds this tuple value.
pub open spec fn contains_tuple(ts: Seq<Vec<i64>>, t: Seq<i64>) -> bool {
    exists|i: int| 0 <= i < ts.len() && #[trigger] ts[i]@ == t
}

/// No two tuples of the list are equal by value.
pub open spec fn distinct_tuples(ts: Seq<Vec<i64>>) -> bool {
    forall|i: int, j: int| 0 <= i < j < ts.len() ==> ts[i]@ != ts[j]@
}

/// The all-minimum tuple of a spec list.
pub open spec fn min_tuple(specs: Seq<ParsedInput>) -> Seq<i64> {
    Seq::new(specs.len(), |i: int| specs[i].min)
}

/// The all-maximum tuple of a spec list.
pub open spec fn max_tuple(specs: Seq<ParsedInput>) -> Seq<i64> {
    Seq::new(specs.len(), |i: int| specs[i].max)
}

/// `v + 1` clamped at the top of the 64-bit range.
pub open spec fn sat_add1(v: i64) -> int {
    if v == i64::MAX {
        v as int
    } else {
        v + 1
    }
}

/// `v - 1` clamped at the bottom of the 64-bit range.
pub open spec fn sat_sub1(v: i64) -> int {
    if v == i64::MIN {
        v as int
    } else {
        v - 1
    }
}

/// The edge values of one field: the interval ends, their neighbours, and
/// -1, 0, 1 where the interval holds them.
pub open spec fn is_edge_value(s: ParsedInput, v: int) -> bool {
    &&& s.min <= v <= s.max
    &&& (v == s.min || v == sat_add1(s.min) || v == sat_sub1(s.max) || v == s.max || v == 0
        || v == 1 || v == -1)
}

/// The grid point `min + (max - min) * num / den`.
pub open spec fn grid_point(min: int, max: int, num: int, den: int) -> int {
    min + (max - min) * num / den
}

/// The partition values of one field: the ends, the quartile grid, and zero
/// where the interval holds it.
pub open spec fn is_partition_value(s: ParsedInput, v: int) -> bool {
    ||| v == s.min
    ||| v == grid_point(s.min as int, s.max as int, 1, 4)
    ||| v == grid_point(s.min as int, s.max as int, 1, 2)
    ||| v == grid_point(s.min as int, s.max as int, 3, 4)
    ||| v == s.max
    ||| (v == 0 && s.min <= 0 <= s.max)
}

/// Every field of the tuple is one of its field's partition-grid values.
pub open spec fn tuple_from_grid(t: Seq<i64>, specs: Seq<ParsedInput>) -> bool {
    &&& t.len() == specs.len()
    &&& forall|q: int| 0 <= q < t.len() ==> is_partition_value(specs[q], #[trigger] t[q] as int)
}

/// The all-midpoint tuple of a spec list.
pub open spec fn mid_tuple(specs: Seq<ParsedInput>) -> Seq<i64> {
    Seq::new(
        specs.len(),
        |i: int| (grid_point(specs[i].min as int, specs[i].max as int, 1, 2)) as i64,
    )
}

/// The alternating tuple: even fields take one interval end, odd fields the
/// other.
pub open spec fn alt_tuple(specs: Seq<ParsedInput>, even_min: bool) -> Seq<i64> {
    Seq::new(
        specs.len(),
        |i: int| if (i % 2 == 0) == even_min {
            specs[i].min
        } else {
            specs[i].max
        },
    )
}

/// Every field of the tuple is one of its field's edge values or its
/// midpoint — the only values the edge-case recipes draw from.
pub open spec fn edge_recipe_fields(t: Seq<i64>, specs: Seq<ParsedInput>) -> bool {
    &&& t.len() == specs.len()
    &&& forall|q: int| 0 <= q < t.len() ==> is_edge_value(specs[q], #[trigger] t[q] as int) || t[q]
        as int == grid_point(specs[q].min as int, specs[q].max as int, 1, 2)
}

/// The interior grid point lies inside the interval.
pub proof fn lemma_grid_point_in_range(min: int, max: int, num: int, den: int)
    requires
        min <= max,
        0 <= num <= den,
        0 < den,
    ensures
        min <= grid_point(min, max, num, den) <= max,
{
    let delta = max - min;
    lemma_mul_nonnegative(delta, num);
    lemma_div_pos_is_pos(delta * num, den);
    lemma_mul_inequality(num, den, delta);
    assert(num * delta == delta * num) by (nonlinear_arith);
    assert(den * delta == delta * den) by (nonlinear_arith);
    lemma_div_is_ordered(delta * num, delta * den, den);
    lemma_div_multiples_vanish(delta, den);
}

/// `min + (max - min) * num / den`, the quartile-grid interpolation, computed
/// in 128-bit arithmetic so that the width of the full 64-bit range cannot
/// overflow.
pub fn interpolate(min: i64, max: i64, num: i64, den: i64) -> (r: i64)
    requires
        min <= max,
        0 <= num <= den,
        0 < den,
    ensures
        r as int == grid_point(min as int, max as int, num as int, den as int),
        min <= r <= max,
{
    let min128: i128 = min as i128;
    let max128: i128 = max as i128;
    let delta: i128 = max128 - min128;
    proof {
        assert(delta * num < 0x7fff_ffff_ffff_ffff_ffff_ffff_ffff_ffffi128) by (nonlinear_arith)
            requires
                0 <= delta < 0x1_0000_0000_0000_0000i128,
                0 <= num < 0x8000_0000_0000_0000i128,
        ;
        lemma_mul_nonnegative(delta as int, num as int);
    }
    let scaled: i128 = (delta * (num as i128)) / (den as i128);
    proof {
        lemma_grid_point_in_range(min as int, max as int, num as int, den as int);
    }
    let value: i128 = min128 + scaled;
    value as i64
}

/// The midpoint of an interval, rounding half toward the lower end.
pub fn midpoint(min: i64, max: i64) -> (r: i64)
    requires
        min <= max,
    ensures
        r as int == grid_point(min as int, max as int, 1, 2),
        min <= r <= max,
{
    interpolate(min, max, 1, 2)
}

/// Appends `x` to a strictly sorted list, keeping it strictly sorted; a value
/// already present is dropped.
fn push_sorted_unique(v: &mut Vec<i64>, x: i64)
    requires
        forall|i: int, j: int| 0 <= i < j < old(v)@.len() ==> old(v)@[i] < old(v)@[j],
    ensures
        forall|i: int, j: int| 0 <= i < j < final(v)@.len() ==> final(v)@[i] < final(v)@[j],
        forall|y: i64| final(v)@.contains(y) <==> (old(v)@.contains(y) || y == x),
{
    let ghost orig = v@;
    let mut k: usize = 0;
    while k < v.len() && v[k] < x
        invariant
            k <= v@.len(),
            v@ == orig,
            forall|i: int| 0 <= i < k ==> orig[i] < x,
            forall|i: int, j: int| 0 <= i < j < orig.len() ==> orig[i] < orig[j],
        decreases v@.len() - k,
    {
        k = k + 1;
    }
    if k < v.len() && v[k] == x {
        proof {
            assert(orig.contains(x));
        }
        return ;
    }
    v.insert(k, x);
    proof {
        assert(forall|i: int| 0 <= i < k ==> v@[i] == orig[i]);
        assert(forall|i: int| k < i < v@.len() ==> v@[i] == orig[i - 1]);
        assert(v@[k as int] == x);
        assert forall|i: int, j: int| 0 <= i < j < v@.len() implies v@[i] < v@[j] by {
            if i == k {
                assert(orig[j - 1] >= x || true);
            }
        }
        assert forall|y: i64| v@.contains(y) <==> (orig.contains(y) || y == x) by {
            if v@.contains(y) {
                let w = choose|w: int| 0 <= w < v@.len() && v@[w] == y;
                if w < k {
                    assert(orig[w] == y);
                } else if w > k {
                    assert(orig[w - 1] == y);
                }
            }
            if orig.contains(y) {
                let w = choose|w: int| 0 <= w < orig.len() && orig[w] == y;
                if w < k {
                    assert(v@[w] == y);
                } else {
                    assert(v@[w + 1] == y);
                }
            }
            if y == x {
                assert(v@[k as int] == y);
            }
        }
    }
}

/// The sorted, deduplicated edge values of one field.
pub fn edge_values(spec: &ParsedInput) -> (r: Vec<i64>)
    requires
        spec.min <= spec.max,
    ensures
        forall|i: int, j: int| 0 <= i < j < r@.len() ==> r@[i] < r@[j],
        forall|i: int| 0 <= i < r@.len() ==> is_edge_value(*spec, #[trigger] r@[i] as int),
        forall|v: i64| is_edge_value(*spec, v as int) ==> r@.contains(v),
        r@.len() >= 1,
{
    let mut out: Vec<i64> = Vec::new();
    let lo1: i64 = if spec.min == i64::MAX {
        spec.min
    } else {
        spec.min + 1
    };
    let hi1: i64 = if spec.max == i64::MIN {
        spec.max
    } else {
        spec.max - 1
    };
    push_sorted_unique(&mut out, spec.min);
    if lo1 <= spec.max {
        push_sorted_unique(&mut out, lo1);
    }
    if hi1 >= spec.min {
        push_sorted_unique(&mut out, hi1);
    }
    push_sorted_unique(&mut out, spec.max);
    if spec.min <= 0 && 0 <= spec.max {
        push_sorted_unique(&mut out, 0);
    }
    if spec.min <= 1 && 1 <= spec.max {
        push_sorted_unique(&mut out, 1);
    }
    if spec.min <= -1 && -1 <= spec.max {
        push_sorted_unique(&mut out, -1);
    }
    proof {
        assert(out@.contains(spec.min));
        assert forall|i: int| 0 <= i < out@.len() implies is_edge_value(
            *spec,
            #[trigger] out@[i] as int,
        ) by {
            assert(out@.contains(out@[i]));
        }
    }
    out
}

/// The sorted, deduplicated partition points of one field: every grid value
/// appears, and nothing else does.
pub fn partition_points(spec: &ParsedInput) -> (r: Vec<i64>)
    requires
        spec.min <= spec.max,
    ensures
        forall|i: int, j: int| 0 <= i < j < r@.len() ==> r@[i] < r@[j],
        forall|i: int| 0 <= i < r@.len() ==> is_partition_value(*spec, #[trigger] r@[i] as int)
            && spec.min <= r@[i] <= spec.max,
        forall|v: i64| is_partition_value(*spec, v as int) ==> r@.contains(v),
        r@.contains(spec.min),
        r@.len() >= 1,
{
    let mut out: Vec<i64> = Vec::new();
    push_sorted_unique(&mut out, spec.min);
    push_sorted_unique(&mut out, interpolate(spec.min, spec.max, 1, 4));
    push_sorted_unique(&mut out, midpoint(spec.min, spec.max));
    push_sorted_unique(&mut out, interpolate(spec.min, spec.max, 3, 4));
    push_sorted_unique(&mut out, spec.max);
    if spec.min <= 0 && 0 <= spec.max {
        push_sorted_unique(&mut out, 0);
    }
    proof {
        assert(out@.contains(spec.min));
        assert forall|i: int| 0 <= i < out@.len() implies is_partition_value(
            *spec,
            #[trigger] out@[i] as int,
        ) && spec.min <= out@[i] <= spec.max by {
            assert(out@.contains(out@[i]));
        }
        lemma_grid_point_in_range(spec.min as int, spec.max as int, 1, 4);
        lemma_grid_point_in_range(spec.min as int, spec.max as int, 1, 2);
        lemma_grid_point_in_range(spec.min as int, spec.max as int, 3, 4);
    }
    out
}

/// True iff the two tuples hold the same values.
fn tuple_eq(a: &Vec<i64>, b: &Vec<i64>) -> (r: bool)
    ensures
        r == (a@ == b@),
{
    if a.len() != b.len() {
        return false;
    }
    let n = a.len();
    let mut i: usize = 0;
    while i < n
        invariant
            i <= n,
            n == a@.len() == b@.len(),
            forall|j: int| 0 <= j < i ==> a@[j] == b@[j],
        decreases n - i,
    {
        if a[i] != b[i] {
            return false;
        }
        i = i + 1;
    }
    proof {
        assert(a@ =~= b@);
    }
    true
}

/// Appends the tuple unless the budget is reached or an equal tuple is
/// already present.
pub fn push_unique(out: &mut Vec<Vec<i64>>, values: Vec<i64>, budget: usize)
    ensures
        old(out)@.len() >= budget ==> final(out)@ == old(out)@,
        old(out)@.len() < budget && contains_tuple(old(out)@, values@) ==> final(out)@ == old(
            out,
        )@,
        old(out)@.len() < budget && !contains_tuple(old(out)@, values@) ==> final(out)@ == old(
            out,
        )@.push(values),
        final(out)@.len() >= old(out)@.len(),
        final(out)@.take(old(out)@.len() as int) == old(out)@,
        final(out)@.len() <= old(out)@.len() || final(out)@.len() <= budget,
        distinct_tuples(old(out)@) ==> distinct_tuples(final(out)@),
        old(out)@.len() < budget ==> exists|i: int|
            0 <= i <= old(out)@.len() && i < final(out)@.len() && #[trigger] final(out)@[i]@
                == values@,
{
    if out.len() >= budget {
        proof {
            assert(out@.take(out@.len() as int) =~= out@);
        }
        return ;
    }
    let n = out.len();
    let mut i: usize = 0;
    while i < n
        invariant
            i <= n,
            n == out@.len(),
            forall|j: int| 0 <= j < i ==> out@[j]@ != values@,
        decreases n - i,
    {
        if tuple_eq(&out[i], &values) {
            proof {
                assert(contains_tuple(out@, values@));
                assert(out@.take(out@.len() as int) =~= out@);
                assert(0 <= i <= out@.len() && (i as int) < out@.len() && out@[i as int]@
                    == values@);
            }
            return ;
        }
        i = i + 1;
    }
    let ghost orig = out@;
    out.push(values);
    proof {
        assert(out@.take(orig.len() as int) =~= orig);
        assert(out@[orig.len() as int]@ == values@);
        if distinct_tuples(orig) {
            assert forall|a: int, b: int| 0 <= a < b < out@.len() implies out@[a]@ != out@[b]@ by {
                if b == orig.len() {
                    assert(out@[a]@ != values@);
                }
            }
        }
    }
}

/// Strict lexicographic order on tuples: decided at the first differing
/// position.
pub open spec fn lex_lt(a: Seq<i64>, b: Seq<i64>) -> bool
    decreases a.len(),
{
    if a.len() == 0 || b.len() == 0 {
        false
    } else if a.first() < b.first() {
        true
    } else if a.first() > b.first() {
        false
    } else {
        lex_lt(a.drop_first(), b.drop_first())
    }
}

/// Tuples equal before position `d` and ordered at it are ordered
/// lexicographically.
proof fn lemma_lex_at(a: Seq<i64>, b: Seq<i64>, d: int)
    requires
        0 <= d < a.len(),
        d < b.len(),
        forall|m: int| 0 <= m < d ==> a[m] == b[m],
        a[d] < b[d],
    ensures
        lex_lt(a, b),
    decreases d,
{
    if d > 0 {
        assert(forall|m: int| 0 <= m < d - 1 ==> a.drop_first()[m] == a[m + 1]
            && #[trigger] b.drop_first()[m] == b[m + 1]);
        assert(a.drop_first()[d - 1] == a[d]);
        assert(b.drop_first()[d - 1] == b[d]);
        lemma_lex_at(a.drop_first(), b.drop_first(), d - 1);
    }
}

/// Every value list is strictly ascending.
pub open spec fn lists_strictly_sorted(lists: Seq<Vec<i64>>) -> bool {
    forall|q: int, w1: int, w2: int|
        0 <= q < lists.len() && 0 <= w1 < w2 < lists[q]@.len() ==> #[trigger] lists[q]@[w1]
            < #[trigger] lists[q]@[w2]
}

/// A tuple drawn from per-field value lists: the first `prefix.len()` fields
/// are the prefix, every later field holds one of its list's values.
pub open spec fn from_value_lists(t: Seq<i64>, lists: Seq<Vec<i64>>, prefix: Seq<i64>) -> bool {
    &&& t.len() == lists.len()
    &&& t.take(prefix.len() as int) == prefix
    &&& forall|i: int| prefix.len() <= i < t.len() ==> #[trigger] lists[i]@.contains(t[i])
}

/// Enumerates the Cartesian product of the per-field value lists in
/// lexicographic order, appending each tuple that is not yet present until
/// the budget is reached. `stack` holds the values chosen for the first
/// `depth` fields and is restored before returning.
#[verifier::loop_isolation(false)]
pub fn cartesian_collect(
    edge_sets: &Vec<Vec<i64>>,
    depth: usize,
    stack: &mut Vec<i64>,
    out: &mut Vec<Vec<i64>>,
    budget: usize,
)
    requires
        depth <= edge_sets@.len(),
        old(stack)@.len() == depth,
        lists_strictly_sorted(edge_sets@),
    ensures
        final(stack)@ == old(stack)@,
        final(out)@.len() >= old(out)@.len(),
        final(out)@.take(old(out)@.len() as int) == old(out)@,
        final(out)@.len() <= old(out)@.len() || final(out)@.len() <= budget,
        forall|j: int| old(out)@.len() <= j < final(out)@.len() ==> from_value_lists(
            #[trigger] final(out)@[j]@,
            edge_sets@,
            old(stack)@,
        ),
        distinct_tuples(old(out)@) ==> distinct_tuples(final(out)@),
        final(out)@.len() < budget ==> forall|t: Seq<i64>|
            #[trigger] from_value_lists(t, edge_sets@, old(stack)@) ==> contains_tuple(
                final(out)@,
                t,
            ),
        forall|j1: int, j2: int| old(out)@.len() <= j1 < j2 < final(out)@.len() ==> lex_lt(
            #[trigger] final(out)@[j1]@,
            #[trigger] final(out)@[j2]@,
        ),
    decreases edge_sets@.len() - depth,
{
    if out.len() >= budget {
        return ;
    }
    if depth == edge_sets.len() {
        let ghost orig = out@;
        let mut copy: Vec<i64> = Vec::new();
        let n = stack.len();
        let mut i: usize = 0;
        while i < n
            invariant
                i <= n,
                n == stack@.len(),
                copy@ == stack@.take(i as int),
            decreases n - i,
        {
            copy.push(stack[i]);
            proof {
                assert(stack@.take(i + 1) =~= stack@.take(i as int).push(stack@[i as int]));
            }
            i = i + 1;
        }
        proof {
            assert(copy@ =~= stack@);
            assert(stack@.take(stack@.len() as int) =~= stack@);
        }
        push_unique(out, copy, budget);
        proof {
            assert(out@.take(orig.len() as int) =~= orig);
            assert forall|j1: int, j2: int| orig.len() <= j1 < j2 < out@.len() implies lex_lt(
                #[trigger] out@[j1]@,
                #[trigger] out@[j2]@,
            ) by {
                assert(out@.len() <= orig.len() + 1);
            }
            if out@.len() < budget {
                assert(orig.len() < budget);
                let w = choose|i: int|
                    0 <= i <= orig.len() && i < out@.len() && #[trigger] out@[i]@ == copy@;
                assert forall|t: Seq<i64>| #[trigger] from_value_lists(t, edge_sets@, stack@)
                    implies contains_tuple(out@, t) by {
                    assert(t.take(t.len() as int) =~= t);
                    assert(t =~= stack@);
                    assert(out@[w]@ == t);
                }
            }
        }
        return ;
    }
    let ghost orig_out = out@;
    let ghost orig_stack = stack@;
    let values = &edge_sets[depth];
    let n = values.len();
    proof {
        assert(edge_sets@[depth as int]@.take(0) =~= Seq::<i64>::empty());
    }
    let mut i: usize = 0;
    while i < n
        invariant
            i <= n,
            n == values@.len(),
            depth < edge_sets@.len(),
            values == edge_sets@[depth as int],
            stack@ == orig_stack,
            orig_stack.len() == depth,
            out@.len() >= orig_out.len(),
            out@.take(orig_out.len() as int) == orig_out,
            out@.len() <= orig_out.len() || out@.len() <= budget,
            forall|j: int| orig_out.len() <= j < out@.len() ==> from_value_lists(
                #[trigger] out@[j]@,
                edge_sets@,
                orig_stack,
            ),
            distinct_tuples(orig_out) ==> distinct_tuples(out@),
            out@.len() < budget ==> forall|t: Seq<i64>|
                #[trigger] from_value_lists(t, edge_sets@, orig_stack)
                    && edge_sets@[depth as int]@.take(i as int).contains(t[depth as int])
                    ==> contains_tuple(out@, t),
            forall|j: int| orig_out.len() <= j < out@.len() ==> values@.take(i as int).contains(
                #[trigger] out@[j]@[depth as int],
            ),
            forall|j1: int, j2: int| orig_out.len() <= j1 < j2 < out@.len() ==> lex_lt(
                #[trigger] out@[j1]@,
                #[trigger] out@[j2]@,
            ),
        decreases n - i,
    {
        if out.len() >= budget {
            proof {
                assert(out@.take(orig_out.len() as int) =~= orig_out);
            }
            return ;
        }
        let ghost mid_out = out@;
        stack.push(values[i]);
        cartesian_collect(edge_sets, depth + 1, stack, out, budget);
        stack.pop();
        proof {
            assert(stack@ =~= orig_stack);
            assert(out@.take(orig_out.len() as int) =~= orig_out) by {
                assert(out@.take(mid_out.len() as int) == mid_out);
                assert(forall|j: int| 0 <= j < orig_out.len() ==> out@.take(
                    mid_out.len() as int,
                )[j] == mid_out.take(orig_out.len() as int)[j]);
            }
            assert forall|j: int| orig_out.len() <= j < out@.len() implies from_value_lists(
                #[trigger] out@[j]@,
                edge_sets@,
                orig_stack,
            ) by {
                if j < mid_out.len() {
                    assert(out@[j]@ == mid_out[j]@);
                } else {
                    assert(from_value_lists(out@[j]@, edge_sets@, orig_stack.push(
                        values@[i as int],
                    )));
                    assert(out@[j]@.take(depth as int) =~= orig_stack) by {
                        assert(out@[j]@.take(depth + 1) == orig_stack.push(values@[i as int]));
                        assert(forall|m: int| 0 <= m < depth ==> out@[j]@.take(depth + 1)[m]
                            == out@[j]@[m]);
                    }
                    assert(edge_sets@[depth as int]@.contains(out@[j]@[depth as int])) by {
                        assert(out@[j]@.take(depth + 1)[depth as int] == out@[j]@[depth as int]);
                        assert(out@[j]@[depth as int] == values@[i as int]);
                    }
                }
            }
            lemma_prefix_keeps_low_entries(mid_out, out@);
            // the new entries carry this iteration's value at this depth,
            // which orders them after everything already appended
            assert forall|j: int| mid_out.len() <= j < out@.len()
                implies #[trigger] out@[j]@[depth as int] == values@[i as int] by {
                assert(out@[j]@.take(depth + 1) == orig_stack.push(values@[i as int]));
                assert(out@[j]@.take(depth + 1)[depth as int] == out@[j]@[depth as int]);
            }
            assert forall|j: int| orig_out.len() <= j < out@.len() implies values@.take(
                i + 1,
            ).contains(#[trigger] out@[j]@[depth as int]) by {
                if j < mid_out.len() {
                    assert(out@[j]@ == mid_out[j]@);
                    assert(values@.take(i as int).contains(mid_out[j]@[depth as int]));
                    let w = choose|w: int|
                        0 <= w < values@.take(i as int).len() && #[trigger] values@.take(
                            i as int,
                        )[w] == mid_out[j]@[depth as int];
                    assert(values@.take(i + 1)[w] == mid_out[j]@[depth as int]);
                } else {
                    assert(values@.take(i + 1)[i as int] == values@[i as int]);
                }
            }
            assert forall|j1: int, j2: int| orig_out.len() <= j1 < j2 < out@.len() implies lex_lt(
                #[trigger] out@[j1]@,
                #[trigger] out@[j2]@,
            ) by {
                if j2 < mid_out.len() {
                    assert(out@[j1]@ == mid_out[j1]@);
                    assert(out@[j2]@ == mid_out[j2]@);
                    assert(lex_lt(mid_out[j1]@, mid_out[j2]@));
                } else if j1 < mid_out.len() {
                    let a = out@[j1]@;
                    let b = out@[j2]@;
                    assert(a == mid_out[j1]@);
                    assert(values@.take(i as int).contains(mid_out[j1]@[depth as int]));
                    let w = choose|w: int|
                        0 <= w < values@.take(i as int).len() && #[trigger] values@.take(
                            i as int,
                        )[w] == mid_out[j1]@[depth as int];
                    assert(edge_sets@[depth as int]@[w] < edge_sets@[depth as int]@[i as int]);
                    assert(a[depth as int] < b[depth as int]);
                    assert(from_value_lists(a, edge_sets@, orig_stack));
                    assert(from_value_lists(b, edge_sets@, orig_stack));
                    assert forall|m: int| 0 <= m < depth implies a[m] == b[m] by {
                        assert(a.take(depth as int)[m] == a[m]);
                        assert(b.take(depth as int)[m] == b[m]);
                        assert(a.take(depth as int)[m] == orig_stack[m]);
                        assert(b.take(depth as int)[m] == orig_stack[m]);
                    }
                    lemma_lex_at(a, b, depth as int);
                }
            }
            // every product tuple whose value at this depth was already tried
            // stays present while the budget is not reached
            lemma_prefix_keeps_low_entries(mid_out, out@);
            if out@.len() < budget {
                assert forall|t: Seq<i64>|
                    #[trigger] from_value_lists(t, edge_sets@, orig_stack)
                        && edge_sets@[depth as int]@.take(i + 1).contains(t[depth as int])
                        implies contains_tuple(out@, t) by {
                    let v = t[depth as int];
                    let dvs = edge_sets@[depth as int]@;
                    let wv = choose|w: int|
                        0 <= w < dvs.take(i + 1).len() && #[trigger] dvs.take(i + 1)[w] == v;
                    if wv < i {
                        assert(edge_sets@[depth as int]@.take(i as int)[wv] == v);
                        assert(edge_sets@[depth as int]@.take(i as int).contains(v));
                        assert(mid_out.len() <= out@.len());
                        assert(contains_tuple(mid_out, t));
                        let wt = choose|u: int|
                            0 <= u < mid_out.len() && #[trigger] mid_out[u]@ == t;
                        assert(out@[wt]@ == mid_out[wt]@);
                        assert(contains_tuple(out@, t));
                    } else {
                        assert(v == values@[i as int]);
                        assert(t.take(orig_stack.len() as int) == orig_stack);
                        assert(t.take(depth + 1) =~= orig_stack.push(values@[i as int])) by {
                            assert(forall|m: int| 0 <= m < depth ==> t.take(depth + 1)[m] == t[m]
                                && #[trigger] t.take(depth as int)[m] == t[m]);
                        }
                        assert(from_value_lists(
                            t,
                            edge_sets@,
                            orig_stack.push(values@[i as int]),
                        ));
                        assert(contains_tuple(out@, t));
                    }
                }
            }
        }
        i = i + 1;
    }
    proof {
        assert(edge_sets@[depth as int]@.take(n as int) =~= edge_sets@[depth as int]@);
        if out@.len() < budget {
            assert forall|t: Seq<i64>| #[trigger] from_value_lists(t, edge_sets@, orig_stack)
                implies contains_tuple(out@, t) by {
                assert(edge_sets@[depth as int]@.contains(t[depth as int]));
            }
        }
    }
}

/// One corpus line: the tail of a space-joined tuple, from field `i` on,
/// each value preceded by a space.
pub open spec fn case_tail(vs: Seq<i64>, i: int) -> Seq<u8>
    decreases vs.len() - i,
{
    if i < 0 || i >= vs.len() {
        Seq::empty()
    } else {
        seq![32u8] + dec_i64(vs[i] as int) + case_tail(vs, i + 1)
    }
}

/// One corpus line: space-joined decimal values and a final newline.
pub open spec fn case_line(vs: Seq<i64>) -> Seq<u8> {
    if vs.len() == 0 {
        seq![10u8]
    } else {
        dec_i64(vs[0] as int) + case_tail(vs, 1) + seq![10u8]
    }
}

/// Renders a tuple as its corpus line: space-joined decimals and a newline.
#[verifier::loop_isolation(false)]
pub fn format_case(values: &Vec<i64>) -> (r: Vec<u8>)
    ensures
        r@ == case_line(values@),
{
    let mut out: Vec<u8> = Vec::new();
    let n = values.len();
    if n > 0 {
        push_i64_dec(&mut out, values[0]);
        let mut i: usize = 1;
        while i < n
            invariant
                1 <= i <= n,
                out@ + case_tail(values@, i as int) == dec_i64(values@[0] as int) + case_tail(
                    values@,
                    1,
                ),
            decreases n - i,
        {
            out.push(32u8);
            push_i64_dec(&mut out, values[i]);
            i = i + 1;
        }
        proof {
            assert(case_tail(values@, n as int) =~= Seq::<u8>::empty());
            assert(out@ =~= dec_i64(values@[0] as int) + case_tail(values@, 1));
        }
    }
    out.push(10u8);
    proof {
        if n > 0 {
            assert(out@ =~= case_line(values@));
        } else {
            assert(out@ =~= case_line(values@));
        }
    }
    out
}

/// The little-endian byte `j` of `v`.
pub open spec fn le_byte(v: u64, j: int) -> u8
    decreases j,
{
    if j <= 0 {
        (v % 256) as u8
    } else {
        le_byte((v / 256) as u64, j - 1)
    }
}

/// The seed word at offset `i` of the expanded 32-byte seed: the base seed
/// plus the offset, wrapping at the 64-bit boundary.
pub open spec fn seed_part(seed: u64, i: int) -> u64 {
    (((seed + i) % 0x1_0000_0000_0000_0000) as u64)
}

/// Expands a word seed into 32 bytes: four consecutive seed words, each in
/// little-endian order.
#[verifier::loop_isolation(false)]
pub fn seed_to_bytes(seed: u64) -> (r: Vec<u8>)
    ensures
        r@.len() == 32,
        forall|i: int, j: int| 0 <= i < 4 && 0 <= j < 8 ==> r@[8 * i + j] == le_byte(
            seed_part(seed, i),
            j,
        ),
{
    let mut out: Vec<u8> = Vec::new();
    let mut i: usize = 0;
    while i < 4
        invariant
            i <= 4,
            out@.len() == 8 * i,
            forall|a: int, j: int| 0 <= a < i && 0 <= j < 8 ==> out@[8 * a + j] == le_byte(
                seed_part(seed, a),
                j,
            ),
        decreases 4 - i,
    {
        let part: u64 = seed.wrapping_add(i as u64);
        proof {
            assert(part == seed_part(seed, i as int));
        }
        let mut v: u64 = part;
        let mut j: usize = 0;
        while j < 8
            invariant
                j <= 8,
                out@.len() == 8 * i + j,
                forall|a: int, jj: int| 0 <= a < i && 0 <= jj < 8 ==> out@[8 * a + jj] == le_byte(
                    seed_part(seed, a),
                    jj,
                ),
                forall|jj: int| 0 <= jj < j ==> out@[8 * i + jj] == le_byte(part, jj),
                v == shr_bytes(part, j as int),
            decreases 8 - j,
        {
            out.push((v % 256) as u8);
            proof {
                lemma_le_byte_shr(part, j as int);
            }
            v = v / 256;
            proof {
                lemma_shr_bytes_step(part, j as int);
            }
            j = j + 1;
        }
        i = i + 1;
    }
    out
}

/// `v` shifted right by `j` bytes.
pub open spec fn shr_bytes(v: u64, j: int) -> u64
    decreases j,
{
    if j <= 0 {
        v
    } else {
        (shr_bytes(v, j - 1) / 256) as u64
    }
}

proof fn lemma_shr_bytes_step(v: u64, j: int)
    requires
        j >= 0,
    ensures
        (shr_bytes(v, j) / 256) as u64 == shr_bytes(v, j + 1),
{
}

/// The byte at offset `j` is the low byte of the `j`-times shifted value.
proof fn lemma_le_byte_shr(v: u64, j: int)
    requires
        j >= 0,
    ensures
        le_byte(v, j) == (shr_bytes(v, j) % 256) as u8,
    decreases j,
{
    if j > 0 {
        lemma_le_byte_shr((v / 256) as u64, j - 1);
        lemma_shr_shift(v, j);
    }
}

/// Shifting `j` bytes then one more equals shifting the once-shifted value
/// `j` times.
proof fn lemma_shr_shift(v: u64, j: int)
    requires
        j >= 1,
    ensures
        shr_bytes(v, j) == shr_bytes((v / 256) as u64, j - 1),
    decreases j,
{
    if j == 1 {
        assert(shr_bytes(v, 1) == (shr_bytes(v, 0) / 256) as u64);
        assert(shr_bytes((v / 256) as u64, 0) == (v / 256) as u64);
    } else {
        lemma_shr_shift(v, j - 1);
    }
}

/// The all-midpoint tuple.
fn mids_of(specs: &Vec<ParsedInput>) -> (r: Vec<i64>)
    requires
        specs_wf(specs@),
    ensures
        r@ == mid_tuple(specs@),
        tuple_in_bounds(r@, specs@),
    decreases specs@.len(),
{
    let mut r: Vec<i64> = Vec::new();
    let n = specs.len();
    let mut i: usize = 0;
    while i < n
        invariant
            i <= n,
            n == specs@.len(),
            specs_wf(specs@),
            r@.len() == i,
            forall|j: int| 0 <= j < i ==> specs@[j].min <= #[trigger] r@[j] <= specs@[j].max,
            forall|j: int| 0 <= j < i ==> #[trigger] r@[j] as int == grid_point(
                specs@[j].min as int,
                specs@[j].max as int,
                1,
                2,
            ),
        decreases n - i,
    {
        r.push(midpoint(specs[i].min, specs[i].max));
        i = i + 1;
    }
    proof {
        assert(r@ =~= mid_tuple(specs@));
    }
    r
}

/// The all-minimum tuple.
fn mins_of(specs: &Vec<ParsedInput>) -> (r: Vec<i64>)
    requires
        specs_wf(specs@),
    ensures
        r@ == min_tuple(specs@),
        tuple_in_bounds(r@, specs@),
{
    let mut r: Vec<i64> = Vec::new();
    let n = specs.len();
    let mut i: usize = 0;
    while i < n
        invariant
            i <= n,
            n == specs@.len(),
            specs_wf(specs@),
            r@.len() == i,
            forall|j: int| 0 <= j < i ==> #[trigger] r@[j] == specs@[j].min,
        decreases n - i,
    {
        r.push(specs[i].min);
        i = i + 1;
    }
    proof {
        assert(r@ =~= min_tuple(specs@));
    }
    r
}

/// The all-maximum tuple.
fn maxs_of(specs: &Vec<ParsedInput>) -> (r: Vec<i64>)
    requires
        specs_wf(specs@),
    ensures
        r@ == max_tuple(specs@),
        tuple_in_bounds(r@, specs@),
{
    let mut r: Vec<i64> = Vec::new();
    let n = specs.len();
    let mut i: usize = 0;
    while i < n
        invariant
            i <= n,
            n == specs@.len(),
            specs_wf(specs@),
            r@.len() == i,
            forall|j: int| 0 <= j < i ==> #[trigger] r@[j] == specs@[j].max,
        decreases n - i,
    {
        r.push(specs[i].max);
        i = i + 1;
    }
    proof {
        assert(r@ =~= max_tuple(specs@));
    }
    r
}

/// The alternating tuple: even fields take one end, odd fields the other.
fn alternating_of(specs: &Vec<ParsedInput>, even_min: bool) -> (r: Vec<i64>)
    requires
        specs_wf(specs@),
    ensures
        r@ == alt_tuple(specs@, even_min),
        tuple_in_bounds(r@, specs@),
{
    let mut r: Vec<i64> = Vec::new();
    let n = specs.len();
    let mut i: usize = 0;
    while i < n
        invariant
            i <= n,
            n == specs@.len(),
            specs_wf(specs@),
            r@.len() == i,
            forall|j: int| 0 <= j < i ==> specs@[j].min <= #[trigger] r@[j] <= specs@[j].max,
            forall|j: int| 0 <= j < i ==> #[trigger] r@[j] == (if (j % 2 == 0) == even_min {
                specs@[j].min
            } else {
                specs@[j].max
            }),
        decreases n - i,
    {
        let take_min = if i % 2 == 0 {
            even_min
        } else {
            !even_min
        };
        if take_min {
            r.push(specs[i].min);
        } else {
            r.push(specs[i].max);
        }
        i = i + 1;
    }
    proof {
        assert(r@ =~= alt_tuple(specs@, even_min));
    }
    r
}

/// A grown list with recipe-content entries past the old length keeps the
/// recipe content of the whole appended region.
proof fn lemma_extend_recipes(
    pre: Seq<Vec<i64>>,
    post: Seq<Vec<i64>>,
    base: int,
    specs: Seq<ParsedInput>,
)
    requires
        0 <= base,
        post.len() >= pre.len(),
        post.take(pre.len() as int) == pre,
        forall|j: int| base <= j < pre.len() ==> edge_recipe_fields(#[trigger] pre[j]@, specs),
        forall|j: int| pre.len() <= j < post.len() ==> edge_recipe_fields(
            #[trigger] post[j]@,
            specs,
        ),
    ensures
        forall|j: int| base <= j < post.len() ==> edge_recipe_fields(#[trigger] post[j]@, specs),
{
    lemma_prefix_keeps_low_entries(pre, post);
}

/// A tuple of a preserved prefix stays in the grown list.
proof fn lemma_contains_persists(pre: Seq<Vec<i64>>, post: Seq<Vec<i64>>, t: Seq<i64>)
    requires
        post.len() >= pre.len(),
        post.take(pre.len() as int) == pre,
        contains_tuple(pre, t),
    ensures
        contains_tuple(post, t),
{
    lemma_prefix_keeps_low_entries(pre, post);
    let w = choose|i: int| 0 <= i < pre.len() && #[trigger] pre[i]@ == t;
    assert(post[w]@ == t);
}

/// The base-recipe tuples present in the snapshot stay present in the grown
/// list.
proof fn lemma_base_recipes_persist(
    snap: Seq<Vec<i64>>,
    cur: Seq<Vec<i64>>,
    orig: Seq<Vec<i64>>,
    specs: Seq<ParsedInput>,
    budget: usize,
)
    requires
        cur.len() >= snap.len(),
        cur.take(snap.len() as int) == snap,
        specs.len() > 0 && orig.len() == 0 ==> {
            &&& budget >= 1 ==> contains_tuple(snap, mid_tuple(specs))
            &&& budget >= 2 ==> contains_tuple(snap, min_tuple(specs))
            &&& budget >= 3 ==> contains_tuple(snap, max_tuple(specs))
            &&& budget >= 4 ==> contains_tuple(snap, alt_tuple(specs, true))
            &&& budget >= 5 ==> contains_tuple(snap, alt_tuple(specs, false))
        },
    ensures
        specs.len() > 0 && orig.len() == 0 ==> {
            &&& budget >= 1 ==> contains_tuple(cur, mid_tuple(specs))
            &&& budget >= 2 ==> contains_tuple(cur, min_tuple(specs))
            &&& budget >= 3 ==> contains_tuple(cur, max_tuple(specs))
            &&& budget >= 4 ==> contains_tuple(cur, alt_tuple(specs, true))
            &&& budget >= 5 ==> contains_tuple(cur, alt_tuple(specs, false))
        },
{
    if specs.len() > 0 && orig.len() == 0 {
        if budget >= 1 {
            lemma_contains_persists(snap, cur, mid_tuple(specs));
        }
        if budget >= 2 {
            lemma_contains_persists(snap, cur, min_tuple(specs));
        }
        if budget >= 3 {
            lemma_contains_persists(snap, cur, max_tuple(specs));
        }
        if budget >= 4 {
            lemma_contains_persists(snap, cur, alt_tuple(specs, true));
        }
        if budget >= 5 {
            lemma_contains_persists(snap, cur, alt_tuple(specs, false));
        }
    }
}

/// Fills the list with edge-case tuples, deduplicated, until the budget is
/// reached or the recipes run out: midpoint, all-min, all-max, alternating
/// tuples, single-field edge substitutions, and — when small enough — the
/// whole Cartesian product of the edge values.
///
/// When the budget admits at least three tuples and the list starts empty,
/// the all-min and all-max tuples stand among its first three entries.
#[verifier::loop_isolation(false)]
#[verifier::rlimit(100)]
pub fn extend_edge_cases(
    out: &mut Vec<Vec<i64>>,
    specs: &Vec<ParsedInput>,
    budget: usize,
    max_cartesian_cases: usize,
)
    requires
        specs_wf(specs@),
        all_in_bounds(old(out)@, specs@),
        distinct_tuples(old(out)@),
    ensures
        final(out)@.len() >= old(out)@.len(),
        final(out)@.take(old(out)@.len() as int) == old(out)@,
        final(out)@.len() <= old(out)@.len() || final(out)@.len() <= budget,
        all_in_bounds(final(out)@, specs@),
        distinct_tuples(final(out)@),
        budget >= 3 && specs@.len() > 0 && old(out)@.len() == 0 ==> (exists|i: int|
            0 <= i < 3 && i < final(out)@.len() && #[trigger] final(out)@[i]@ == min_tuple(specs@))
            && (exists|i: int|
            0 <= i < 3 && i < final(out)@.len() && #[trigger] final(out)@[i]@ == max_tuple(
                specs@,
            )),
        forall|j: int| old(out)@.len() <= j < final(out)@.len() ==> edge_recipe_fields(
            #[trigger] final(out)@[j]@,
            specs@,
        ),
        specs@.len() > 0 && old(out)@.len() == 0 ==> {
            &&& budget >= 1 ==> contains_tuple(final(out)@, mid_tuple(specs@))
            &&& budget >= 2 ==> contains_tuple(final(out)@, min_tuple(specs@))
            &&& budget >= 3 ==> contains_tuple(final(out)@, max_tuple(specs@))
            &&& budget >= 4 ==> contains_tuple(final(out)@, alt_tuple(specs@, true))
            &&& budget >= 5 ==> contains_tuple(final(out)@, alt_tuple(specs@, false))
        },
{
    proof {
        assert(out@.take(out@.len() as int) =~= out@);
    }
    if budget == 0 || specs.len() == 0 {
        return ;
    }
    let ghost orig = out@;
    let mids = mids_of(specs);
    let ghost dv = mids@;
    push_unique(out, mids, budget);
    let ghost after_mids = out@;
    proof {
        assert(edge_recipe_fields(dv, specs@));
        assert forall|j: int| orig.len() <= j < after_mids.len() implies edge_recipe_fields(
            #[trigger] after_mids[j]@,
            specs@,
        ) by {
            assert(after_mids == orig.push(mids));
            assert(after_mids[j]@ == dv);
        }
        if specs@.len() > 0 && orig.len() == 0 && budget >= 1 {
            let w = choose|i: int|
                0 <= i <= orig.len() && i < after_mids.len() && #[trigger] after_mids[i]@ == dv;
            assert(contains_tuple(after_mids, mid_tuple(specs@)));
        }
    }
    let mins = mins_of(specs);
    let ghost mv = mins@;
    push_unique(out, mins, budget);
    let ghost after_mins = out@;
    proof {
        assert(edge_recipe_fields(mv, specs@));
        assert forall|j: int| after_mids.len() <= j < after_mins.len() implies edge_recipe_fields(
            #[trigger] after_mins[j]@,
            specs@,
        ) by {
            assert(after_mins == after_mids.push(mins));
            assert(after_mins[j]@ == mv);
        }
        lemma_extend_recipes(after_mids, after_mins, orig.len() as int, specs@);
        if specs@.len() > 0 && orig.len() == 0 && budget >= 2 {
            assert(after_mids.len() <= 1);
            let w = choose|i: int|
                0 <= i <= after_mids.len() && i < after_mins.len() && #[trigger] after_mins[i]@
                    == mv;
            assert(after_mins[w]@ == min_tuple(specs@));
            assert(contains_tuple(after_mins, min_tuple(specs@)));
        }
    }
    let maxs = maxs_of(specs);
    let ghost xv = maxs@;
    push_unique(out, maxs, budget);
    let ghost after_maxs = out@;
    proof {
        assert(edge_recipe_fields(xv, specs@));
        assert forall|j: int| after_mins.len() <= j < after_maxs.len() implies edge_recipe_fields(
            #[trigger] after_maxs[j]@,
            specs@,
        ) by {
            assert(after_maxs == after_mins.push(maxs));
            assert(after_maxs[j]@ == xv);
        }
        lemma_extend_recipes(after_mins, after_maxs, orig.len() as int, specs@);
        if specs@.len() > 0 && orig.len() == 0 && budget >= 3 {
            assert(after_mins.len() <= 2);
            let w = choose|i: int|
                0 <= i <= after_mins.len() && i < after_maxs.len() && #[trigger] after_maxs[i]@
                    == xv;
            assert(after_maxs[w]@ == max_tuple(specs@));
            assert(contains_tuple(after_maxs, max_tuple(specs@)));
        }
    }
    let alt_a = alternating_of(specs, true);
    let ghost av = alt_a@;
    push_unique(out, alt_a, budget);
    let ghost after_alt_a = out@;
    proof {
        assert(edge_recipe_fields(av, specs@));
        assert forall|j: int| after_maxs.len() <= j < after_alt_a.len() implies edge_recipe_fields(
            #[trigger] after_alt_a[j]@,
            specs@,
        ) by {
            assert(after_alt_a == after_maxs.push(alt_a));
            assert(after_alt_a[j]@ == av);
        }
        lemma_extend_recipes(after_maxs, after_alt_a, orig.len() as int, specs@);
        if specs@.len() > 0 && orig.len() == 0 && budget >= 4 {
            assert(after_maxs.len() <= 3);
            let w = choose|i: int|
                0 <= i <= after_maxs.len() && i < after_alt_a.len() && #[trigger] after_alt_a[i]@
                    == av;
            assert(contains_tuple(after_alt_a, alt_tuple(specs@, true)));
        }
    }
    let alt_b = alternating_of(specs, false);
    let ghost bv = alt_b@;
    push_unique(out, alt_b, budget);
    let ghost after_alts = out@;
    proof {
        assert(edge_recipe_fields(bv, specs@));
        assert forall|j: int| after_alt_a.len() <= j < after_alts.len() implies edge_recipe_fields(
            #[trigger] after_alts[j]@,
            specs@,
        ) by {
            assert(after_alts == after_alt_a.push(alt_b));
            assert(after_alts[j]@ == bv);
        }
        lemma_extend_recipes(after_alt_a, after_alts, orig.len() as int, specs@);
        if specs@.len() > 0 && orig.len() == 0 && budget >= 5 {
            assert(after_alt_a.len() <= 4);
            let w = choose|i: int|
                0 <= i <= after_alt_a.len() && i < after_alts.len() && #[trigger] after_alts[i]@
                    == bv;
            assert(contains_tuple(after_alts, alt_tuple(specs@, false)));
        }
    }
    proof {
        lemma_take_prefix_trans(after_maxs, after_alt_a, after_alts);
        lemma_take_prefix_trans(after_mins, after_maxs, after_alt_a);
        lemma_take_prefix_trans(after_mins, after_alt_a, after_alts);
        lemma_take_prefix_trans(after_mids, after_mins, after_maxs);
        lemma_take_prefix_trans(after_mids, after_maxs, after_alt_a);
        lemma_take_prefix_trans(after_mids, after_alt_a, after_alts);
        lemma_take_prefix_trans(orig, after_mids, after_mins);
        lemma_take_prefix_trans(orig, after_mins, after_maxs);
        lemma_take_prefix_trans(orig, after_maxs, after_alt_a);
        lemma_take_prefix_trans(orig, after_alt_a, after_alts);
        assert(after_alts.take(after_alts.len() as int) =~= after_alts);
        // carry the recipe tuples forward to the base-recipe snapshot
        if specs@.len() > 0 && orig.len() == 0 {
            if budget >= 1 {
                lemma_contains_persists(after_mids, after_alts, mid_tuple(specs@));
            }
            if budget >= 2 {
                lemma_contains_persists(after_mins, after_alts, min_tuple(specs@));
            }
            if budget >= 3 {
                lemma_contains_persists(after_maxs, after_alts, max_tuple(specs@));
            }
            if budget >= 4 {
                lemma_contains_persists(after_alt_a, after_alts, alt_tuple(specs@, true));
            }
        }
    }
    let n = specs.len();
    let mut idx: usize = 0;
    while idx < n
        invariant
            idx <= n,
            out@.len() >= after_alts.len(),
            out@.take(after_alts.len() as int) == after_alts,
            out@.len() <= after_alts.len() || out@.len() <= budget,
            all_in_bounds(out@, specs@),
            distinct_tuples(out@),
            forall|j: int| orig.len() <= j < out@.len() ==> edge_recipe_fields(
                #[trigger] out@[j]@,
                specs@,
            ),
        decreases n - idx,
    {
        let ev = edge_values(&specs[idx]);
        let m = ev.len();
        let mut e: usize = 0;
        while e < m
            invariant
                e <= m,
                idx < n,
                m == ev@.len(),
                forall|q: int| 0 <= q < m ==> is_edge_value(specs@[idx as int], #[trigger] ev@[q] as int),
                out@.len() >= after_alts.len(),
                out@.take(after_alts.len() as int) == after_alts,
                out@.len() <= after_alts.len() || out@.len() <= budget,
                all_in_bounds(out@, specs@),
                distinct_tuples(out@),
                forall|j: int| orig.len() <= j < out@.len() ==> edge_recipe_fields(
                    #[trigger] out@[j]@,
                    specs@,
                ),
            decreases m - e,
        {
            let ghost before = out@;
            let mut candidate = mids_of(specs);
            candidate[idx] = ev[e];
            let ghost cv = candidate@;
            proof {
                assert(edge_recipe_fields(cv, specs@)) by {
                    assert(cv == mid_tuple(specs@).update(idx as int, ev@[e as int]));
                    assert(forall|q: int| 0 <= q < cv.len() && q != idx ==> #[trigger] cv[q]
                        == mid_tuple(specs@)[q]);
                    assert(cv[idx as int] == ev@[e as int]);
                }
            }
            push_unique(out, candidate, budget);
            proof {
                lemma_prefix_keeps_low_entries(before, out@);
                assert(out@.take(after_alts.len() as int) =~= after_alts);
                assert forall|j: int| before.len() <= j < out@.len() implies edge_recipe_fields(
                    #[trigger] out@[j]@,
                    specs@,
                ) by {
                    assert(out@ == before.push(candidate));
                    assert(out@[j]@ == cv);
                }
                lemma_extend_recipes(before, out@, orig.len() as int, specs@);
            }
            if out.len() >= budget {
                proof {
                    lemma_take_prefix_trans(after_maxs, after_alts, out@);
                    lemma_take_prefix_trans(orig, after_alts, out@);
                    lemma_edge_phase_post(orig, after_mins, after_maxs, out@, specs@, budget);
                    lemma_base_recipes_persist(after_alts, out@, orig, specs@, budget);
                }
                return ;
            }
            e = e + 1;
        }
        idx = idx + 1;
    }
    // the full Cartesian product over the edge values, when it is small
    let mut edge_sets: Vec<Vec<i64>> = Vec::new();
    let mut total: usize = 1;
    let mut idx2: usize = 0;
    while idx2 < n
        invariant
            idx2 <= n,
            edge_sets@.len() == idx2,
            forall|q: int, w: int| 0 <= q < idx2 && 0 <= w < edge_sets@[q]@.len()
                ==> is_edge_value(specs@[q], #[trigger] edge_sets@[q]@[w] as int),
            forall|q: int, w1: int, w2: int|
                0 <= q < idx2 && 0 <= w1 < w2 < edge_sets@[q]@.len()
                    ==> #[trigger] edge_sets@[q]@[w1] < #[trigger] edge_sets@[q]@[w2],
        decreases n - idx2,
    {
        let ev = edge_values(&specs[idx2]);
        total = match total.checked_mul(ev.len()) {
            Some(t) => t,
            None => usize::MAX,
        };
        edge_sets.push(ev);
        idx2 = idx2 + 1;
    }
    if total == 0 || total > max_cartesian_cases {
        proof {
            lemma_take_prefix_trans(after_maxs, after_alts, out@);
            lemma_take_prefix_trans(orig, after_alts, out@);
            lemma_edge_phase_post(orig, after_mins, after_maxs, out@, specs@, budget);
            lemma_base_recipes_persist(after_alts, out@, orig, specs@, budget);
        }
        return ;
    }
    let ghost before_cart = out@;
    let mut stack: Vec<i64> = Vec::new();
    proof {
        assert(lists_strictly_sorted(edge_sets@));
    }
    cartesian_collect(&edge_sets, 0, &mut stack, out, budget);
    proof {
        lemma_take_prefix_trans(after_alts, before_cart, out@);
        lemma_take_prefix_trans(after_maxs, after_alts, out@);
        lemma_take_prefix_trans(orig, after_alts, out@);
        lemma_prefix_keeps_low_entries(before_cart, out@);
        assert forall|j: int| before_cart.len() <= j < out@.len() implies tuple_in_bounds(
            #[trigger] out@[j]@,
            specs@,
        ) by {
            assert(from_value_lists(out@[j]@, edge_sets@, Seq::<i64>::empty()));
            assert forall|q: int| 0 <= q < out@[j]@.len() implies specs@[q].min
                <= #[trigger] out@[j]@[q] <= specs@[q].max by {
                assert(edge_sets@[q]@.contains(out@[j]@[q]));
                let w = choose|w: int|
                    0 <= w < edge_sets@[q]@.len() && #[trigger] edge_sets@[q]@[w] == out@[j]@[q];
                assert(is_edge_value(specs@[q], edge_sets@[q]@[w] as int));
            }
        }
        assert forall|j: int| before_cart.len() <= j < out@.len() implies edge_recipe_fields(
            #[trigger] out@[j]@,
            specs@,
        ) by {
            assert(from_value_lists(out@[j]@, edge_sets@, Seq::<i64>::empty()));
            assert forall|q: int| 0 <= q < out@[j]@.len() implies is_edge_value(
                specs@[q],
                #[trigger] out@[j]@[q] as int,
            ) by {
                assert(edge_sets@[q]@.contains(out@[j]@[q]));
                let w = choose|w: int|
                    0 <= w < edge_sets@[q]@.len() && #[trigger] edge_sets@[q]@[w] == out@[j]@[q];
                assert(is_edge_value(specs@[q], edge_sets@[q]@[w] as int));
            }
        }
        lemma_extend_recipes(before_cart, out@, orig.len() as int, specs@);
        lemma_edge_phase_post(orig, after_mins, after_maxs, out@, specs@, budget);
        lemma_base_recipes_persist(after_alts, out@, orig, specs@, budget);
    }
}

/// Fills the list with partition-grid tuples, deduplicated, until the budget
/// caps the list: a cursor walks the per-field quartile grids, each field one
/// step ahead of the last, and the walk stops when the budget is met or no
/// new tuple has appeared for four budgets' worth of cursor steps.
#[verifier::loop_isolation(false)]
pub fn extend_partition_cases(out: &mut Vec<Vec<i64>>, specs: &Vec<ParsedInput>, budget: usize)
    requires
        specs_wf(specs@),
        all_in_bounds(old(out)@, specs@),
        distinct_tuples(old(out)@),
    ensures
        final(out)@.len() >= old(out)@.len(),
        final(out)@.take(old(out)@.len() as int) == old(out)@,
        final(out)@.len() <= old(out)@.len() || final(out)@.len() <= budget,
        all_in_bounds(final(out)@, specs@),
        distinct_tuples(final(out)@),
        forall|j: int| old(out)@.len() <= j < final(out)@.len() ==> tuple_from_grid(
            #[trigger] final(out)@[j]@,
            specs@,
        ),
        old(out)@.len() < budget && specs@.len() > 0 ==> exists|j: int|
            0 <= j < final(out)@.len() && tuple_from_grid(#[trigger] final(out)@[j]@, specs@),
{
    proof {
        assert(out@.take(out@.len() as int) =~= out@);
    }
    if budget == 0 || specs.len() == 0 {
        return ;
    }
    if out.len() >= budget {
        return ;
    }
    let ghost orig = out@;
    let n = specs.len();
    let mut points: Vec<Vec<i64>> = Vec::new();
    let mut idx: usize = 0;
    while idx < n
        invariant
            idx <= n,
            points@.len() == idx,
            forall|q: int| 0 <= q < idx ==> #[trigger] points@[q]@.len() >= 1,
            forall|q: int, w: int| 0 <= q < idx && 0 <= w < points@[q]@.len() ==> specs@[q].min
                <= #[trigger] points@[q]@[w] <= specs@[q].max,
            forall|q: int, w: int| 0 <= q < idx && 0 <= w < points@[q]@.len()
                ==> is_partition_value(specs@[q], #[trigger] points@[q]@[w] as int),
        decreases n - idx,
    {
        points.push(partition_points(&specs[idx]));
        idx = idx + 1;
    }
    let mut residues: Vec<usize> = Vec::new();
    let mut idx3: usize = 0;
    while idx3 < n
        invariant
            idx3 <= n,
            residues@.len() == idx3,
            forall|q: int| 0 <= q < idx3 ==> #[trigger] residues@[q] < points@[q]@.len(),
        decreases n - idx3,
    {
        residues.push(idx3 % points[idx3].len());
        idx3 = idx3 + 1;
    }
    let stale_limit: usize = if budget > usize::MAX / 4 {
        usize::MAX
    } else {
        4 * budget
    };
    let mut stale: usize = 0;
    let ghost mut started: bool = false;
    while out.len() < budget && stale < stale_limit
        invariant
            out@.len() <= budget,
            out@.len() >= orig.len(),
            out@.take(orig.len() as int) == orig,
            all_in_bounds(out@, specs@),
            distinct_tuples(out@),
            residues@.len() == n,
            forall|q: int| 0 <= q < n ==> #[trigger] residues@[q] < points@[q]@.len(),
            forall|j: int| orig.len() <= j < out@.len() ==> tuple_from_grid(
                #[trigger] out@[j]@,
                specs@,
            ),
            started ==> exists|j: int|
                0 <= j < out@.len() && tuple_from_grid(#[trigger] out@[j]@, specs@),
            !started ==> out@ == orig && stale == 0,
        decreases budget - out@.len(), stale_limit - stale,
    {
        let mut values: Vec<i64> = Vec::new();
        let mut f: usize = 0;
        while f < n
            invariant
                f <= n,
                values@.len() == f,
                forall|q: int| 0 <= q < f ==> specs@[q].min <= #[trigger] values@[q]
                    <= specs@[q].max,
                forall|q: int| 0 <= q < f ==> is_partition_value(
                    specs@[q],
                    #[trigger] values@[q] as int,
                ),
            decreases n - f,
        {
            values.push(points[f][residues[f]]);
            f = f + 1;
        }
        proof {
            assert(tuple_from_grid(values@, specs@));
        }
        let before = out.len();
        let ghost mid = out@;
        push_unique(out, values, budget);
        proof {
            lemma_take_prefix_trans(orig, mid, out@);
            lemma_prefix_keeps_low_entries(mid, out@);
            assert forall|j: int| orig.len() <= j < out@.len() implies tuple_from_grid(
                #[trigger] out@[j]@,
                specs@,
            ) by {
                if j < mid.len() {
                    assert(out@[j]@ == mid[j]@);
                } else {
                    assert(out@ == mid.push(values));
                    assert(out@[j]@ == values@);
                }
            }
            let w = choose|i: int|
                0 <= i <= mid.len() && i < out@.len() && #[trigger] out@[i]@ == values@;
            assert(tuple_from_grid(out@[w]@, specs@));
            started = true;
        }
        let mut g: usize = 0;
        while g < n
            invariant
                g <= n,
                residues@.len() == n,
                forall|q: int| 0 <= q < n ==> #[trigger] residues@[q] < points@[q]@.len(),
            decreases n - g,
        {
            let plen = points[g].len();
            residues[g] = (residues[g] + 1) % plen;
            g = g + 1;
        }
        if out.len() == before {
            stale = stale + 1;
        } else {
            stale = 0;
        }
    }
    proof {
        if orig.len() < budget {
            // the walk ran at least once, so a grid tuple is present
            assert(started);
        }
    }
}

/// Why the corpus-mixing settings were rejected.
#[derive(Debug)]
pub enum PbtError {
    /// The edge-case ratio lies outside `[0, 1]`.
    EdgeRatio,
    /// The partition ratio lies outside `[0, 1]`.
    PartitionRatio,
    /// The two ratios together exceed `1`.
    RatioSum,
    /// The Cartesian-product cap is zero.
    CartesianCap,
}

/// The first fault in the corpus-mixing settings, checked in order.
pub open spec fn spec_validate_pbt(p: Pbt) -> Option<PbtError> {
    if p.edge_case_ratio_milli > 1000 {
        Some(PbtError::EdgeRatio)
    } else if p.partition_ratio_milli > 1000 {
        Some(PbtError::PartitionRatio)
    } else if p.edge_case_ratio_milli + p.partition_ratio_milli > 1000 {
        Some(PbtError::RatioSum)
    } else if p.max_cartesian_cases == 0 {
        Some(PbtError::CartesianCap)
    } else {
        None
    }
}

/// Rejects ratios outside `[0, 1]`, ratios that together exceed `1`, and a
/// zero Cartesian cap.
pub fn validate_pbt_config(pbt: &Pbt) -> (r: Result<(), PbtError>)
    ensures
        match r {
            Ok(()) => spec_validate_pbt(*pbt) is None,
            Err(e) => spec_validate_pbt(*pbt) == Some(e),
        },
{
    if pbt.edge_case_ratio_milli > 1000 {
        Err(PbtError::EdgeRatio)
    } else if pbt.partition_ratio_milli > 1000 {
        Err(PbtError::PartitionRatio)
    } else if pbt.edge_case_ratio_milli + pbt.partition_ratio_milli > 1000 {
        Err(PbtError::RatioSum)
    } else if pbt.max_cartesian_cases == 0 {
        Err(PbtError::CartesianCap)
    } else {
        Ok(())
    }
}

/// A phase budget: the corpus size scaled by a ratio in thousandths, rounded
/// half up.
pub open spec fn spec_budget(cases: int, milli: int) -> int {
    (cases * milli + 500) / 1000
}

/// Computes a phase budget; it never exceeds the corpus size.
fn ratio_budget(cases: usize, milli: u32) -> (r: usize)
    requires
        milli <= 1000,
    ensures
        r as int == spec_budget(cases as int, milli as int),
        r <= cases,
{
    proof {
        assert((cases as int) * (milli as int) <= 0xffff_ffff_ffff_ffff * 1000int)
            by (nonlinear_arith)
            requires
                0 <= cases as int <= 0xffff_ffff_ffff_ffff,
                0 <= milli as int <= 1000,
        ;
    }
    let wide: u128 = (cases as u128) * (milli as u128) + 500;
    let b: u128 = wide / 1000;
    proof {
        lemma_mul_inequality(milli as int, 1000, cases as int);
        assert(cases as int * milli as int == milli as int * cases as int) by (nonlinear_arith);
        assert(cases as int * 1000 == 1000 * cases as int) by (nonlinear_arith);
        lemma_div_is_ordered(
            cases as int * milli as int + 500,
            cases as int * 1000 + 500,
            1000,
        );
        vstd::arithmetic::div_mod::lemma_div_multiples_vanish_fancy(cases as int, 500, 1000);
        lemma_mul_nonnegative(cases as int, milli as int);
        lemma_div_pos_is_pos(cases as int * milli as int + 500, 1000);
    }
    b as usize
}

/// Appends `count` uniform-random tuples, each field drawn from its interval;
/// the draws come from the seeded stream and are not deduplicated.
#[verifier::loop_isolation(false)]
fn generate_random_cases(
    out: &mut Vec<Vec<i64>>,
    specs: &Vec<ParsedInput>,
    count: usize,
    rng: &mut rand::rngs::StdRng,
)
    requires
        specs_wf(specs@),
        all_in_bounds(old(out)@, specs@),
        old(out)@.len() + count <= usize::MAX,
    ensures
        final(out)@.len() == old(out)@.len() + count,
        final(out)@.take(old(out)@.len() as int) == old(out)@,
        all_in_bounds(final(out)@, specs@),
{
    proof {
        assert(out@.take(out@.len() as int) =~= out@);
    }
    let ghost orig = out@;
    let n = specs.len();
    let mut c: usize = 0;
    while c < count
        invariant
            c <= count,
            out@.len() == orig.len() + c,
            out@.take(orig.len() as int) == orig,
            all_in_bounds(out@, specs@),
        decreases count - c,
    {
        let mut values: Vec<i64> = Vec::new();
        let mut f: usize = 0;
        while f < n
            invariant
                f <= n,
                values@.len() == f,
                forall|q: int| 0 <= q < f ==> specs@[q].min <= #[trigger] values@[q]
                    <= specs@[q].max,
            decreases n - f,
        {
            let v = crate::rng::random_in_range(rng, specs[f].min, specs[f].max);
            values.push(v);
            f = f + 1;
        }
        let ghost mid = out@;
        out.push(values);
        proof {
            assert(out@.take(orig.len() as int) =~= orig) by {
                assert(forall|i: int| 0 <= i < mid.len() ==> out@[i] == mid[i]);
            }
        }
        c = c + 1;
    }
}

/// A corpus line that renders some in-bounds tuple.
pub open spec fn line_of_valid_tuple(line: Seq<u8>, specs: Seq<ParsedInput>) -> bool {
    exists|t: Seq<i64>| tuple_in_bounds(t, specs) && line == case_line(t)
}

/// The first `k` corpus lines render pairwise-distinct tuples drawn from the
/// edge-case recipes or the partition grid: the deduplicated seeded prefix
/// that stands before the uniform-random fill.
pub open spec fn seeded_prefix_shape(v: Seq<Vec<u8>>, k: int, specs: Seq<ParsedInput>) -> bool {
    exists|ts: Seq<Seq<i64>>|
        #![trigger ts.len()]
        {
            &&& ts.len() == k
            &&& forall|i: int| 0 <= i < k ==> #[trigger] v[i]@ == case_line(ts[i])
            &&& forall|i: int| 0 <= i < k ==> edge_recipe_fields(#[trigger] ts[i], specs)
                || tuple_from_grid(ts[i], specs)
            &&& forall|i: int, j: int| 0 <= i < j < k ==> ts[i] != ts[j]
        }
}

/// The corpus opens with a deduplicated seeded prefix — absent when the
/// mixing phases are disabled — and the uniform-random fill follows it.
pub open spec fn corpus_shape(v: Seq<Vec<u8>>, enabled: bool, specs: Seq<ParsedInput>) -> bool {
    exists|k: int|
        0 <= k <= v.len() && (!enabled ==> k == 0) && #[trigger] seeded_prefix_shape(v, k, specs)
}

/// The corpus holds the all-minimum and the all-maximum lines.
pub open spec fn corpus_has_extremes(v: Seq<Vec<u8>>, specs: Seq<ParsedInput>) -> bool {
    &&& exists|i: int|
        0 <= i < v.len() && #[trigger] v[i]@ == case_line(min_tuple(specs))
    &&& exists|i: int|
        0 <= i < v.len() && #[trigger] v[i]@ == case_line(max_tuple(specs))
}

/// Builds the corpus: exactly `cases` lines, each rendering a tuple whose
/// every value lies in its field's interval.
///
/// With the mixing phases enabled, the settings are validated first, the
/// edge and partition phases fill a deduplicated prefix within their budgets,
/// and seeded uniform-random tuples fill the rest; with them disabled the
/// whole corpus is uniform-random. When the edge budget admits at least three
/// tuples, the all-min and all-max lines stand in the corpus.
#[verifier::loop_isolation(false)]
#[verifier::rlimit(80)]
pub fn generate_inputs(specs: &Vec<ParsedInput>, cases: usize, seed: u64, pbt: &Pbt) -> (r: Result<
    Vec<Vec<u8>>,
    PbtError,
>)
    requires
        specs_wf(specs@),
    ensures
        r is Ok ==> r->Ok_0@.len() == cases,
        r is Ok ==> forall|i: int|
            0 <= i < r->Ok_0@.len() ==> line_of_valid_tuple(#[trigger] r->Ok_0@[i]@, specs@),
        r is Ok ==> !(cases > 0 && pbt.enabled && spec_validate_pbt(*pbt) is Some),
        r is Ok && cases > 0 && pbt.enabled && specs@.len() > 0 && spec_budget(
            cases as int,
            pbt.edge_case_ratio_milli as int,
        ) >= 3 ==> corpus_has_extremes(r->Ok_0@, specs@),
        r is Ok ==> corpus_shape(r->Ok_0@, pbt.enabled, specs@),
        r is Err ==> cases > 0 && pbt.enabled && spec_validate_pbt(*pbt) == Some(r->Err_0),
{
    if cases == 0 {
        let empty_corpus: Vec<Vec<u8>> = Vec::new();
        proof {
            assert(seeded_prefix_shape(empty_corpus@, 0, specs@)) by {
                let ts = Seq::<Seq<i64>>::empty();
                assert(ts.len() == 0);
            }
            assert(corpus_shape(empty_corpus@, pbt.enabled, specs@));
        }
        return Ok(empty_corpus);
    }
    let mut tuples: Vec<Vec<i64>> = Vec::new();
    let ghost e_budget_spec: int = spec_budget(cases as int, pbt.edge_case_ratio_milli as int);
    let ghost mut p4: bool = false;
    let ghost mut idx_min: int = 0;
    let ghost mut idx_max: int = 0;
    let ghost mut edge_snap: Seq<Vec<i64>> = Seq::empty();
    let ghost mut part_snap: Seq<Vec<i64>> = Seq::empty();
    if pbt.enabled {
        match validate_pbt_config(pbt) {
            Err(e) => {
                return Err(e);
            },
            Ok(()) => {},
        }
        let e_budget = ratio_budget(cases, pbt.edge_case_ratio_milli);
        let p_budget = ratio_budget(cases, pbt.partition_ratio_milli);
        extend_edge_cases(&mut tuples, specs, e_budget, pbt.max_cartesian_cases);
        let ghost after_edge = tuples@;
        extend_partition_cases(&mut tuples, specs, p_budget);
        proof {
            lemma_prefix_keeps_low_entries(after_edge, tuples@);
            edge_snap = after_edge;
            part_snap = tuples@;
            if specs@.len() > 0 && e_budget_spec >= 3 {
                p4 = true;
                idx_min = choose|i: int|
                    0 <= i < 3 && i < after_edge.len() && #[trigger] after_edge[i]@ == min_tuple(
                        specs@,
                    );
                idx_max = choose|i: int|
                    0 <= i < 3 && i < after_edge.len() && #[trigger] after_edge[i]@ == max_tuple(
                        specs@,
                    );
                assert(tuples@[idx_min]@ == min_tuple(specs@));
                assert(tuples@[idx_max]@ == max_tuple(specs@));
            }
        }
    }
    proof {
        assert(tuples@.len() <= cases);
    }
    if tuples.len() > cases {
        tuples.truncate(cases);
    }
    let need = cases - tuples.len();
    let mut rng = crate::rng::rng_from_seed(seed);
    let ghost before_random = tuples@;
    generate_random_cases(&mut tuples, specs, need, &mut rng);
    proof {
        lemma_prefix_keeps_low_entries(before_random, tuples@);
        if p4 {
            assert(tuples@[idx_min]@ == min_tuple(specs@));
            assert(tuples@[idx_max]@ == max_tuple(specs@));
        }
    }
    let mut lines: Vec<Vec<u8>> = Vec::new();
    let m = tuples.len();
    let mut i: usize = 0;
    while i < m
        invariant
            i <= m,
            m == tuples@.len(),
            lines@.len() == i,
            forall|j: int| 0 <= j < i ==> #[trigger] lines@[j]@ == case_line(tuples@[j]@),
        decreases m - i,
    {
        lines.push(format_case(&tuples[i]));
        i = i + 1;
    }
    proof {
        assert forall|j: int| 0 <= j < lines@.len() implies line_of_valid_tuple(
            #[trigger] lines@[j]@,
            specs@,
        ) by {
            assert(tuple_in_bounds(tuples@[j]@, specs@) && lines@[j]@ == case_line(tuples@[j]@));
        }
        if cases > 0 && pbt.enabled && specs@.len() > 0 && e_budget_spec >= 3 {
            assert(p4);
            assert(0 <= idx_min < lines@.len() && lines@[idx_min]@ == case_line(
                min_tuple(specs@),
            ));
            assert(0 <= idx_max < lines@.len() && lines@[idx_max]@ == case_line(
                max_tuple(specs@),
            ));
            assert(corpus_has_extremes(lines@, specs@));
        }
        // the corpus is a deduplicated seeded prefix followed by the random
        // fill
        let k = before_random.len() as int;
        let ts = Seq::<Seq<i64>>::new(k as nat, |j: int| tuples@[j]@);
        assert(ts.len() == k);
        assert forall|j: int| 0 <= j < k implies #[trigger] lines@[j]@ == case_line(ts[j]) by {
            assert(ts[j] == tuples@[j]@);
        }
        assert forall|j: int| 0 <= j < k implies edge_recipe_fields(#[trigger] ts[j], specs@)
            || tuple_from_grid(ts[j], specs@) by {
            assert(tuples@[j]@ == before_random[j]@);
            if pbt.enabled {
                assert(before_random == part_snap);
                lemma_prefix_keeps_low_entries(edge_snap, part_snap);
                if j < edge_snap.len() {
                    assert(edge_recipe_fields(edge_snap[j]@, specs@));
                } else {
                    assert(tuple_from_grid(part_snap[j]@, specs@));
                }
            }
        }
        assert forall|a: int, b: int| 0 <= a < b < k implies ts[a] != ts[b] by {
            assert(tuples@[a]@ == before_random[a]@);
            assert(tuples@[b]@ == before_random[b]@);
            if pbt.enabled {
                assert(before_random[a]@ != before_random[b]@);
            }
        }
        assert(seeded_prefix_shape(lines@, k, specs@));
        assert(0 <= k <= lines@.len());
        assert(!pbt.enabled ==> k == 0);
        assert(corpus_shape(lines@, pbt.enabled, specs@));
    }
    Ok(lines)
}

/// Prefix preservation is transitive.
proof fn lemma_take_prefix_trans(a: Seq<Vec<i64>>, b: Seq<Vec<i64>>, c: Seq<Vec<i64>>)
    requires
        b.len() >= a.len(),
        c.len() >= b.len(),
        b.take(a.len() as int) == a,
        c.take(b.len() as int) == b,
    ensures
        c.take(a.len() as int) == a,
{
    assert(c.take(a.len() as int) =~= a) by {
        assert(forall|i: int| 0 <= i < b.len() ==> c.take(b.len() as int)[i] == c[i]);
        assert(forall|i: int| 0 <= i < a.len() ==> b.take(a.len() as int)[i] == b[i]);
    }
}

/// Entries below a preserved prefix keep their values.
proof fn lemma_prefix_keeps_low_entries(prefix: Seq<Vec<i64>>, whole: Seq<Vec<i64>>)
    requires
        whole.len() >= prefix.len(),
        whole.take(prefix.len() as int) == prefix,
    ensures
        forall|i: int| 0 <= i < prefix.len() ==> #[trigger] whole[i]@ == prefix[i]@,
{
    assert(forall|i: int| 0 <= i < prefix.len() ==> whole.take(prefix.len() as int)[i]
        == whole[i]);
}

/// After the first three pushes of the edge phase, the all-min and all-max
/// tuples stand among the first three entries, and stay there while the list
/// only grows.
proof fn lemma_edge_phase_post(
    orig: Seq<Vec<i64>>,
    after_mins: Seq<Vec<i64>>,
    after_maxs: Seq<Vec<i64>>,
    cur: Seq<Vec<i64>>,
    specs: Seq<ParsedInput>,
    budget: usize,
)
    requires
        budget >= 3 && orig.len() == 0 ==> contains_tuple(after_mins, min_tuple(specs))
            && after_mins.len() <= 2,
        budget >= 3 && orig.len() == 0 ==> contains_tuple(after_maxs, max_tuple(specs))
            && after_maxs.len() <= 3,
        after_maxs.len() >= after_mins.len(),
        after_maxs.take(after_mins.len() as int) == after_mins,
        cur.len() >= after_maxs.len(),
        cur.take(after_maxs.len() as int) == after_maxs,
    ensures
        budget >= 3 && orig.len() == 0 ==> (exists|i: int|
            0 <= i < 3 && i < cur.len() && #[trigger] cur[i]@ == min_tuple(specs)) && (exists|i: int|
            0 <= i < 3 && i < cur.len() && #[trigger] cur[i]@ == max_tuple(specs)),
{
    if budget >= 3 && orig.len() == 0 {
        lemma_prefix_keeps_low_entries(after_mins, after_maxs);
        lemma_prefix_keeps_low_entries(after_maxs, cur);
        let wmin = choose|w: int|
            0 <= w < after_mins.len() && #[trigger] after_mins[w]@ == min_tuple(specs);
        assert(cur[wmin]@ == min_tuple(specs));
        let wmax = choose|w: int|
            0 <= w < after_maxs.len() && #[trigger] after_maxs[w]@ == max_tuple(specs);
        assert(cur[wmax]@ == max_tuple(specs));
    }
}

} // verus!
