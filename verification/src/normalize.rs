//! Output canonicalization: `\r\n` becomes `\n`, trailing whitespace can be
//! stripped per line, and trailing newlines can be ignored.
//!
//! Two outputs match exactly when their normalized byte strings are equal.

use vstd::prelude::*;

use crate::config::Normalize;
use crate::constraints::is_space;

verus! {

/// Whitespace inside a line, i.e. anything trimmed from a line's right end.
pub open spec fn is_line_ws(b: u8) -> bool {
    is_space(b) && b != 10
}

/// `s` with every `\r\n` replaced by `\n`, scanning left to right without
/// overlap.
pub open spec fn strip_crlf(s: Seq<u8>) -> Seq<u8>
    decreases s.len(),
{
    if s.len() == 0 {
        Seq::empty()
    } else if s.len() >= 2 && s[0] == 13 && s[1] == 10 {
        seq![10u8] + strip_crlf(s.skip(2))
    } else {
        seq![s[0]] + strip_crlf(s.skip(1))
    }
}

/// A line with its trailing whitespace removed.
pub open spec fn rstrip_line(s: Seq<u8>) -> Seq<u8>
    decreases s.len(),
{
    if s.len() > 0 && is_line_ws(s.last()) {
        rstrip_line(s.drop_last())
    } else {
        s
    }
}

/// Index of the first newline, or the length when there is none.
pub open spec fn first_nl(s: Seq<u8>) -> int
    decreases s.len(),
{
    if s.len() == 0 {
        0
    } else if s[0] == 10 {
        0
    } else {
        1 + first_nl(s.skip(1))
    }
}

/// The first newline index lies within the sequence.
pub proof fn lemma_first_nl_range(s: Seq<u8>)
    ensures
        0 <= first_nl(s) <= s.len(),
        first_nl(s) < s.len() ==> s[first_nl(s)] == 10,
        forall|i: int| 0 <= i < first_nl(s) ==> s[i] != 10,
    decreases s.len(),
{
    if s.len() > 0 && s[0] != 10 {
        lemma_first_nl_range(s.skip(1));
        assert forall|i: int| 0 <= i < first_nl(s) implies s[i] != 10 by {
            if i >= 1 {
                assert(s[i] == s.skip(1)[i - 1]);
            }
        }
    }
}

/// A position with no newline before it and a newline (or the end) at it is
/// the first newline.
pub proof fn lemma_first_nl_at(s: Seq<u8>, k: int)
    requires
        0 <= k <= s.len(),
        forall|i: int| 0 <= i < k ==> s[i] != 10,
        k == s.len() || s[k] == 10,
    ensures
        first_nl(s) == k,
    decreases k,
{
    if k > 0 {
        lemma_first_nl_at(s.skip(1), k - 1);
    }
}

/// `s` split on newlines, each line right-stripped, re-joined with newlines.
pub open spec fn rstrip_lines(s: Seq<u8>) -> Seq<u8>
    decreases s.len(),
    via rstrip_lines_dec
{
    let k = first_nl(s);
    if k == s.len() {
        rstrip_line(s)
    } else {
        rstrip_line(s.take(k)) + seq![10u8] + rstrip_lines(s.skip(k + 1))
    }
}

#[via_fn]
proof fn rstrip_lines_dec(s: Seq<u8>) {
    lemma_first_nl_range(s);
}

/// `s` with every trailing newline removed.
pub open spec fn strip_final_nl(s: Seq<u8>) -> Seq<u8>
    decreases s.len(),
{
    if s.len() > 0 && s.last() == 10 {
        strip_final_nl(s.drop_last())
    } else {
        s
    }
}

/// The canonical form of a raw output under the given flags.
pub open spec fn spec_normalize(s: Seq<u8>, cfg: Normalize) -> Seq<u8> {
    let a = strip_crlf(s);
    let b = if cfg.trim_trailing_ws {
        rstrip_lines(a)
    } else {
        a
    };
    if cfg.ignore_final_newline {
        strip_final_nl(b)
    } else {
        b
    }
}

/// Replaces every `\r\n` with `\n`.
#[verifier::loop_isolation(false)]
fn crlf_to_lf(s: &Vec<u8>) -> (r: Vec<u8>)
    ensures
        r@ == strip_crlf(s@),
{
    let n = s.len();
    let mut out: Vec<u8> = Vec::new();
    let mut i: usize = 0;
    proof {
        assert(s@.skip(0) =~= s@);
        assert(out@ + strip_crlf(s@) =~= strip_crlf(s@));
    }
    while i < n
        invariant
            i <= n,
            out@ + strip_crlf(s@.skip(i as int)) == strip_crlf(s@),
        decreases n - i,
    {
        let ghost rest = s@.skip(i as int);
        if s[i] == 13 && i + 1 < n && s[i + 1] == 10 {
            out.push(10);
            proof {
                assert(rest.skip(2) =~= s@.skip(i + 2));
                assert(out@ + strip_crlf(s@.skip(i + 2)) =~= strip_crlf(s@));
            }
            i = i + 2;
        } else {
            out.push(s[i]);
            proof {
                assert(rest.skip(1) =~= s@.skip(i + 1));
                assert(out@ + strip_crlf(s@.skip(i + 1)) =~= strip_crlf(s@));
            }
            i = i + 1;
        }
    }
    proof {
        assert(strip_crlf(s@.skip(n as int)) =~= Seq::<u8>::empty());
        assert(out@ =~= strip_crlf(s@));
    }
    out
}

/// Right-stripping a line whose whitespace tail starts at `e` keeps exactly
/// the first `e` bytes.
proof fn lemma_rstrip_line_take(t: Seq<u8>, e: int)
    requires
        0 <= e <= t.len(),
        forall|i: int| e <= i < t.len() ==> is_line_ws(t[i]),
        e == 0 || !is_line_ws(t[e - 1]),
    ensures
        rstrip_line(t) == t.take(e),
    decreases t.len() - e,
{
    if e == t.len() {
        if t.len() > 0 {
            assert(!is_line_ws(t.last()));
        }
        assert(t.take(e) =~= t);
    } else {
        assert(is_line_ws(t.last()));
        assert(t.drop_last() =~= t.take(t.len() - 1));
        lemma_rstrip_line_take(t.drop_last(), e);
        assert(t.drop_last().take(e) =~= t.take(e));
    }
}

/// Right-strips every line of `s`.
fn rstrip_all_lines(s: &Vec<u8>) -> (r: Vec<u8>)
    ensures
        r@ == rstrip_lines(s@),
{
    let n = s.len();
    let mut out: Vec<u8> = Vec::new();
    let mut pos: usize = 0;
    proof {
        assert(s@.skip(0) =~= s@);
    }
    loop
        invariant_except_break
            out@ + rstrip_lines(s@.skip(pos as int)) == rstrip_lines(s@),
        invariant
            pos <= n,
            n == s@.len(),
        ensures
            out@ == rstrip_lines(s@),
        decreases n - pos,
    {
        let ghost rest = s@.skip(pos as int);
        let ghost out_in = out@;
        // find the end of this line
        let mut k = pos;
        while k < n && s[k] != 10
            invariant
                pos <= k <= n,
                n == s@.len(),
                forall|i: int| pos <= i < k ==> s@[i] != 10,
            decreases n - k,
        {
            k = k + 1;
        }
        proof {
            assert(forall|i: int| 0 <= i < k - pos ==> rest[i] == s@[pos + i]);
            lemma_first_nl_at(rest, k - pos);
            assert(rest.take(k - pos) =~= s@.subrange(pos as int, k as int));
        }
        // find the end of the line's content
        let mut e = k;
        while e > pos && line_ws_byte(s[e - 1])
            invariant
                pos <= e <= k <= n,
                n == s@.len(),
                forall|i: int| e <= i < k ==> is_line_ws(s@[i]),
            decreases e,
        {
            e = e - 1;
        }
        proof {
            lemma_rstrip_line_take(s@.subrange(pos as int, k as int), e - pos);
            assert(s@.subrange(pos as int, k as int).take(e - pos) =~= s@.subrange(
                pos as int,
                e as int,
            ));
        }
        // copy the stripped line
        let mut j = pos;
        while j < e
            invariant
                pos <= j <= e <= n,
                n == s@.len(),
                out@ == out_in + s@.subrange(pos as int, j as int),
            decreases e - j,
        {
            out.push(s[j]);
            proof {
                assert(s@.subrange(pos as int, j + 1) =~= s@.subrange(pos as int, j as int)
                    + seq![s@[j as int]]);
                assert(out@ =~= out_in + s@.subrange(pos as int, j + 1));
            }
            j = j + 1;
        }
        proof {
            assert(s@.subrange(pos as int, pos as int) =~= Seq::<u8>::empty());
            assert(out_in + s@.subrange(pos as int, pos as int) =~= out_in);
        }
        if k == n {
            proof {
                assert(rstrip_lines(rest) == rstrip_line(rest));
                assert(rest.take(k - pos) =~= rest);
                assert(out@ =~= out_in + rstrip_line(rest));
                assert(out@ + rstrip_lines(s@.skip(n as int)) =~= out@);
            }
            break;
        }
        out.push(10);
        proof {
            assert(rest.skip(k - pos + 1) =~= s@.skip(k + 1));
            assert(out@ =~= out_in + (rstrip_line(rest.take(k - pos)) + seq![10u8]));
            assert(out@ + rstrip_lines(s@.skip(k + 1)) =~= out_in + rstrip_lines(rest));
        }
        pos = k + 1;
    }
    proof {
        assert(rstrip_lines(s@.skip(n as int)) == rstrip_line(s@.skip(n as int)));
    }
    out
}

/// True iff `b` is whitespace a line can end with.
fn line_ws_byte(b: u8) -> (r: bool)
    ensures
        r == is_line_ws(b),
{
    b == 32 || b == 9 || (11 <= b && b <= 13)
}

/// Removes every trailing newline in place.
fn pop_final_newlines(out: &mut Vec<u8>)
    ensures
        final(out)@ == strip_final_nl(old(out)@),
{
    let ghost orig = out@;
    loop
        invariant_except_break
            strip_final_nl(out@) == strip_final_nl(orig),
        invariant
            true,
        ensures
            out@ == strip_final_nl(orig),
        decreases out@.len(),
    {
        let m = out.len();
        if m == 0 || out[m - 1] != 10 {
            proof {
                assert(strip_final_nl(out@) == out@);
            }
            break;
        }
        out.pop();
    }
}

/// No `\r\n` pair occurs.
pub open spec fn no_crlf(s: Seq<u8>) -> bool {
    forall|i: int| 0 <= i < s.len() - 1 ==> !(#[trigger] s[i] == 13 && s[i + 1] == 10)
}

/// No `\r\r\n` run occurs.
pub open spec fn no_cr_cr_lf(s: Seq<u8>) -> bool {
    forall|i: int| 0 <= i < s.len() - 2 ==> !(#[trigger] s[i] == 13 && s[i + 1] == 13 && s[i + 2] == 10)
}

/// A string without `\r\n` pairs passes the replacement unchanged.
proof fn lemma_strip_crlf_id(s: Seq<u8>)
    requires
        no_crlf(s),
    ensures
        strip_crlf(s) == s,
    decreases s.len(),
{
    if s.len() > 0 {
        assert(!(s.len() >= 2 && s[0] == 13 && s[1] == 10));
        assert(no_crlf(s.skip(1))) by {
            assert(forall|i: int| 0 <= i < s.skip(1).len() ==> #[trigger] s.skip(1)[i] == s[i
                + 1]);
        }
        lemma_strip_crlf_id(s.skip(1));
        assert(seq![s[0]] + s.skip(1) =~= s);
    }
}

/// Without a `\r\r\n` run, the replacement leaves no `\r\n` pair behind; it
/// keeps the string's non-emptiness, and its first byte is the original
/// first byte unless the string began with the pair.
proof fn lemma_strip_crlf_no_pair(s: Seq<u8>)
    requires
        no_cr_cr_lf(s),
    ensures
        no_crlf(strip_crlf(s)),
        s.len() > 0 ==> strip_crlf(s).len() > 0,
        s.len() > 0 ==> strip_crlf(s)[0] == (if s.len() >= 2 && s[0] == 13 && s[1] == 10 {
            10
        } else {
            s[0]
        }),
    decreases s.len(),
{
    if s.len() == 0 {
    } else if s.len() >= 2 && s[0] == 13 && s[1] == 10 {
        let rest = s.skip(2);
        assert(no_cr_cr_lf(rest)) by {
            assert(forall|i: int| 0 <= i < rest.len() ==> #[trigger] rest[i] == s[i + 2]);
        }
        lemma_strip_crlf_no_pair(rest);
        let out = strip_crlf(s);
        let rec = strip_crlf(rest);
        assert forall|i: int| 0 <= i < out.len() - 1 implies !(#[trigger] out[i] == 13 && out[i + 1] == 10)
            by {
            if i == 0 {
                assert(out[0] == 10);
            } else {
                assert(out[i] == rec[i - 1]);
                assert(out[i + 1] == rec[i]);
            }
        }
    } else {
        let rest = s.skip(1);
        assert(no_cr_cr_lf(rest)) by {
            assert(forall|i: int| 0 <= i < rest.len() ==> #[trigger] rest[i] == s[i + 1]);
        }
        lemma_strip_crlf_no_pair(rest);
        let out = strip_crlf(s);
        let rec = strip_crlf(rest);
        assert forall|i: int| 0 <= i < out.len() - 1 implies !(#[trigger] out[i] == 13 && out[i + 1] == 10)
            by {
            if i == 0 {
                assert(out[0] == s[0]);
                assert(out[1] == rec[0]);
                if s[0] == 13 && rec[0] == 10 {
                    // the tail would have to begin with `\n` or `\r\n`
                    assert(rest.len() > 0);
                    if rest.len() >= 2 && rest[0] == 13 && rest[1] == 10 {
                        assert(s[0] == 13 && s[1] == 13 && s[2] == 10);
                        assert(false);
                    } else {
                        assert(rec[0] == rest[0]);
                        assert(s[1] == 10);
                        assert(false);
                    }
                }
            } else {
                assert(out[i] == rec[i - 1]);
                assert(out[i + 1] == rec[i]);
            }
        }
    }
}

/// Right-stripping keeps a prefix whose last byte is not line whitespace.
proof fn lemma_rl_props(x: Seq<u8>)
    ensures
        rstrip_line(x).len() <= x.len(),
        rstrip_line(x) == x.take(rstrip_line(x).len() as int),
        rstrip_line(x).len() > 0 ==> !is_line_ws(rstrip_line(x).last()),
    decreases x.len(),
{
    if x.len() > 0 && is_line_ws(x.last()) {
        lemma_rl_props(x.drop_last());
        assert(x.drop_last() =~= x.take(x.len() - 1));
        assert(x.drop_last().take(rstrip_line(x).len() as int) =~= x.take(
            rstrip_line(x).len() as int,
        ));
    } else {
        assert(x.take(x.len() as int) =~= x);
    }
}

/// Right-stripping twice equals right-stripping once.
proof fn lemma_rl_idem(x: Seq<u8>)
    ensures
        rstrip_line(rstrip_line(x)) == rstrip_line(x),
{
    lemma_rl_props(x);
}

/// The line structure of a string that starts with a newline-free line.
proof fn lemma_rsl_decomp(a: Seq<u8>, y: Seq<u8>)
    requires
        forall|i: int| 0 <= i < a.len() ==> a[i] != 10,
    ensures
        rstrip_lines(a + seq![10u8] + y) == rstrip_line(a) + seq![10u8] + rstrip_lines(y),
{
    let u = a + seq![10u8] + y;
    assert(forall|i: int| 0 <= i < a.len() ==> u[i] == a[i]);
    assert(u[a.len() as int] == 10);
    lemma_first_nl_at(u, a.len() as int);
    assert(u.take(a.len() as int) =~= a);
    assert(u.skip(a.len() as int + 1) =~= y);
}

/// Right-stripping every line never lengthens the string.
proof fn lemma_rsl_len(s: Seq<u8>)
    ensures
        rstrip_lines(s).len() <= s.len(),
    decreases s.len(),
{
    lemma_first_nl_range(s);
    let k = first_nl(s);
    if k == s.len() {
        lemma_rl_props(s);
    } else {
        lemma_rl_props(s.take(k));
        lemma_rsl_len(s.skip(k + 1));
    }
}

/// The stripped string holds no `\r\n` pair: a `\r` directly before a
/// newline would be trailing whitespace.
proof fn lemma_rsl_no_pair(s: Seq<u8>)
    ensures
        no_crlf(rstrip_lines(s)),
    decreases s.len(),
{
    lemma_first_nl_range(s);
    let k = first_nl(s);
    if k == s.len() {
        lemma_rl_props(s);
        let out = rstrip_line(s);
        assert forall|i: int| 0 <= i < out.len() - 1 implies !(#[trigger] out[i] == 13 && out[i + 1] == 10)
            by {
            assert(out[i + 1] == s[i + 1]);
        }
    } else {
        let a = s.take(k);
        let y = s.skip(k + 1);
        lemma_rl_props(a);
        lemma_rsl_no_pair(y);
        let out = rstrip_lines(s);
        let ra = rstrip_line(a);
        let ry = rstrip_lines(y);
        assert(out == ra + seq![10u8] + ry);
        assert forall|i: int| 0 <= i < out.len() - 1 implies !(#[trigger] out[i] == 13 && out[i + 1] == 10)
            by {
            if i < ra.len() - 1 {
                assert(out[i] == ra[i] && ra[i] == a[i]);
                assert(out[i + 1] == ra[i + 1] && ra[i + 1] == a[i + 1]);
                assert(a[i + 1] == s[i + 1] && s[i + 1] != 10);
            } else if i == ra.len() - 1 {
                assert(out[i] == ra[i]);
                assert(!is_line_ws(ra.last()));
                assert(out[i] != 13);
            } else if i == ra.len() {
                assert(out[i] == 10);
            } else {
                assert(out[i] == ry[i - ra.len() - 1]);
                assert(out[i + 1] == ry[i - ra.len()]);
            }
        }
    }
}

/// Right-stripping every line twice equals doing it once.
proof fn lemma_rsl_idem(s: Seq<u8>)
    ensures
        rstrip_lines(rstrip_lines(s)) == rstrip_lines(s),
    decreases s.len(),
{
    lemma_first_nl_range(s);
    let k = first_nl(s);
    if k == s.len() {
        lemma_rl_props(s);
        let out = rstrip_line(s);
        assert(forall|i: int| 0 <= i < out.len() ==> #[trigger] out[i] == s[i]);
        lemma_first_nl_at(out, out.len() as int);
        lemma_rl_idem(s);
    } else {
        let a = s.take(k);
        let y = s.skip(k + 1);
        lemma_rl_props(a);
        let ra = rstrip_line(a);
        assert(forall|i: int| 0 <= i < ra.len() ==> #[trigger] ra[i] == a[i]);
        lemma_rsl_decomp(a, y);
        lemma_rsl_idem(y);
        lemma_rsl_decomp(ra, rstrip_lines(y));
        lemma_rl_idem(a);
    }
}

/// Removing trailing newlines keeps a prefix that does not end in one, and
/// doing it twice equals doing it once.
proof fn lemma_sfn_props(s: Seq<u8>)
    ensures
        strip_final_nl(s).len() <= s.len(),
        strip_final_nl(s) == s.take(strip_final_nl(s).len() as int),
        strip_final_nl(s).len() > 0 ==> strip_final_nl(s).last() != 10,
        strip_final_nl(strip_final_nl(s)) == strip_final_nl(s),
    decreases s.len(),
{
    if s.len() > 0 && s.last() == 10 {
        lemma_sfn_props(s.drop_last());
        assert(s.drop_last() =~= s.take(s.len() - 1));
        assert(s.drop_last().take(strip_final_nl(s).len() as int) =~= s.take(
            strip_final_nl(s).len() as int,
        ));
    } else {
        assert(s.take(s.len() as int) =~= s);
    }
}

/// A string whose lines are stripped keeps that shape when its last byte, a
/// newline, is removed.
proof fn lemma_rsl_fixed_drop(x: Seq<u8>)
    requires
        rstrip_lines(x) == x,
        x.len() > 0,
        x.last() == 10,
    ensures
        rstrip_lines(x.drop_last()) == x.drop_last(),
    decreases x.len(),
{
    lemma_first_nl_range(x);
    let k = first_nl(x);
    assert(k < x.len()) by {
        if k == x.len() {
            assert(x[x.len() - 1] != 10);
        }
    }
    let a = x.take(k);
    let y = x.skip(k + 1);
    assert(x =~= a + seq![10u8] + y);
    lemma_rsl_decomp(a, y);
    lemma_rl_props(a);
    lemma_rsl_len(y);
    let ra = rstrip_line(a);
    let ry = rstrip_lines(y);
    // the decomposition of the fixed point forces both parts to be fixed
    assert(ra.len() == a.len() && ry.len() == y.len());
    assert(ra =~= a);
    assert(ry =~= y) by {
        assert(forall|i: int| 0 <= i < y.len() ==> (ra + seq![10u8] + ry)[k + 1 + i] == ry[i]);
        assert(forall|i: int| 0 <= i < y.len() ==> x[k + 1 + i] == y[i]);
    }
    if y.len() == 0 {
        assert(x.drop_last() =~= a);
        lemma_first_nl_at(a, a.len() as int);
        assert(rstrip_lines(a) == rstrip_line(a));
    } else {
        assert(y.last() == x.last());
        lemma_rsl_fixed_drop(y);
        assert(x.drop_last() =~= a + seq![10u8] + y.drop_last());
        lemma_rsl_decomp(a, y.drop_last());
    }
}

/// A string whose lines are stripped keeps that shape under the removal of
/// its trailing newlines.
proof fn lemma_rsl_fixed_sfn(x: Seq<u8>)
    requires
        rstrip_lines(x) == x,
    ensures
        rstrip_lines(strip_final_nl(x)) == strip_final_nl(x),
    decreases x.len(),
{
    if x.len() > 0 && x.last() == 10 {
        lemma_rsl_fixed_drop(x);
        lemma_rsl_fixed_sfn(x.drop_last());
    }
}

/// A prefix keeps the absence of `\r\n` pairs.
proof fn lemma_no_crlf_take(s: Seq<u8>, m: int)
    requires
        no_crlf(s),
        0 <= m <= s.len(),
    ensures
        no_crlf(s.take(m)),
{
    assert(forall|i: int| 0 <= i < m ==> #[trigger] s.take(m)[i] == s[i]);
}

/// Law: normalization is idempotent. Normalizing an already-normalized
/// output changes nothing, for every configuration that strips trailing
/// whitespace; without that flag the law holds for every output free of a
/// `\r\r\n` run, whose replacement scan would otherwise leave a fresh
/// `\r\n` behind.
pub proof fn lemma_normalize_idempotent(s: Seq<u8>, cfg: Normalize)
    requires
        cfg.trim_trailing_ws || no_cr_cr_lf(s),
    ensures
        spec_normalize(spec_normalize(s, cfg), cfg) == spec_normalize(s, cfg),
{
    let a = strip_crlf(s);
    let b = if cfg.trim_trailing_ws {
        rstrip_lines(a)
    } else {
        a
    };
    let y = if cfg.ignore_final_newline {
        strip_final_nl(b)
    } else {
        b
    };
    // the once-normalized string has no pair left for the replacement scan
    if cfg.trim_trailing_ws {
        lemma_rsl_no_pair(a);
    } else {
        lemma_strip_crlf_no_pair(s);
    }
    lemma_sfn_props(b);
    if cfg.ignore_final_newline {
        lemma_no_crlf_take(b, strip_final_nl(b).len() as int);
    }
    lemma_strip_crlf_id(y);
    // a second line strip changes nothing
    if cfg.trim_trailing_ws {
        lemma_rsl_idem(a);
        if cfg.ignore_final_newline {
            lemma_rsl_fixed_sfn(b);
        }
    }
    // a second trailing-newline strip changes nothing
    if cfg.ignore_final_newline {
        let z = if cfg.trim_trailing_ws {
            rstrip_lines(y)
        } else {
            y
        };
        assert(z == y);
        lemma_sfn_props(y);
        if y.len() > 0 {
            assert(y.last() != 10);
        }
    }
}

/// The canonical form of a raw output: `\r\n` becomes `\n`; then, per the
/// flags, each line loses its trailing whitespace and the string loses its
/// trailing newlines.
pub fn normalize_output(raw: &Vec<u8>, cfg: &Normalize) -> (r: Vec<u8>)
    ensures
        r@ == spec_normalize(raw@, *cfg),
{
    let unixed = crlf_to_lf(raw);
    let mut out = if cfg.trim_trailing_ws {
        rstrip_all_lines(&unixed)
    } else {
        unixed
    };
    if cfg.ignore_final_newline {
        pop_final_newlines(&mut out);
    }
    out
}

} // verus!
