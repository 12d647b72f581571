//! The differential orchestrator's decision core: per-case classification of
//! origin and candidate runs, failure ordering, and the aggregation that
//! turns recorded failures into per-candidate verdicts and an exit code.
//!
//! The parallel loop that spawns the programs lives outside this crate; it
//! feeds every outcome through these functions, so the verdict logic is
//! proved for every outcome the runs can produce.

use vstd::prelude::*;
use vstd::seq_lib::group_to_multiset_ensures;
use vstd::seq_lib::lemma_multiset_commutative;

use crate::config::Normalize;
use crate::config::Program;
use crate::normalize::normalize_output;
use crate::normalize::spec_normalize;
use crate::runner::RunOutput;
use crate::text::bytes_eq;
use crate::text::dec_digits;
use crate::text::push_u64_dec;

verus! {

/// Whom a failure is charged to: one candidate, the origin, or the engine
/// itself. Origin and engine failures are infrastructure failures.
pub enum FailureRef {
    Candidate(usize),
    Origin,
    Engine,
}

/// The classification of a non-passing outcome.
pub enum FailReason {
    /// The runner itself failed on this case.
    EngineError,
    /// The origin was killed at its deadline.
    OriginTimedOut,
    /// The origin exited unsuccessfully.
    OriginExit { code: Option<i32> },
    /// The runner failed while running this candidate.
    CandidateRunnerError,
    /// The candidate was killed at its deadline.
    CandidateTimedOut,
    /// The candidate exited unsuccessfully.
    CandidateExit { code: Option<i32> },
    /// The candidate's normalized output differs from the origin's.
    OutputMismatch,
}

/// One recorded failure, carrying the case, the culprit, the reason and the
/// captured streams of both sides.
pub struct Failure {
    pub case_index: usize,
    pub input: Vec<u8>,
    pub candidate: FailureRef,
    pub reason: FailReason,
    pub origin_stdout: Vec<u8>,
    pub candidate_stdout: Vec<u8>,
    pub origin_stderr: Vec<u8>,
    pub candidate_stderr: Vec<u8>,
}

/// The timeout a program runs under: its own override, or the engine's.
pub fn effective_timeout(program: &Program, engine_timeout_ms: u64) -> (r: u64)
    ensures
        r == match program.timeout_ms {
            Some(t) => t,
            None => engine_timeout_ms,
        },
{
    match program.timeout_ms {
        Some(t) => t,
        None => engine_timeout_ms,
    }
}

/// The byte string `candidate-`.
pub open spec fn candidate_prefix() -> Seq<u8> {
    seq![99u8, 97u8, 110u8, 100u8, 105u8, 100u8, 97u8, 116u8, 101u8, 45u8]
}

/// A candidate's display name: its configured name, or `candidate-<i+1>`.
pub open spec fn spec_candidate_name(p: Program, i: int) -> Seq<u8> {
    match p.name {
        Some(n) => n@,
        None => candidate_prefix() + dec_digits((i + 1) as nat),
    }
}

/// The display names of all candidates, in order.
#[verifier::loop_isolation(false)]
pub fn candidate_display_names(candidates: &Vec<Program>) -> (r: Vec<Vec<u8>>)
    ensures
        r@.len() == candidates@.len(),
        forall|i: int| 0 <= i < r@.len() ==> #[trigger] r@[i]@ == spec_candidate_name(
            candidates@[i],
            i,
        ),
{
    let n = candidates.len();
    let mut out: Vec<Vec<u8>> = Vec::new();
    let mut i: usize = 0;
    while i < n
        invariant
            i <= n,
            out@.len() == i,
            forall|j: int| 0 <= j < i ==> #[trigger] out@[j]@ == spec_candidate_name(
                candidates@[j],
                j,
            ),
        decreases n - i,
    {
        match &candidates[i].name {
            Some(name) => {
                out.push(crate::runner::copy_whole(name));
            },
            None => {
                let pre: [u8; 10] = [
                    99u8,
                    97u8,
                    110u8,
                    100u8,
                    105u8,
                    100u8,
                    97u8,
                    116u8,
                    101u8,
                    45u8,
                ];
                let mut name = vstd::slice::slice_to_vec(pre.as_slice());
                proof {
                    assert(name@ =~= candidate_prefix());
                }
                push_u64_dec(&mut name, (i + 1) as u64);
                out.push(name);
            },
        }
        i = i + 1;
    }
    out
}

/// Why the origin's run blocks a case, if it does.
pub open spec fn spec_origin_reason(out: RunOutput) -> Option<FailReason> {
    if out.timed_out {
        Some(FailReason::OriginTimedOut)
    } else if !out.success {
        Some(FailReason::OriginExit { code: out.exit_code })
    } else {
        None
    }
}

/// Classifies the origin's run: a timeout or an unsuccessful exit is an
/// infrastructure failure and the case's candidates are not evaluated.
pub fn classify_origin(out: &RunOutput) -> (r: Option<FailReason>)
    ensures
        r == spec_origin_reason(*out),
{
    if out.timed_out {
        Some(FailReason::OriginTimedOut)
    } else if !out.success {
        Some(FailReason::OriginExit { code: out.exit_code })
    } else {
        None
    }
}

/// A candidate's classification against the normalized origin output:
/// timeout, then unsuccessful exit, then output mismatch; otherwise a pass.
pub open spec fn spec_candidate_reason(
    expected: Seq<u8>,
    out: RunOutput,
    cfg: Normalize,
) -> Option<FailReason> {
    if out.timed_out {
        Some(FailReason::CandidateTimedOut)
    } else if !out.success {
        Some(FailReason::CandidateExit { code: out.exit_code })
    } else if spec_normalize(out.stdout@, cfg) != expected {
        Some(FailReason::OutputMismatch)
    } else {
        None
    }
}

/// Classifies one candidate run against the expected (already normalized)
/// origin output; `None` is a pass.
pub fn classify_candidate(expected: &Vec<u8>, out: &RunOutput, cfg: &Normalize) -> (r: Option<
    FailReason,
>)
    ensures
        r == spec_candidate_reason(expected@, *out, *cfg),
{
    if out.timed_out {
        return Some(FailReason::CandidateTimedOut);
    }
    if !out.success {
        return Some(FailReason::CandidateExit { code: out.exit_code });
    }
    let got = normalize_output(&out.stdout, cfg);
    if !bytes_eq(&got, expected) {
        return Some(FailReason::OutputMismatch);
    }
    None
}

/// Law: a candidate whose run completed in time, exited successfully and
/// wrote byte-for-byte the origin's output is classified as a pass, and the
/// origin's own successful run blocks nothing.
pub proof fn lemma_identical_outputs_pass(origin: RunOutput, cand: RunOutput, cfg: Normalize)
    requires
        !origin.timed_out,
        origin.success,
        !cand.timed_out,
        cand.success,
        cand.stdout@ == origin.stdout@,
    ensures
        spec_origin_reason(origin) is None,
        spec_candidate_reason(spec_normalize(origin.stdout@, cfg), cand, cfg) is None,
{
}

/// The sort rank of a failure's culprit: candidates by index, origin and
/// engine after every candidate.
pub open spec fn fail_rank(f: Failure) -> int {
    match f.candidate {
        FailureRef::Candidate(i) => i as int,
        _ => usize::MAX as int,
    }
}

/// The report order: by case, then by candidate, infrastructure last.
pub open spec fn fail_le(a: Failure, b: Failure) -> bool {
    a.case_index < b.case_index || (a.case_index == b.case_index && fail_rank(a) <= fail_rank(b))
}

/// True iff the key of `a` orders no later than the key of `b`.
fn fail_le_exec(a: &Failure, b: &Failure) -> (r: bool)
    ensures
        r == fail_le(*a, *b),
{
    if a.case_index < b.case_index {
        return true;
    }
    if a.case_index > b.case_index {
        return false;
    }
    let ra: usize = match a.candidate {
        FailureRef::Candidate(i) => i,
        _ => usize::MAX,
    };
    let rb: usize = match b.candidate {
        FailureRef::Candidate(i) => i,
        _ => usize::MAX,
    };
    ra <= rb
}

/// Inserting an element anywhere adds exactly it to the multiset.
proof fn lemma_insert_to_multiset(s: Seq<Failure>, k: int, x: Failure)
    requires
        0 <= k <= s.len(),
    ensures
        s.insert(k, x).to_multiset() == s.to_multiset().insert(x),
{
    broadcast use group_to_multiset_ensures;

    let inserted = s.insert(k, x);
    assert(inserted =~= s.take(k).push(x) + s.skip(k));
    lemma_multiset_commutative(s.take(k).push(x), s.skip(k));
    assert(s.take(k).push(x).to_multiset() =~= s.take(k).to_multiset().insert(x));
    assert(s =~= s.take(k) + s.skip(k));
    lemma_multiset_commutative(s.take(k), s.skip(k));
    assert(inserted.to_multiset() =~= s.to_multiset().insert(x));
}

/// Sorts the recorded failures by `(case index, candidate rank)`, keeping
/// exactly the same failures.
#[verifier::loop_isolation(false)]
pub fn sort_failures(v: &mut Vec<Failure>)
    ensures
        final(v)@.len() == old(v)@.len(),
        final(v)@.to_multiset() == old(v)@.to_multiset(),
        forall|a: int, b: int| 0 <= a < b < final(v)@.len() ==> fail_le(
            #[trigger] final(v)@[a],
            #[trigger] final(v)@[b],
        ),
{
    let ghost orig = v@;
    let mut i: usize = 1;
    while i < v.len()
        invariant
            1 <= i,
            v@.len() == orig.len(),
            v@.to_multiset() == orig.to_multiset(),
            forall|a: int, b: int| 0 <= a < b < i && b < v@.len() ==> fail_le(
                #[trigger] v@[a],
                #[trigger] v@[b],
            ),
        decreases v@.len() - i,
    {
        let ghost before = v@;
        // find the insertion point within the sorted prefix
        let mut k: usize = 0;
        while k < i && fail_le_exec(&v[k], &v[i])
            invariant
                k <= i < v@.len(),
                v@ == before,
                forall|a: int| 0 <= a < k ==> fail_le(#[trigger] v@[a], v@[i as int]),
            decreases i - k,
        {
            k = k + 1;
        }
        let x = v.remove(i);
        v.insert(k, x);
        proof {
            broadcast use group_to_multiset_ensures;

            assert(before.remove(i as int).to_multiset() =~= before.to_multiset().remove(
                before[i as int],
            ));
            lemma_insert_to_multiset(before.remove(i as int), k as int, before[i as int]);
            assert(v@.to_multiset() =~= orig.to_multiset());
            // the prefix of length i + 1 is sorted
            assert(forall|a: int| 0 <= a < k ==> v@[a] == before[a]);
            assert(forall|a: int| k < a <= i ==> v@[a] == before[a - 1]);
            assert(v@[k as int] == before[i as int]);
            assert forall|a: int, b: int| 0 <= a < b < i + 1 && b < v@.len() implies fail_le(
                #[trigger] v@[a],
                #[trigger] v@[b],
            ) by {
                if b == k {
                    assert(fail_le(before[a], before[i as int]));
                } else if a == k {
                    assert(!fail_le(before[k as int], before[i as int]));
                    assert(fail_le(before[i as int], before[k as int]));
                    if b > k + 1 {
                        assert(fail_le(before[k as int], before[b - 1]));
                    }
                }
            }
        }
        i = i + 1;
    }
}

/// True iff the failure is charged to the origin or the engine.
pub open spec fn is_infra(f: Failure) -> bool {
    !(f.candidate is Candidate)
}

/// True iff the failure is charged to candidate `c`.
pub open spec fn is_for(f: Failure, c: int) -> bool {
    match f.candidate {
        FailureRef::Candidate(i) => i == c,
        _ => false,
    }
}

/// The infrastructure failures of a record list, in order.
pub open spec fn infra_of(fs: Seq<Failure>) -> Seq<Failure>
    decreases fs.len(),
{
    if fs.len() == 0 {
        Seq::empty()
    } else if is_infra(fs.last()) {
        infra_of(fs.drop_last()).push(fs.last())
    } else {
        infra_of(fs.drop_last())
    }
}

/// Candidate `c`'s failures of a record list, in order.
pub open spec fn kept_for(fs: Seq<Failure>, c: int) -> Seq<Failure>
    decreases fs.len(),
{
    if fs.len() == 0 {
        Seq::empty()
    } else if is_for(fs.last(), c) {
        kept_for(fs.drop_last(), c).push(fs.last())
    } else {
        kept_for(fs.drop_last(), c)
    }
}

/// A candidate's bucket under the early-termination flag: every failure, or
/// only the first.
pub open spec fn bucket_for(fs: Seq<Failure>, c: int, stop_on_first_fail: bool) -> Seq<Failure> {
    if stop_on_first_fail {
        kept_for(fs, c).take(if kept_for(fs, c).len() == 0 {
            0
        } else {
            1
        })
    } else {
        kept_for(fs, c)
    }
}

/// A candidate's verdict.
pub enum Verdict {
    Pass,
    Unknown,
    Fail { count: usize },
}

/// The aggregation of all recorded failures: the infrastructure failures,
/// one bucket per candidate, and the process exit code.
pub struct Report {
    pub infra: Vec<Failure>,
    pub per_candidate: Vec<Vec<Failure>>,
    pub exit_code: i32,
}

/// The aggregate's whole contract over the record list it was built from.
pub open spec fn report_matches(r: Report, fs: Seq<Failure>, n: int, stop: bool) -> bool {
    &&& r.infra@ == infra_of(fs)
    &&& r.per_candidate@.len() == n
    &&& forall|c: int| 0 <= c < n ==> #[trigger] r.per_candidate@[c]@ == bucket_for(fs, c, stop)
    &&& r.exit_code == if infra_of(fs).len() == 0 && (forall|c: int|
        0 <= c < n ==> #[trigger] kept_for(fs, c).len() == 0) {
        0i32
    } else {
        1i32
    }
}

/// The list reversed, so that popping yields the failures in order.
fn reverse_failures(v: Vec<Failure>) -> (r: Vec<Failure>)
    ensures
        r@.len() == v@.len(),
        forall|j: int| 0 <= j < r@.len() ==> r@[j] == v@[v@.len() - 1 - j],
{
    let ghost orig = v@;
    let mut src = v;
    let mut out: Vec<Failure> = Vec::new();
    while src.len() > 0
        invariant
            src@.len() + out@.len() == orig.len(),
            src@ == orig.take(src@.len() as int),
            forall|j: int| 0 <= j < out@.len() ==> out@[j] == orig[orig.len() - 1 - j],
        decreases src@.len(),
    {
        match src.pop() {
            Some(x) => {
                proof {
                    assert(x == orig[src@.len() as int]);
                    assert(src@ =~= orig.take(src@.len() as int));
                }
                out.push(x);
            },
            None => {
            },
        }
    }
    out
}

/// Partitions the (sorted) failures into infrastructure failures and
/// per-candidate buckets, and derives the exit code.
///
/// With `stop_on_first_fail` every candidate keeps at most its first failure
/// in report order, so at most `n_candidates` candidate failures are
/// retained in all. The exit code is 0 exactly when nothing at all failed.
#[verifier::loop_isolation(false)]
pub fn aggregate(failures: Vec<Failure>, n_candidates: usize, stop_on_first_fail: bool) -> (r:
    Report)
    requires
        forall|i: int| 0 <= i < failures@.len() ==> (#[trigger] failures@[i].candidate matches
            FailureRef::Candidate(c) ==> c < n_candidates),
    ensures
        report_matches(r, failures@, n_candidates as int, stop_on_first_fail),
        stop_on_first_fail ==> forall|c: int|
            0 <= c < n_candidates ==> #[trigger] r.per_candidate@[c]@.len() <= 1,
{
    let n = failures.len();
    let mut infra: Vec<Failure> = Vec::new();
    let mut buckets: Vec<Vec<Failure>> = Vec::new();
    let mut c: usize = 0;
    while c < n_candidates
        invariant
            c <= n_candidates,
            buckets@.len() == c,
            forall|q: int| 0 <= q < c ==> #[trigger] buckets@[q]@.len() == 0,
        decreases n_candidates - c,
    {
        buckets.push(Vec::new());
        c = c + 1;
    }
    let ghost fs = failures@;
    let mut rest = reverse_failures(failures);
    while rest.len() > 0
        invariant
            n == fs.len(),
            rest@.len() <= n,
            forall|j: int| 0 <= j < rest@.len() ==> rest@[j] == fs[n - 1 - j],
            forall|q: int| 0 <= q < fs.len() ==> (#[trigger] fs[q].candidate matches
                FailureRef::Candidate(cc) ==> cc < n_candidates),
            buckets@.len() == n_candidates,
            infra@ == infra_of(fs.take(n - rest@.len())),
            forall|q: int| 0 <= q < n_candidates ==> #[trigger] buckets@[q]@ == bucket_for(
                fs.take(n - rest@.len()),
                q,
                stop_on_first_fail,
            ),
        decreases rest@.len(),
    {
        let ghost i = n - rest@.len();
        let ghost pre = fs.take(i);
        let f = match rest.pop() {
            Some(f) => f,
            None => {
                return Report { infra, per_candidate: buckets, exit_code: 1 };
            },
        };
        proof {
            assert(f == fs[i]);
            assert(fs.take(i + 1).drop_last() =~= pre);
            assert(fs.take(i + 1).last() == fs[i]);
        }
        let candidate_index: Option<usize> = match &f.candidate {
            FailureRef::Candidate(ci) => Some(*ci),
            _ => None,
        };
        match candidate_index {
            Some(ci) => {
                proof {
                    assert(fs[i].candidate matches FailureRef::Candidate(cc) && cc == ci);
                }
                let blen = buckets[ci].len();
                if !(stop_on_first_fail && blen > 0) {
                    buckets[ci].push(f);
                }
                proof {
                    assert forall|q: int| 0 <= q < n_candidates implies #[trigger] buckets@[q]@
                        == bucket_for(fs.take(i + 1), q, stop_on_first_fail) by {
                        if q == ci {
                            assert(kept_for(fs.take(i + 1), q) =~= kept_for(pre, q).push(
                                fs[i],
                            ));
                            if stop_on_first_fail {
                                if kept_for(pre, q).len() == 0 {
                                    assert(bucket_for(fs.take(i + 1), q, true) =~= seq![
                                        fs[i],
                                    ]);
                                    assert(buckets@[q]@ =~= bucket_for(
                                        fs.take(i + 1),
                                        q,
                                        true,
                                    ));
                                } else {
                                    assert(bucket_for(fs.take(i + 1), q, true) =~= bucket_for(
                                        pre,
                                        q,
                                        true,
                                    ));
                                }
                            } else {
                                assert(buckets@[q]@ =~= bucket_for(
                                    fs.take(i + 1),
                                    q,
                                    false,
                                ));
                            }
                        } else {
                            assert(kept_for(fs.take(i + 1), q) =~= kept_for(pre, q));
                            assert(bucket_for(fs.take(i + 1), q, stop_on_first_fail)
                                =~= bucket_for(pre, q, stop_on_first_fail));
                        }
                    }
                    assert(infra_of(fs.take(i + 1)) =~= infra_of(pre));
                    assert forall|q: int| 0 <= q < n_candidates && q != ci implies #[trigger] kept_for(
                        fs.take(i + 1),
                        q,
                    ) == kept_for(pre, q) by {
                        assert(kept_for(fs.take(i + 1), q) =~= kept_for(pre, q));
                    }
                    assert(kept_for(fs.take(i + 1), ci as int) =~= kept_for(pre, ci as int).push(
                        fs[i],
                    ));
                    assert(kept_for(fs.take(i + 1), ci as int).len() > 0);
                }
            },
            None => {
                infra.push(f);
                proof {
                    assert(infra_of(fs.take(i + 1)) =~= infra_of(pre).push(fs[i]));
                    assert forall|q: int| 0 <= q < n_candidates implies #[trigger] kept_for(
                        fs.take(i + 1),
                        q,
                    ) == kept_for(pre, q) by {
                        assert(kept_for(fs.take(i + 1), q) =~= kept_for(pre, q));
                    }
                    assert forall|q: int| 0 <= q < n_candidates implies #[trigger] buckets@[q]@
                        == bucket_for(fs.take(i + 1), q, stop_on_first_fail) by {
                        assert(bucket_for(fs.take(i + 1), q, stop_on_first_fail) =~= bucket_for(
                            pre,
                            q,
                            stop_on_first_fail,
                        ));
                    }
                }
            },
        }
    }
    proof {
        assert(fs.take(n as int) =~= fs);
    }
    let mut any_candidate_failure = false;
    let mut c2: usize = 0;
    while c2 < n_candidates
        invariant
            c2 <= n_candidates,
            buckets@.len() == n_candidates,
            forall|q: int| 0 <= q < n_candidates ==> #[trigger] buckets@[q]@ == bucket_for(
                fs,
                q,
                stop_on_first_fail,
            ),
            any_candidate_failure == !(forall|q: int|
                0 <= q < c2 ==> #[trigger] buckets@[q]@.len() == 0),
        decreases n_candidates - c2,
    {
        if buckets[c2].len() > 0 {
            any_candidate_failure = true;
        }
        c2 = c2 + 1;
    }
    proof {
        assert forall|q: int| 0 <= q < n_candidates implies (#[trigger] kept_for(fs, q).len() == 0)
            == (buckets@[q]@.len() == 0) by {
            assert(buckets@[q]@ == bucket_for(fs, q, stop_on_first_fail));
        }
    }
    let exit_code: i32 = if infra.len() == 0 && !any_candidate_failure {
        0
    } else {
        1
    };
    proof {
        if stop_on_first_fail {
            assert forall|q: int| 0 <= q < n_candidates implies #[trigger] buckets@[q]@.len()
                <= 1 by {
                assert(buckets@[q]@ == bucket_for(fs, q, true));
            }
        }
    }
    Report { infra, per_candidate: buckets, exit_code }
}

/// A candidate's verdict from the aggregated report: pass with an empty
/// bucket and no infrastructure failure, unknown with an empty bucket under
/// an infrastructure failure, else a failure with the kept count.
pub fn verdict_of(report: &Report, candidate: usize) -> (r: Verdict)
    requires
        candidate < report.per_candidate@.len(),
    ensures
        report.per_candidate@[candidate as int]@.len() == 0 && report.infra@.len() == 0 ==> r
            is Pass,
        report.per_candidate@[candidate as int]@.len() == 0 && report.infra@.len() > 0 ==> r
            is Unknown,
        report.per_candidate@[candidate as int]@.len() > 0 ==> (r matches Verdict::Fail { count }
            && count == report.per_candidate@[candidate as int]@.len()),
{
    let bucket_len = report.per_candidate[candidate].len();
    if bucket_len > 0 {
        Verdict::Fail { count: bucket_len }
    } else if report.infra.len() > 0 {
        Verdict::Unknown
    } else {
        Verdict::Pass
    }
}

/// Law: under early termination every candidate keeps at most one failure,
/// so at most `n` candidate failures are retained in all, and the report
/// never holds more than the candidates' and the infrastructure failures
/// together.
pub proof fn lemma_stop_on_first_fail_caps_failures(r: Report, fs: Seq<Failure>, n: int)
    requires
        report_matches(r, fs, n, true),
        n >= 0,
    ensures
        forall|c: int| 0 <= c < n ==> #[trigger] r.per_candidate@[c]@.len() <= 1,
        buckets_total(r.per_candidate@) <= n,
{
    assert forall|c: int| 0 <= c < n implies #[trigger] r.per_candidate@[c]@.len() <= 1 by {
        assert(r.per_candidate@[c]@ == bucket_for(fs, c, true));
    }
    lemma_buckets_total_bounded(r.per_candidate@);
}

/// The number of failures the buckets hold in all.
pub open spec fn buckets_total(bs: Seq<Vec<Failure>>) -> int
    decreases bs.len(),
{
    if bs.len() == 0 {
        0
    } else {
        buckets_total(bs.drop_last()) + bs.last()@.len()
    }
}

/// Buckets of at most one failure each hold at most one per bucket in all.
proof fn lemma_buckets_total_bounded(bs: Seq<Vec<Failure>>)
    requires
        forall|c: int| 0 <= c < bs.len() ==> #[trigger] bs[c]@.len() <= 1,
    ensures
        buckets_total(bs) <= bs.len(),
    decreases bs.len(),
{
    if bs.len() > 0 {
        assert(forall|c: int| 0 <= c < bs.len() - 1 ==> #[trigger] bs.drop_last()[c]@.len() <= 1);
        lemma_buckets_total_bounded(bs.drop_last());
    }
}

} // verus!
