//! The runner's command planning: mount parsing, argv substitution in local
//! mode, and the `docker run` argv in container mode.
//!
//! Spawning, piping and waiting are process work and live outside this crate;
//! everything that decides *what* to run is specified and proved here.

use vstd::prelude::*;

use crate::config::Limits;
use crate::constraints::trim;
use crate::constraints::trim_range;
use crate::text::bytes_eq;
use crate::text::dec_digits;
use crate::text::push_u64_dec;

verus! {

/// What one program run produced: whether the exit was a success, the exit
/// code when there was one, the two captured streams, and whether the runner
/// killed the process at its deadline.
pub struct RunOutput {
    pub success: bool,
    pub exit_code: Option<i32>,
    pub stdout: Vec<u8>,
    pub stderr: Vec<u8>,
    pub timed_out: bool,
}

/// One parsed mount: the host path, the container-side token, and an optional
/// mode such as `ro`.
pub struct MountSpec {
    pub host: Vec<u8>,
    pub container: Vec<u8>,
    pub mode: Option<Vec<u8>>,
}

/// Why a mount string was rejected.
#[derive(Debug)]
pub enum MountError {
    /// Host or container part is empty: not of the form `host:container[:mode]`.
    EmptySide { index: usize },
    /// More than three `:`-separated parts.
    TooManyParts { index: usize },
}

/// Index of the first `:`, or the length when there is none.
pub open spec fn first_colon(s: Seq<u8>) -> int
    decreases s.len(),
{
    if s.len() == 0 {
        0
    } else if s[0] == 58 {
        0
    } else {
        1 + first_colon(s.skip(1))
    }
}

/// A position with no colon before it and a colon (or the end) at it is the
/// first colon.
pub proof fn lemma_first_colon_at(s: Seq<u8>, k: int)
    requires
        0 <= k <= s.len(),
        forall|i: int| 0 <= i < k ==> s[i] != 58,
        k == s.len() || s[k] == 58,
    ensures
        first_colon(s) == k,
    decreases k,
{
    if k > 0 {
        lemma_first_colon_at(s.skip(1), k - 1);
    }
}

/// The raw `:`-split of a mount string: host part, container part, optional
/// mode part, and whether a fourth part exists.
pub open spec fn mount_parts(s: Seq<u8>) -> (Seq<u8>, Seq<u8>, Option<Seq<u8>>, bool) {
    let c1 = first_colon(s);
    if c1 == s.len() {
        (s, Seq::empty(), None, false)
    } else {
        let r1 = s.skip(c1 + 1);
        let c2 = first_colon(r1);
        if c2 == r1.len() {
            (s.take(c1), r1, None, false)
        } else {
            let r2 = r1.skip(c2 + 1);
            let c3 = first_colon(r2);
            (s.take(c1), r1.take(c2), Some(r2.take(c3)), c3 < r2.len())
        }
    }
}

/// One mount string parsed: the trimmed parts, or the fault. An empty host
/// or container is reported before a surplus of parts, as the syntax check
/// runs first.
pub open spec fn spec_parse_mount(s: Seq<u8>) -> Result<
    (Seq<u8>, Seq<u8>, Option<Seq<u8>>),
    bool,
> {
    let (h, c, m, extra) = mount_parts(s);
    let host = trim(h);
    let cont = trim(c);
    if host.len() == 0 || cont.len() == 0 {
        Err(false)
    } else if extra {
        Err(true)
    } else {
        Ok(
            (
                host,
                cont,
                match m {
                    Some(mm) => if trim(mm).len() == 0 {
                        None
                    } else {
                        Some(trim(mm))
                    },
                    None => None,
                },
            ),
        )
    }
}

/// Copies `s[a..b]` into a fresh byte string.
fn copy_range(s: &Vec<u8>, a: usize, b: usize) -> (r: Vec<u8>)
    requires
        a <= b <= s@.len(),
    ensures
        r@ == s@.subrange(a as int, b as int),
{
    let mut r: Vec<u8> = Vec::new();
    let mut i = a;
    while i < b
        invariant
            a <= i <= b <= s@.len(),
            r@ == s@.subrange(a as int, i as int),
        decreases b - i,
    {
        r.push(s[i]);
        proof {
            assert(s@.subrange(a as int, i + 1) =~= s@.subrange(a as int, i as int).push(
                s@[i as int],
            ));
        }
        i = i + 1;
    }
    r
}

/// Finds the first `:` at or after `from`, or `s.len()`.
#[verifier::loop_isolation(false)]
fn find_colon(s: &Vec<u8>, from: usize) -> (r: usize)
    requires
        from <= s@.len(),
    ensures
        from <= r <= s@.len(),
        r - from == first_colon(s@.skip(from as int)),
{
    let n = s.len();
    let mut k = from;
    while k < n && s[k] != 58
        invariant
            from <= k <= n,
            forall|i: int| from <= i < k ==> s@[i] != 58,
        decreases n - k,
    {
        k = k + 1;
    }
    proof {
        assert(forall|i: int| 0 <= i < k - from ==> s@.skip(from as int)[i] == s@[from + i]);
        lemma_first_colon_at(s@.skip(from as int), k - from);
    }
    k
}

/// Parses one mount string of the form `host:container[:mode]`, trimming
/// each part.
#[verifier::loop_isolation(false)]
fn parse_mount(s: &Vec<u8>) -> (r: Result<MountSpec, bool>)
    ensures
        match r {
            Ok(m) => spec_parse_mount(s@) matches Ok(p) && m.host@ == p.0 && m.container@ == p.1
                && (match (m.mode, p.2) {
                (Some(mm), Some(pm)) => mm@ == pm,
                (None, None) => true,
                _ => false,
            }),
            Err(extra) => spec_parse_mount(s@) == Err::<(Seq<u8>, Seq<u8>, Option<Seq<u8>>), bool>(
                extra,
            ),
        },
{
    let n = s.len();
    proof {
        assert(s@.skip(0) =~= s@);
    }
    let c1 = find_colon(s, 0);
    if c1 == n {
        // no colon: the container part is empty
        proof {
            assert(mount_parts(s@) == (s@, Seq::<u8>::empty(), None::<Seq<u8>>, false));
            assert(trim(Seq::<u8>::empty()).len() == 0);
        }
        return Err(false);
    }
    let c2 = find_colon(s, c1 + 1);
    proof {
        assert(s@.take(c1 as int) =~= s@.subrange(0, c1 as int));
        assert(s@.skip(c1 + 1) =~= s@.subrange(c1 + 1, n as int));
    }
    if c2 == n {
        proof {
            assert(mount_parts(s@) == (
                s@.subrange(0, c1 as int),
                s@.subrange(c1 + 1, n as int),
                None::<Seq<u8>>,
                false,
            ));
        }
        let (ha, hb) = trim_range(s, 0, c1);
        let (ca, cb) = trim_range(s, c1 + 1, n);
        if ha == hb || ca == cb {
            return Err(false);
        }
        let host = copy_range(s, ha, hb);
        let container = copy_range(s, ca, cb);
        return Ok(MountSpec { host, container, mode: None });
    }
    let c3 = find_colon(s, c2 + 1);
    proof {
        assert(s@.skip(c1 + 1).take(c2 - (c1 + 1)) =~= s@.subrange(c1 + 1, c2 as int));
        assert(s@.skip(c1 + 1).skip(c2 - (c1 + 1) + 1) =~= s@.skip(c2 + 1));
        assert(s@.skip(c2 + 1).take(c3 - (c2 + 1)) =~= s@.subrange(c2 + 1, c3 as int));
        assert(mount_parts(s@) == (
            s@.subrange(0, c1 as int),
            s@.subrange(c1 + 1, c2 as int),
            Some(s@.subrange(c2 + 1, c3 as int)),
            c3 < n,
        ));
    }
    let (ha, hb) = trim_range(s, 0, c1);
    let (ca, cb) = trim_range(s, c1 + 1, c2);
    if ha == hb || ca == cb {
        return Err(false);
    }
    if c3 < n {
        return Err(true);
    }
    let (ma, mb) = trim_range(s, c2 + 1, c3);
    let mode: Option<Vec<u8>> = if ma == mb {
        None
    } else {
        Some(copy_range(s, ma, mb))
    };
    let host = copy_range(s, ha, hb);
    let container = copy_range(s, ca, cb);
    Ok(MountSpec { host, container, mode })
}

/// Parses every mount string; the error names the first bad one.
#[verifier::loop_isolation(false)]
pub fn parse_mounts(mounts: &Vec<Vec<u8>>) -> (r: Result<Vec<MountSpec>, MountError>)
    ensures
        match r {
            Ok(v) => {
                &&& v@.len() == mounts@.len()
                &&& forall|i: int| 0 <= i < v@.len() ==> spec_parse_mount(#[trigger] mounts@[i]@)
                    is Ok
                &&& forall|i: int| 0 <= i < v@.len() ==> {
                    let p = spec_parse_mount(mounts@[i]@)->Ok_0;
                    #[trigger] v@[i].host@ == p.0 && v@[i].container@ == p.1 && (match (
                        v@[i].mode,
                        p.2,
                    ) {
                        (Some(mm), Some(pm)) => mm@ == pm,
                        (None, None) => true,
                        _ => false,
                    })
                }
            },
            Err(MountError::EmptySide { index }) => index < mounts@.len() && spec_parse_mount(
                mounts@[index as int]@,
            ) == Err::<(Seq<u8>, Seq<u8>, Option<Seq<u8>>), bool>(false),
            Err(MountError::TooManyParts { index }) => index < mounts@.len() && spec_parse_mount(
                mounts@[index as int]@,
            ) == Err::<(Seq<u8>, Seq<u8>, Option<Seq<u8>>), bool>(true),
        },
{
    let n = mounts.len();
    let mut out: Vec<MountSpec> = Vec::new();
    let mut i: usize = 0;
    while i < n
        invariant
            i <= n,
            out@.len() == i,
            forall|j: int| 0 <= j < i ==> spec_parse_mount(#[trigger] mounts@[j]@) is Ok,
            forall|j: int| 0 <= j < i ==> {
                let p = spec_parse_mount(mounts@[j]@)->Ok_0;
                #[trigger] out@[j].host@ == p.0 && out@[j].container@ == p.1 && (match (
                    out@[j].mode,
                    p.2,
                ) {
                    (Some(mm), Some(pm)) => mm@ == pm,
                    (None, None) => true,
                    _ => false,
                })
            },
        decreases n - i,
    {
        match parse_mount(&mounts[i]) {
            Ok(m) => {
                out.push(m);
            },
            Err(false) => {
                return Err(MountError::EmptySide { index: i });
            },
            Err(true) => {
                return Err(MountError::TooManyParts { index: i });
            },
        }
        i = i + 1;
    }
    Ok(out)
}

/// The host path a mount resolves to before canonicalization: kept as is
/// when absolute, else joined onto the configuration directory.
pub open spec fn spec_host_path(host: Seq<u8>, dir: Seq<u8>) -> Seq<u8> {
    if host.len() > 0 && host[0] == 47 {
        host
    } else if dir.len() == 0 {
        host
    } else if dir.last() == 47 {
        dir + host
    } else {
        dir + seq![47u8] + host
    }
}

/// Resolves a mount's host path against the configuration directory: an
/// absolute path stands as is, a relative one is joined with `/`.
pub fn host_path_from_mount(host: &Vec<u8>, config_dir: &Vec<u8>) -> (r: Vec<u8>)
    ensures
        r@ == spec_host_path(host@, config_dir@),
{
    if host.len() > 0 && host[0] == 47 {
        return copy_whole(host);
    }
    if config_dir.len() == 0 {
        return copy_whole(host);
    }
    let mut r = copy_whole(config_dir);
    if config_dir[config_dir.len() - 1] != 47 {
        r.push(47);
    }
    let mut i: usize = 0;
    let n = host.len();
    let ghost base = r@;
    while i < n
        invariant
            i <= n,
            n == host@.len(),
            r@ == base + host@.take(i as int),
        decreases n - i,
    {
        r.push(host[i]);
        proof {
            assert(base + host@.take(i + 1) =~= (base + host@.take(i as int)).push(
                host@[i as int],
            ));
        }
        i = i + 1;
    }
    proof {
        assert(host@.take(n as int) =~= host@);
        assert(r@ =~= spec_host_path(host@, config_dir@));
    }
    r
}

/// A fresh copy of a byte string.
pub(crate) fn copy_whole(s: &Vec<u8>) -> (r: Vec<u8>)
    ensures
        r@ == s@,
{
    let r = copy_range(s, 0, s.len());
    proof {
        assert(s@.subrange(0, s@.len() as int) =~= s@);
    }
    r
}

/// The last map entry whose key equals `key`, as later mounts override
/// earlier ones.
pub open spec fn map_lookup(map: Seq<(Vec<u8>, Vec<u8>)>, key: Seq<u8>) -> Option<Seq<u8>>
    decreases map.len(),
{
    if map.len() == 0 {
        None
    } else if map.last().0@ == key {
        Some(map.last().1@)
    } else {
        map_lookup(map.drop_last(), key)
    }
}

/// The argv element after substitution: the mapped host path when the
/// element is a mount token, else the element itself.
pub open spec fn spec_substitute(map: Seq<(Vec<u8>, Vec<u8>)>, arg: Seq<u8>) -> Seq<u8> {
    match map_lookup(map, arg) {
        Some(p) => p,
        None => arg,
    }
}

/// Substitutes mount tokens in an argv: an element that exactly matches a
/// mapped container token becomes the host path, every other element passes
/// through.
#[verifier::loop_isolation(false)]
pub fn resolve_local_cmd(cmd: &Vec<Vec<u8>>, mount_map: &Vec<(Vec<u8>, Vec<u8>)>) -> (r: Vec<
    Vec<u8>,
>)
    ensures
        r@.len() == cmd@.len(),
        forall|i: int| 0 <= i < r@.len() ==> #[trigger] r@[i]@ == spec_substitute(
            mount_map@,
            cmd@[i]@,
        ),
{
    let n = cmd.len();
    let mut out: Vec<Vec<u8>> = Vec::new();
    let mut i: usize = 0;
    while i < n
        invariant
            i <= n,
            out@.len() == i,
            forall|j: int| 0 <= j < i ==> #[trigger] out@[j]@ == spec_substitute(
                mount_map@,
                cmd@[j]@,
            ),
        decreases n - i,
    {
        out.push(lookup_or_self(mount_map, &cmd[i]));
        i = i + 1;
    }
    out
}

/// The substituted form of one argv element.
#[verifier::loop_isolation(false)]
fn lookup_or_self(mount_map: &Vec<(Vec<u8>, Vec<u8>)>, arg: &Vec<u8>) -> (r: Vec<u8>)
    ensures
        r@ == spec_substitute(mount_map@, arg@),
{
    let n = mount_map.len();
    proof {
        assert(mount_map@.take(n as int) =~= mount_map@);
    }
    let mut k = n;
    while k > 0
        invariant
            k <= n,
            n == mount_map@.len(),
            map_lookup(mount_map@, arg@) == map_lookup(mount_map@.take(k as int), arg@),
        decreases k,
    {
        proof {
            assert(mount_map@.take(k as int).last() == mount_map@[k - 1]);
            assert(mount_map@.take(k as int).drop_last() =~= mount_map@.take(k - 1));
        }
        if bytes_eq(&mount_map[k - 1].0, arg) {
            return copy_whole(&mount_map[k - 1].1);
        }
        k = k - 1;
    }
    proof {
        assert(mount_map@.take(0) =~= Seq::<(Vec<u8>, Vec<u8>)>::empty());
    }
    copy_whole(arg)
}

/// The raw container-token-to-host-path map of a mount list, before the
/// embedding binary canonicalizes the host paths.
pub fn build_local_mount_map(mounts: &Vec<MountSpec>, config_dir: &Vec<u8>) -> (r: Vec<
    (Vec<u8>, Vec<u8>),
>)
    ensures
        r@.len() == mounts@.len(),
        forall|i: int| 0 <= i < r@.len() ==> (#[trigger] r@[i].0@) == mounts@[i].container@
            && r@[i].1@ == spec_host_path(mounts@[i].host@, config_dir@),
{
    let n = mounts.len();
    let mut out: Vec<(Vec<u8>, Vec<u8>)> = Vec::new();
    let mut i: usize = 0;
    while i < n
        invariant
            i <= n,
            n == mounts@.len(),
            out@.len() == i,
            forall|j: int| 0 <= j < i ==> (#[trigger] out@[j].0@) == mounts@[j].container@
                && out@[j].1@ == spec_host_path(mounts@[j].host@, config_dir@),
        decreases n - i,
    {
        let key = copy_whole(&mounts[i].container);
        let path = host_path_from_mount(&mounts[i].host, config_dir);
        out.push((key, path));
        proof {
            assert(out@[i as int].0@ == mounts@[i as int].container@);
            assert(out@[i as int].1@ == spec_host_path(mounts@[i as int].host@, config_dir@));
        }
        i = i + 1;
    }
    out
}

/// One `-v` argument: `host:container`, with `:mode` when a mode is set.
pub open spec fn spec_render_mount(host: Seq<u8>, container: Seq<u8>, mode: Option<Vec<u8>>) -> Seq<
    u8,
> {
    host + seq![58u8] + container + (match mode {
        Some(m) => seq![58u8] + m@,
        None => Seq::empty(),
    })
}

/// Renders one volume argument from an already-resolved host path.
pub fn render_docker_mount(host_path: &Vec<u8>, container: &Vec<u8>, mode: &Option<Vec<u8>>) -> (r:
    Vec<u8>)
    ensures
        r@ == spec_render_mount(host_path@, container@, *mode),
{
    let mut r = copy_whole(host_path);
    r.push(58);
    append_bytes(&mut r, container);
    match mode {
        Some(m) => {
            r.push(58);
            append_bytes(&mut r, m);
            proof {
                assert(r@ =~= spec_render_mount(host_path@, container@, Some(*m)));
            }
        },
        None => {
            proof {
                assert(r@ =~= spec_render_mount(host_path@, container@, None::<Vec<u8>>));
            }
        },
    }
    r
}

/// Appends one byte string to another.
fn append_bytes(out: &mut Vec<u8>, s: &Vec<u8>)
    ensures
        final(out)@ == old(out)@ + s@,
{
    let ghost base = out@;
    let n = s.len();
    let mut i: usize = 0;
    while i < n
        invariant
            i <= n,
            n == s@.len(),
            out@ == base + s@.take(i as int),
        decreases n - i,
    {
        out.push(s[i]);
        proof {
            assert(base + s@.take(i + 1) =~= (base + s@.take(i as int)).push(s@[i as int]));
        }
        i = i + 1;
    }
    proof {
        assert(s@.take(n as int) =~= s@);
    }
}

/// The words of the fixed `docker run` preamble.
pub open spec fn docker_preamble() -> Seq<Seq<u8>> {
    seq![
        seq![100u8, 111u8, 99u8, 107u8, 101u8, 114u8],
        seq![114u8, 117u8, 110u8],
        seq![45u8, 45u8, 114u8, 109u8],
        seq![45u8, 105u8],
        seq![45u8, 45u8, 110u8, 101u8, 116u8, 119u8, 111u8, 114u8, 107u8],
        seq![110u8, 111u8, 110u8, 101u8],
    ]
}

/// The `--memory` flag word.
pub open spec fn memory_flag() -> Seq<u8> {
    seq![45u8, 45u8, 109u8, 101u8, 109u8, 111u8, 114u8, 121u8]
}

/// The `--pids-limit` flag word.
pub open spec fn pids_flag() -> Seq<u8> {
    seq![45u8, 45u8, 112u8, 105u8, 100u8, 115u8, 45u8, 108u8, 105u8, 109u8, 105u8, 116u8]
}

/// The `-v` flag word.
pub open spec fn volume_flag() -> Seq<u8> {
    seq![45u8, 118u8]
}

/// The limit arguments the docker argv carries: `--memory <N>m` when a
/// memory cap is set, then `--pids-limit <N>` when a process cap is set.
pub open spec fn spec_limit_args(limits: Limits) -> Seq<Seq<u8>> {
    (match limits.memory_mb {
        Some(m) => seq![memory_flag(), dec_digits(m as nat) + seq![109u8]],
        None => Seq::empty(),
    }) + (match limits.nproc {
        Some(p) => seq![pids_flag(), dec_digits(p as nat)],
        None => Seq::empty(),
    })
}

/// The volume arguments: `-v` and one rendered mount per entry, in order.
pub open spec fn spec_mount_args(mounts: Seq<MountSpec>, hosts: Seq<Vec<u8>>, i: int) -> Seq<
    Seq<u8>,
>
    decreases mounts.len() - i,
{
    if i < 0 || i >= mounts.len() {
        Seq::empty()
    } else {
        seq![volume_flag(), spec_render_mount(hosts[i]@, mounts[i].container@, mounts[i].mode)]
            + spec_mount_args(mounts, hosts, i + 1)
    }
}

/// The whole container-mode argv: the preamble, the limit arguments, the
/// volume arguments, the image, then the program argv unchanged.
pub open spec fn spec_docker_argv(
    image: Seq<u8>,
    cmd: Seq<Vec<u8>>,
    mounts: Seq<MountSpec>,
    hosts: Seq<Vec<u8>>,
    limits: Limits,
) -> Seq<Seq<u8>> {
    docker_preamble() + spec_limit_args(limits) + spec_mount_args(mounts, hosts, 0) + seq![image]
        + cmd.map_values(|c: Vec<u8>| c@)
}

/// Builds the container-mode argv: `docker run --rm -i --network none`, the
/// configured caps, one `-v` per mount (host paths already resolved by the
/// caller), the image, then the program argv without substitution.
#[verifier::loop_isolation(false)]
pub fn build_docker_cmd(
    image: &Vec<u8>,
    cmd: &Vec<Vec<u8>>,
    mounts: &Vec<MountSpec>,
    resolved_hosts: &Vec<Vec<u8>>,
    limits: &Limits,
) -> (r: Vec<Vec<u8>>)
    requires
        resolved_hosts@.len() == mounts@.len(),
    ensures
        r@.len() == spec_docker_argv(image@, cmd@, mounts@, resolved_hosts@, *limits).len(),
        forall|q: int| 0 <= q < r@.len() ==> #[trigger] r@[q]@ == spec_docker_argv(
            image@,
            cmd@,
            mounts@,
            resolved_hosts@,
            *limits,
        )[q],
{
    let mut argv: Vec<Vec<u8>> = Vec::new();
    let w0: [u8; 6] = [100u8, 111u8, 99u8, 107u8, 101u8, 114u8];
    argv.push(vstd::slice::slice_to_vec(w0.as_slice()));
    let w1: [u8; 3] = [114u8, 117u8, 110u8];
    argv.push(vstd::slice::slice_to_vec(w1.as_slice()));
    let w2: [u8; 4] = [45u8, 45u8, 114u8, 109u8];
    argv.push(vstd::slice::slice_to_vec(w2.as_slice()));
    let w3: [u8; 2] = [45u8, 105u8];
    argv.push(vstd::slice::slice_to_vec(w3.as_slice()));
    let w4: [u8; 9] = [45u8, 45u8, 110u8, 101u8, 116u8, 119u8, 111u8, 114u8, 107u8];
    argv.push(vstd::slice::slice_to_vec(w4.as_slice()));
    let w5: [u8; 4] = [110u8, 111u8, 110u8, 101u8];
    argv.push(vstd::slice::slice_to_vec(w5.as_slice()));
    proof {
        assert(argv@.map_values(|a: Vec<u8>| a@) =~~= docker_preamble());
    }
    match limits.memory_mb {
        Some(m) => {
            let w6: [u8; 8] = [45u8, 45u8, 109u8, 101u8, 109u8, 111u8, 114u8, 121u8];
            argv.push(vstd::slice::slice_to_vec(w6.as_slice()));
            let mut num: Vec<u8> = Vec::new();
            push_u64_dec(&mut num, m);
            num.push(109u8);
            proof {
                assert(num@ =~= dec_digits(m as nat) + seq![109u8]);
            }
            argv.push(num);
        },
        None => {},
    }
    match limits.nproc {
        Some(p) => {
            let w7: [u8; 12] = [
                45u8,
                45u8,
                112u8,
                105u8,
                100u8,
                115u8,
                45u8,
                108u8,
                105u8,
                109u8,
                105u8,
                116u8,
            ];
            argv.push(vstd::slice::slice_to_vec(w7.as_slice()));
            argv.push(push_u64_fresh(p));
        },
        None => {},
    }
    proof {
        assert(argv@.map_values(|a: Vec<u8>| a@) =~~= docker_preamble() + spec_limit_args(*limits));
    }
    let ghost head = argv@;
    let ghost full = spec_mount_args(mounts@, resolved_hosts@, 0);
    let n = mounts.len();
    proof {
        lemma_mount_args_len(mounts@, resolved_hosts@, 0);
    }
    let mut i: usize = 0;
    while i < n
        invariant
            i <= n,
            argv@.len() == head.len() + 2 * i,
            forall|q: int| 0 <= q < head.len() ==> #[trigger] argv@[q] == head[q],
            forall|q: int| 0 <= q < 2 * i ==> #[trigger] argv@[head.len() + q]@ == full[q],
        decreases n - i,
    {
        let wv: [u8; 2] = [45u8, 118u8];
        argv.push(vstd::slice::slice_to_vec(wv.as_slice()));
        argv.push(render_docker_mount(&resolved_hosts[i], &mounts[i].container, &mounts[i].mode));
        proof {
            lemma_mount_args_index(mounts@, resolved_hosts@, i as int);
            let tail = spec_mount_args(mounts@, resolved_hosts@, i as int);
            assert(tail[0] == volume_flag());
            assert(tail[1] == spec_render_mount(
                resolved_hosts@[i as int]@,
                mounts@[i as int].container@,
                mounts@[i as int].mode,
            ));
            assert(full[2 * i] == full.skip(2 * i)[0]);
            assert(full[2 * i + 1] == full.skip(2 * i)[1]);
            assert(argv@[head.len() + 2 * i]@ =~= full[2 * i]);
            assert(argv@[head.len() + 2 * i + 1]@ == full[2 * i + 1]);
        }
        i = i + 1;
    }
    let ghost mid_len = argv@.len() as int;
    argv.push(copy_whole(image));
    let m = cmd.len();
    let mut j: usize = 0;
    while j < m
        invariant
            j <= m,
            argv@.len() == mid_len + 1 + j,
            mid_len == head.len() + 2 * n,
            forall|q: int| 0 <= q < head.len() ==> #[trigger] argv@[q] == head[q],
            forall|q: int| 0 <= q < 2 * n ==> #[trigger] argv@[head.len() + q]@ == full[q],
            argv@[mid_len]@ == image@,
            forall|q: int| 0 <= q < j ==> #[trigger] argv@[mid_len + 1 + q]@ == cmd@[q]@,
        decreases m - j,
    {
        argv.push(copy_whole(&cmd[j]));
        j = j + 1;
    }
    proof {
        let target = spec_docker_argv(image@, cmd@, mounts@, resolved_hosts@, *limits);
        let lead = docker_preamble() + spec_limit_args(*limits);
        assert(head.map_values(|a: Vec<u8>| a@) == lead);
        assert(head.len() == lead.len()) by {
            assert(head.map_values(|a: Vec<u8>| a@).len() == head.len());
        }
        assert(cmd@.map_values(|c: Vec<u8>| c@).len() == cmd@.len());
        assert(target.len() == lead.len() + 2 * n + 1 + cmd@.len());
        assert forall|q: int| 0 <= q < argv@.len() implies #[trigger] argv@[q]@ == target[q] by {
            if q < head.len() {
                assert(head.map_values(|a: Vec<u8>| a@)[q] == head[q]@);
                assert(argv@[q] == head[q]);
                assert(target[q] == lead[q]);
            } else if q < mid_len {
                assert(argv@[head.len() + (q - head.len())]@ == full[q - head.len()]);
                assert(target[q] == full[q - head.len()]);
            } else if q == mid_len {
                assert(target[q] == image@);
            } else {
                assert(argv@[mid_len + 1 + (q - mid_len - 1)]@ == cmd@[q - mid_len - 1]@);
                assert(cmd@.map_values(|c: Vec<u8>| c@)[q - mid_len - 1] == cmd@[q - mid_len
                    - 1]@);
                assert(target[q] == cmd@.map_values(|c: Vec<u8>| c@)[q - mid_len - 1]);
            }
        }
    }
    argv
}

/// The decimal form of `v` as a fresh byte string.
fn push_u64_fresh(v: u64) -> (r: Vec<u8>)
    ensures
        r@ == dec_digits(v as nat),
{
    let mut out: Vec<u8> = Vec::new();
    push_u64_dec(&mut out, v);
    proof {
        assert(out@ =~= dec_digits(v as nat));
    }
    out
}

/// Each mount contributes its `-v` pair at offset `2 * i`.
proof fn lemma_mount_args_index(mounts: Seq<MountSpec>, hosts: Seq<Vec<u8>>, i: int)
    requires
        0 <= i <= mounts.len(),
    ensures
        spec_mount_args(mounts, hosts, 0).len() == 2 * mounts.len(),
        spec_mount_args(mounts, hosts, 0).skip(2 * i) == spec_mount_args(mounts, hosts, i),
    decreases i,
{
    lemma_mount_args_len(mounts, hosts, 0);
    if i == 0 {
        assert(spec_mount_args(mounts, hosts, 0).skip(0) =~= spec_mount_args(mounts, hosts, 0));
    } else {
        lemma_mount_args_index(mounts, hosts, i - 1);
        lemma_mount_args_len(mounts, hosts, i - 1);
        lemma_mount_args_len(mounts, hosts, i);
        assert(spec_mount_args(mounts, hosts, i - 1).skip(2) =~= spec_mount_args(
            mounts,
            hosts,
            i,
        ));
        assert(spec_mount_args(mounts, hosts, 0).skip(2 * i) =~= spec_mount_args(
            mounts,
            hosts,
            0,
        ).skip(2 * (i - 1)).skip(2));
    }
}

/// The tail of the volume arguments has two entries per remaining mount.
proof fn lemma_mount_args_len(mounts: Seq<MountSpec>, hosts: Seq<Vec<u8>>, i: int)
    ensures
        spec_mount_args(mounts, hosts, i).len() == if 0 <= i <= mounts.len() {
            2 * (mounts.len() - i)
        } else {
            0
        },
    decreases mounts.len() - i,
{
    if 0 <= i < mounts.len() {
        lemma_mount_args_len(mounts, hosts, i + 1);
    }
}

} // verus!
