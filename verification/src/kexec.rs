//! The kexec driver's decisions.
//!
//! The raw `kexec_file_load` syscall, the reboot and the polling of
//! `/sys/kernel/kexec_loaded` stay outside the library; here stand the
//! rules they follow: how a raw syscall return is decoded into an
//! error number, when a failed fetch is retried and for how long the
//! driver sleeps before it, what the readiness file must read, how the
//! image's own cmdline and the caller's arguments are merged, and
//! where the temporary boot artifacts live.

use vstd::arithmetic::power2::pow2;
use vstd::bits::lemma_u64_pow2_no_overflow;
use vstd::bits::lemma_u64_shl_is_mul;
use vstd::prelude::*;

verus! {

/// The kexec command: fetch `image`, stage its kernel and initrd, and
/// reboot into them with the given cmdline.
pub struct Kexec {
    /// Do not show progress output.
    pub quiet: bool,
    /// The container image to boot (`[source/]name[:tag|@digest]`).
    pub image: String,
    /// The kernel cmdline handed to the staged kernel.
    pub cmdline: Option<String>,
    /// How many times a failed fetch is retried.
    pub tries: u32,
}

/// Decode the raw return value of `kexec_file_load`: returns in the
/// last 4096 values of the unsigned range encode the negated errno.
pub fn errno_of_return(ret: usize) -> (r: Option<i32>)
    ensures
        ret >= usize::MAX - 4095 ==> (r matches Some(code) && code == usize::MAX - ret + 1),
        ret < usize::MAX - 4095 ==> r is None,
{
    if ret >= usize::MAX - 4095 {
        let code = usize::MAX - ret + 1;
        Some(code as i32)
    } else {
        None
    }
}

/// Whether a failed attempt numbered `attempt` (counted from zero) may
/// be retried.
pub open spec fn retry_allowed(attempt: int, tries: int) -> bool {
    attempt < tries
}

/// What the driver does after attempt `attempt` failed.
pub enum RetryStep {
    /// Sleep this many seconds, then try again.
    Retry { sleep_secs: u64 },
    /// Hand the failure to the caller.
    GiveUp,
}

/// Decide the fate of a failed fetch attempt: attempts numbered below
/// `tries` sleep `2^attempt` seconds and run again, later ones give
/// up.  An allowed attempt number stays below 64, so the sleep fits.
pub fn retry_after(attempt: u32, tries: u32) -> (r: RetryStep)
    requires
        tries <= 64,
    ensures
        retry_allowed(attempt as int, tries as int) ==> (r matches RetryStep::Retry { sleep_secs }
            && sleep_secs == pow2(attempt as nat)),
        !retry_allowed(attempt as int, tries as int) ==> r == RetryStep::GiveUp,
{
    if attempt < tries {
        proof {
            lemma_u64_pow2_no_overflow(attempt as nat);
            lemma_u64_shl_is_mul(1u64, attempt as u64);
        }
        RetryStep::Retry { sleep_secs: 1u64 << attempt }
    } else {
        RetryStep::GiveUp
    }
}

/// Retry ceiling: attempt `k` is reached only when attempt `k - 1` was
/// allowed to retry, so a run makes at most `tries + 1` attempts, and
/// every sleep lasts `2^k` seconds for an attempt `k` below `tries`.
pub proof fn lemma_retry_ceiling(tries: int, k: int)
    ensures
        k > tries ==> !retry_allowed(k - 1, tries),
        retry_allowed(k, tries) ==> k <= tries - 1,
{
}

/// What `/sys/kernel/kexec_loaded` must read before the reboot: the
/// two bytes `1` and newline.
pub fn kexec_ready(contents: &[u8]) -> (r: bool)
    ensures
        r == (contents@ == seq![49u8, 10u8]),
{
    let r = contents.len() == 2 && contents[0] == 49u8 && contents[1] == 10u8;
    proof {
        if r {
            assert(contents@ =~= seq![49u8, 10u8]);
        }
    }
    r
}

/// ASCII whitespace, as the cmdline merge trims it.
pub open spec fn is_ws_byte(b: u8) -> bool {
    b == 32 || b == 9 || b == 10 || b == 11 || b == 12 || b == 13
}

/// The number of leading whitespace bytes.
pub open spec fn lead_ws(s: Seq<u8>) -> int
    decreases s.len(),
{
    if s.len() == 0 || !is_ws_byte(s[0]) {
        0
    } else {
        1 + lead_ws(s.drop_first())
    }
}

/// The number of trailing whitespace bytes.
pub open spec fn trail_ws(s: Seq<u8>) -> int
    decreases s.len(),
{
    if s.len() == 0 || !is_ws_byte(s.last()) {
        0
    } else {
        1 + trail_ws(s.drop_last())
    }
}

/// `s` without its leading and trailing whitespace.
pub open spec fn trim_spec(s: Seq<u8>) -> Seq<u8> {
    if lead_ws(s) == s.len() {
        Seq::empty()
    } else {
        s.subrange(lead_ws(s), s.len() - trail_ws(s))
    }
}

pub proof fn lemma_lead_ws_bounds(s: Seq<u8>)
    ensures
        0 <= lead_ws(s) <= s.len(),
        forall|j: int| 0 <= j < lead_ws(s) ==> is_ws_byte(s[j]),
        lead_ws(s) < s.len() ==> !is_ws_byte(s[lead_ws(s)]),
    decreases s.len(),
{
    if s.len() == 0 || !is_ws_byte(s[0]) {
    } else {
        lemma_lead_ws_bounds(s.drop_first());
        assert forall|j: int| 0 <= j < lead_ws(s) implies is_ws_byte(s[j]) by {
            if j > 0 {
                assert(s.drop_first()[j - 1] == s[j]);
            }
        }
        if lead_ws(s) < s.len() {
            assert(s.drop_first()[lead_ws(s) - 1] == s[lead_ws(s)]);
        }
    }
}

pub proof fn lemma_trail_ws_bounds(s: Seq<u8>)
    ensures
        0 <= trail_ws(s) <= s.len(),
        forall|j: int| s.len() - trail_ws(s) <= j < s.len() ==> is_ws_byte(s[j]),
        trail_ws(s) < s.len() ==> !is_ws_byte(s[s.len() - trail_ws(s) - 1]),
    decreases s.len(),
{
    if s.len() == 0 || !is_ws_byte(s.last()) {
    } else {
        lemma_trail_ws_bounds(s.drop_last());
        assert forall|j: int| s.len() - trail_ws(s) <= j < s.len() implies is_ws_byte(s[j]) by {
            if j < s.len() - 1 {
                assert(s.drop_last()[j] == s[j]);
            }
        }
        if trail_ws(s) < s.len() {
            assert(s.drop_last()[s.len() - trail_ws(s) - 1] == s[s.len() - trail_ws(s) - 1]);
        }
    }
}

/// Characterize the trim window by what the scan found.
proof fn lemma_trim_window(s: Seq<u8>, a: int, b: int)
    requires
        0 <= a <= b <= s.len(),
        forall|j: int| 0 <= j < a ==> is_ws_byte(s[j]),
        forall|j: int| b <= j < s.len() ==> is_ws_byte(s[j]),
        a < b ==> !is_ws_byte(s[a]) && !is_ws_byte(s[b - 1]),
        a == b ==> a == s.len(),
    ensures
        trim_spec(s) == s.subrange(a, b),
    decreases s.len(),
{
    lemma_lead_ws_bounds(s);
    lemma_trail_ws_bounds(s);
    if a == b {
        assert(lead_ws(s) == s.len());
        assert(trim_spec(s) =~= s.subrange(a, b));
    } else {
        assert(lead_ws(s) == a) by {
            if lead_ws(s) < a {
                assert(is_ws_byte(s[lead_ws(s)]));
            }
            if lead_ws(s) > a {
                assert(is_ws_byte(s[a]));
            }
        }
        assert(trail_ws(s) == s.len() - b) by {
            if s.len() - trail_ws(s) > b {
                assert(is_ws_byte(s[s.len() - trail_ws(s) - 1]));
            }
            if s.len() - trail_ws(s) < b {
                assert(is_ws_byte(s[b - 1]));
            }
        }
    }
}

/// Strip leading and trailing ASCII whitespace.
pub fn trim_bytes(s: &Vec<u8>) -> (r: Vec<u8>)
    ensures
        r@ == trim_spec(s@),
{
    let n = s.len();
    let mut a: usize = 0;
    while a < n && ws_byte(s[a])
        invariant
            0 <= a <= n,
            n == s@.len(),
            forall|j: int| 0 <= j < a ==> is_ws_byte(s@[j]),
        decreases n - a,
    {
        a = a + 1;
    }
    let mut b: usize = n;
    while b > a && ws_byte(s[b - 1])
        invariant
            a <= b <= n,
            n == s@.len(),
            forall|j: int| b <= j < n ==> is_ws_byte(s@[j]),
        decreases b,
    {
        b = b - 1;
    }
    let mut out: Vec<u8> = Vec::new();
    let mut i: usize = a;
    while i < b
        invariant
            a <= i <= b <= n,
            n == s@.len(),
            out@ == s@.subrange(a as int, i as int),
        decreases b - i,
    {
        out.push(s[i]);
        proof {
            assert(s@.subrange(a as int, i + 1) =~= s@.subrange(a as int, i as int) + seq![
                s@[i as int],
            ]);
        }
        i = i + 1;
    }
    proof {
        if a == b {
            assert forall|j: int| 0 <= j < a implies is_ws_byte(s@[j]) by {}
            lemma_trim_window(s@, a as int, b as int);
        } else {
            lemma_trim_window(s@, a as int, b as int);
        }
        assert(out@ =~= s@.subrange(a as int, b as int));
    }
    out
}

/// The merged cmdline: the trimmed extra arguments found inside the
/// image, one space, the caller's arguments, trimmed once more.
pub open spec fn merged_cmdline(extra: Seq<u8>, arg: Seq<u8>) -> Seq<u8> {
    trim_spec(trim_spec(extra) + seq![32u8] + arg)
}

/// Merge the image's embedded cmdline bytes with the caller's
/// arguments, exactly as the staged kernel will receive them.
pub fn merge_cmdline(extra: &Vec<u8>, arg: &Option<Vec<u8>>) -> (r: Vec<u8>)
    ensures
        r@ == merged_cmdline(
            extra@,
            match arg {
                Some(a) => a@,
                None => Seq::empty(),
            },
        ),
{
    let head = trim_bytes(extra);
    let mut joined = head;
    joined.push(32u8);
    let ghost mid = joined@;
    match arg {
        Some(a) => {
            let mut i: usize = 0;
            while i < a.len()
                invariant
                    0 <= i <= a@.len(),
                    joined@ == mid + a@.take(i as int),
                decreases a@.len() - i,
            {
                joined.push(a[i]);
                proof {
                    assert(a@.take(i + 1) =~= a@.take(i as int) + seq![a@[i as int]]);
                }
                i = i + 1;
            }
            proof {
                assert(a@.take(a@.len() as int) =~= a@);
            }
        },
        None => {
            proof {
                assert(joined@ =~= mid + Seq::<u8>::empty());
            }
        },
    }
    proof {
        assert(joined@ =~= trim_spec(extra@) + seq![32u8] + (match arg {
            Some(a) => a@,
            None => Seq::<u8>::empty(),
        }));
    }
    trim_bytes(&joined)
}

/// Whether `b` is merge whitespace.
fn ws_byte(b: u8) -> (r: bool)
    ensures
        r == is_ws_byte(b),
{
    b == 32 || b == 9 || b == 10 || b == 11 || b == 12 || b == 13
}

/// The decimal digits of `n`.
pub open spec fn dec_rep(n: nat) -> Seq<u8>
    decreases n,
{
    if n < 10 {
        seq![(48 + n) as u8]
    } else {
        dec_rep(n / 10).push((48 + n % 10) as u8)
    }
}

fn push_decimal(n: u64, out: &mut Vec<u8>)
    ensures
        final(out)@ == old(out)@ + dec_rep(n as nat),
    decreases n,
{
    if n >= 10 {
        proof {
            assert(n / 10 < n) by (nonlinear_arith)
                requires
                    n >= 10,
            ;
        }
        push_decimal(n / 10, out);
    }
    out.push((n % 10) as u8 + 48);
    proof {
        if n < 10 {
            assert(final(out)@ =~= old(out)@ + dec_rep(n as nat));
        } else {
            assert(final(out)@ =~= old(out)@ + dec_rep(n as nat));
        }
    }
}

/// The role suffixes of the two boot artifacts.
pub open spec fn kernel_suffix() -> Seq<u8> {
    seq![46u8, 107u8, 101u8, 114u8, 110u8, 101u8, 108u8]
}

pub open spec fn initrd_suffix() -> Seq<u8> {
    seq![46u8, 105u8, 110u8, 105u8, 116u8, 114u8, 100u8]
}

/// The prefix `/tmp/wyrcan.` of both artifact paths.
pub open spec fn artifact_prefix() -> Seq<u8> {
    seq![47u8, 116u8, 109u8, 112u8, 47u8, 119u8, 121u8, 114u8, 99u8, 97u8, 110u8, 46u8]
}

/// The two temporary artifact paths of the process `pid`:
/// `/tmp/wyrcan.<pid>.kernel` and `/tmp/wyrcan.<pid>.initrd`.  The pid
/// keeps concurrent runs apart; both files are removed on success and
/// on failure.
pub fn artifact_paths(pid: u64) -> (r: (Vec<u8>, Vec<u8>))
    ensures
        r.0@ == artifact_prefix() + dec_rep(pid as nat) + kernel_suffix(),
        r.1@ == artifact_prefix() + dec_rep(pid as nat) + initrd_suffix(),
{
    let mut base: Vec<u8> = Vec::new();
    base.push(47u8);
    base.push(116u8);
    base.push(109u8);
    base.push(112u8);
    base.push(47u8);
    base.push(119u8);
    base.push(121u8);
    base.push(114u8);
    base.push(99u8);
    base.push(97u8);
    base.push(110u8);
    base.push(46u8);
    proof {
        assert(base@ =~= artifact_prefix());
    }
    push_decimal(pid, &mut base);
    let mut kernel = vstd::slice::slice_to_vec(base.as_slice());
    kernel.push(46u8);
    kernel.push(107u8);
    kernel.push(101u8);
    kernel.push(114u8);
    kernel.push(110u8);
    kernel.push(101u8);
    kernel.push(108u8);
    let mut initrd = base;
    initrd.push(46u8);
    initrd.push(105u8);
    initrd.push(110u8);
    initrd.push(105u8);
    initrd.push(116u8);
    initrd.push(114u8);
    initrd.push(100u8);
    proof {
        assert(kernel@ =~= artifact_prefix() + dec_rep(pid as nat) + kernel_suffix());
        assert(initrd@ =~= artifact_prefix() + dec_rep(pid as nat) + initrd_suffix());
    }
    (kernel, initrd)
}

} // verus!
