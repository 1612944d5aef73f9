//! The kernel filesystems init mounts before anything else, and how.
use vstd::prelude::*;

verus! {

/// Linux's `MS_NOSUID`: setuid and setgid bits are not honoured.
pub const MS_NOSUID: u64 = 2;

/// Linux's `MS_NODEV`: device files are not honoured.
pub const MS_NODEV: u64 = 4;

/// Linux's `MS_NOEXEC`: nothing on it can be run.
pub const MS_NOEXEC: u64 = 8;

/// Linux's `EBUSY`: the target is already a mount point.
pub const EBUSY: i32 = 16;

/// The flags for the filesystems that only the kernel writes.
pub const RO_ISH: u64 = MS_NOSUID | MS_NODEV | MS_NOEXEC;

/// The flags for the scratch filesystems.
pub const TMPFS: u64 = MS_NOSUID | MS_NODEV;

/// A kernel filesystem to mount: what, where, of which type, with which
/// flags, and with which options.
#[derive(Clone, Copy, PartialEq, Eq, Debug)]
pub struct Vfs {
    pub source: &'static str,
    pub target: &'static str,
    pub fstype: &'static str,
    pub flags: u64,
    pub data: Option<&'static str>,
}

/// `s` is a path from the root.
pub open spec fn absolute(s: Seq<char>) -> bool {
    s.len() > 0 && s[0] == '/'
}

/// The kernel filesystems, in the order they are mounted: `/proc` and
/// `/sys` first, every one without setuid, and each target once, from the root.
pub fn table() -> (t: &'static [Vfs])
    ensures
        t@.len() == 5,
        t@[0] == (Vfs { source: "proc", target: "/proc", fstype: "proc", flags: RO_ISH, data: None }),
        t@[1] == (Vfs { source: "sysfs", target: "/sys", fstype: "sysfs", flags: RO_ISH, data: None }),
        t@[2] == (Vfs {
            source: "devtmpfs",
            target: "/dev",
            fstype: "devtmpfs",
            flags: MS_NOSUID,
            data: Some("mode=0755"),
        }),
        t@[3] == (Vfs { source: "tmpfs", target: "/run", fstype: "tmpfs", flags: TMPFS, data: Some("mode=0755") }),
        t@[4] == (Vfs { source: "tmpfs", target: "/tmp", fstype: "tmpfs", flags: TMPFS, data: None }),
        forall|k: int| 0 <= k < t@.len() ==> #[trigger] t@[k].flags & MS_NOSUID != 0,
        forall|k: int| 0 <= k < t@.len() ==> absolute(#[trigger] t@[k].target@),
        forall|j: int, k: int| 0 <= j < k < t@.len() ==> t@[j].target@ != t@[k].target@,
{
    proof {
        reveal_strlit("/proc");
        reveal_strlit("/sys");
        reveal_strlit("/dev");
        reveal_strlit("/run");
        reveal_strlit("/tmp");
        assert(RO_ISH & MS_NOSUID != 0) by (bit_vector);
        assert(TMPFS & MS_NOSUID != 0) by (bit_vector);
        assert(MS_NOSUID & MS_NOSUID != 0) by (bit_vector);
    }
    let t: &'static [Vfs] = &[
        Vfs { source: "proc", target: "/proc", fstype: "proc", flags: RO_ISH, data: None },
        Vfs { source: "sysfs", target: "/sys", fstype: "sysfs", flags: RO_ISH, data: None },
        Vfs { source: "devtmpfs", target: "/dev", fstype: "devtmpfs", flags: MS_NOSUID, data: Some("mode=0755") },
        Vfs { source: "tmpfs", target: "/run", fstype: "tmpfs", flags: TMPFS, data: Some("mode=0755") },
        Vfs { source: "tmpfs", target: "/tmp", fstype: "tmpfs", flags: TMPFS, data: None },
    ];
    proof {
        assert(t@[2].target@[1] != t@[3].target@[1]);
        assert(t@[0].target@[1] != t@[4].target@[1]);
        assert(t@[3].target@[1] != t@[4].target@[1]);
    }
    t
}

/// Whether a failed mount, with the OS error it gave, is no failure: the
/// target was already mounted.
pub fn already_mounted(os_error: Option<i32>) -> (r: bool)
    ensures
        r == (os_error == Some(EBUSY)),
{
    match os_error {
        Some(e) => e == EBUSY,
        None => false,
    }
}

/// What happened to one filesystem of the table: its target directory could
/// not be made, it was mounted, or `mount(2)` refused it with the OS error it
/// gave, if any.
#[derive(Clone, Copy, PartialEq, Eq, Debug)]
pub enum Attempt {
    NoDirectory,
    Mounted,
    Refused(Option<i32>),
}

/// Whether an attempt counts as a failure: a missing directory, or a refusal
/// other than the target being mounted already.
pub open spec fn failed(a: Attempt) -> bool {
    match a {
        Attempt::NoDirectory => true,
        Attempt::Mounted => false,
        Attempt::Refused(e) => e != Some(EBUSY),
    }
}

/// How many of `s` are failures.
pub open spec fn failures_in(s: Seq<Attempt>) -> nat
    decreases s.len(),
{
    if s.len() == 0 {
        0
    } else {
        failures_in(s.drop_last()) + if failed(s.last()) { 1nat } else { 0nat }
    }
}

impl Attempt {
    /// Whether this attempt counts as a failure.
    pub fn is_failure(&self) -> (r: bool)
        ensures
            r == failed(*self),
    {
        match self {
            Attempt::NoDirectory => true,
            Attempt::Mounted => false,
            Attempt::Refused(e) => !already_mounted(*e),
        }
    }
}

/// How many of the attempts failed: what the boot reports as the count of
/// filesystems that did not mount.
pub fn count_failures(attempts: &[Attempt]) -> (n: usize)
    ensures
        n == failures_in(attempts@),
{
    let mut n: usize = 0;
    for k in 0..attempts.len()
        invariant
            n == failures_in(attempts@.take(k as int)),
            n <= k,
    {
        assert(attempts@.take(k + 1).drop_last() =~= attempts@.take(k as int));
        if attempts[k].is_failure() {
            n = n + 1;
        }
    }
    assert(attempts@.take(attempts@.len() as int) =~= attempts@);
    n
}

/// No more failures than attempts, and none at all when every target was
/// mounted or already mounted: running the table twice reports nothing new.
pub proof fn mounted_twice_reports_no_failure(s: Seq<Attempt>)
    ensures
        failures_in(s) <= s.len(),
        (forall|k: int| 0 <= k < s.len() ==> #[trigger] s[k] == Attempt::Mounted || s[k] == Attempt::Refused(Some(EBUSY)))
            ==> failures_in(s) == 0,
    decreases s.len(),
{
    if s.len() > 0 {
        mounted_twice_reports_no_failure(s.drop_last());
        if forall|k: int| 0 <= k < s.len() ==> #[trigger] s[k] == Attempt::Mounted || s[k] == Attempt::Refused(Some(EBUSY)) {
            assert(s[s.len() - 1] == s.last());
            assert forall|k: int| 0 <= k < s.drop_last().len() implies #[trigger] s.drop_last()[k] == Attempt::Mounted
                || s.drop_last()[k] == Attempt::Refused(Some(EBUSY)) by {
                assert(s.drop_last()[k] == s[k]);
            }
        }
    }
}

} // verus!
