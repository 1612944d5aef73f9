//! The device nodes a console needs, for when devtmpfs did not make them.
use vstd::prelude::*;

verus! {

/// The character devices to make when they are missing: the path, the
/// permission bits, and the kernel's major and minor numbers.
pub fn nodes() -> (r: [(&'static str, u32, u32, u32); 3])
    ensures
        r[0] == ("/dev/null", 0o666u32, 1u32, 3u32),
        r[1] == ("/dev/console", 0o600u32, 5u32, 1u32),
        r[2] == ("/dev/tty", 0o666u32, 5u32, 0u32),
        forall|k: int| 0 <= k < 3 ==> #[trigger] r[k].1 & !0o777u32 == 0,
{
    proof {
        assert(0o666u32 & !0o777u32 == 0) by (bit_vector);
        assert(0o600u32 & !0o777u32 == 0) by (bit_vector);
    }
    [("/dev/null", 0o666, 1, 3), ("/dev/console", 0o600, 5, 1), ("/dev/tty", 0o666, 5, 0)]
}

} // verus!
