//! Device numbers as the kernel packs them.
use vstd::prelude::*;

verus! {

/// The device number of `major` and `minor`, packed as glibc's `makedev`
/// does: the low 8 bits of the minor, then the low 12 bits of the major,
/// then the rest of the minor, then the rest of the major.
pub open spec fn packed(major: u32, minor: u32) -> u64 {
    let major = major as u64;
    let minor = minor as u64;
    ((major & 0xffff_f000) << 32u64) | ((major & 0x0000_0fff) << 8u64) | ((minor & 0xffff_ff00) << 12u64)
        | (minor & 0x0000_00ff)
}

/// The device number of `major` and `minor`.
pub fn makedev(major: u32, minor: u32) -> (r: u64)
    ensures
        r == packed(major, minor),
{
    let major = major as u64;
    let minor = minor as u64;
    ((major & 0xffff_f000) << 32u64) | ((major & 0x0000_0fff) << 8u64) | ((minor & 0xffff_ff00) << 12u64)
        | (minor & 0x0000_00ff)
}

/// For the small numbers of the old encoding (a major below 4096 and a
/// minor below 256), the device number is the major in the second byte and
/// the minor in the first.
pub proof fn small_numbers_keep_the_old_layout(major: u32, minor: u32)
    requires
        major < 4096,
        minor < 256,
    ensures
        packed(major, minor) == (major as u64) * 256 + (minor as u64),
{
    let ma = major as u64;
    let mi = minor as u64;
    assert(((ma & 0xffff_f000) << 32u64) | ((ma & 0x0000_0fff) << 8u64) | ((mi & 0xffff_ff00) << 12u64) | (mi
        & 0x0000_00ff) == ma * 256 + mi) by (bit_vector)
        requires
            ma < 4096,
            mi < 256,
    ;
}

/// Major and minor can be read back from the device number.
pub proof fn the_numbers_can_be_read_back(major: u32, minor: u32)
    ensures
        (((packed(major, minor) >> 8u64) & 0xfffu64) | ((packed(major, minor) >> 32u64) & 0xffff_f000u64)) == major as u64,
        ((packed(major, minor) & 0xffu64) | ((packed(major, minor) >> 12u64) & 0xffff_ff00u64)) == minor as u64,
{
    let ma = major as u64;
    let mi = minor as u64;
    let d = packed(major, minor);
    assert(d == ((ma & 0xffff_f000) << 32u64) | ((ma & 0x0000_0fff) << 8u64) | ((mi & 0xffff_ff00) << 12u64) | (mi
        & 0x0000_00ff));
    assert((((((ma & 0xffff_f000) << 32u64) | ((ma & 0x0000_0fff) << 8u64) | ((mi & 0xffff_ff00) << 12u64) | (mi
        & 0x0000_00ff)) >> 8u64) & 0xfffu64) | (((((ma & 0xffff_f000) << 32u64) | ((ma & 0x0000_0fff) << 8u64) | ((mi
        & 0xffff_ff00) << 12u64) | (mi & 0x0000_00ff)) >> 32u64) & 0xffff_f000u64) == ma) by (bit_vector)
        requires
            ma <= 0xffff_ffffu64,
            mi <= 0xffff_ffffu64,
    ;
    assert(((((ma & 0xffff_f000) << 32u64) | ((ma & 0x0000_0fff) << 8u64) | ((mi & 0xffff_ff00) << 12u64) | (mi
        & 0x0000_00ff)) & 0xffu64) | (((((ma & 0xffff_f000) << 32u64) | ((ma & 0x0000_0fff) << 8u64) | ((mi
        & 0xffff_ff00) << 12u64) | (mi & 0x0000_00ff)) >> 12u64) & 0xffff_ff00u64) == mi) by (bit_vector)
        requires
            ma <= 0xffff_ffffu64,
            mi <= 0xffff_ffffu64,
    ;
}

} // verus!
