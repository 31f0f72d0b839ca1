//! Where the extractor routes each unpacked entry.
//!
//! Three writers stand behind the extractor: the kernel blob, the
//! initrd archive, and the extra-cmdline buffer.  Whiteout and opaque
//! markers are bookkeeping and go nowhere; the conventional kernel
//! artifact (a basename starting with `vmlinuz`) is diverted to the
//! kernel writer; a `cmdline` file at the image root is diverted to
//! the cmdline buffer; everything else is repacked into the initrd.

use crate::unpacker::basename_of;
use crate::unpacker::basename_vec;
use crate::unpacker::is_marker;
use crate::unpacker::is_marker_vec;
use vstd::prelude::*;

verus! {

/// The bytes of the name prefix `vmlinuz`.
pub open spec fn vmlinuz_prefix() -> Seq<u8> {
    seq![118u8, 109u8, 108u8, 105u8, 110u8, 117u8, 122u8]
}

/// The bytes of the root file name `cmdline`.
pub open spec fn cmdline_name() -> Seq<u8> {
    seq![99u8, 109u8, 100u8, 108u8, 105u8, 110u8, 101u8]
}

/// `pre` starts `s`.
pub open spec fn has_prefix(s: Seq<u8>, pre: Seq<u8>) -> bool {
    s.len() >= pre.len() && s.take(pre.len() as int) == pre
}

/// The writer an entry belongs to.
#[derive(Copy, Clone, Debug, PartialEq, Eq, Structural)]
pub enum Route {
    /// A whiteout or opaque marker: recorded, never written.
    Discard,
    /// The kernel blob.
    Kernel,
    /// The extra-cmdline buffer.
    Cmdline,
    /// The initrd archive.
    Initrd,
}

/// Decide where one surviving entry goes.
pub fn route_entry(path: &Vec<u8>) -> (r: Route)
    ensures
        is_marker(path@) ==> r == Route::Discard,
        !is_marker(path@) && has_prefix(basename_of(path@), vmlinuz_prefix()) ==> r
            == Route::Kernel,
        !is_marker(path@) && !has_prefix(basename_of(path@), vmlinuz_prefix()) && path@
            == cmdline_name() ==> r == Route::Cmdline,
        !is_marker(path@) && !has_prefix(basename_of(path@), vmlinuz_prefix()) && path@
            != cmdline_name() ==> r == Route::Initrd,
{
    if is_marker_vec(path) {
        return Route::Discard;
    }
    let base = basename_vec(path);
    if base.len() >= 7 && base[0] == 118u8 && base[1] == 109u8 && base[2] == 108u8 && base[3]
        == 105u8 && base[4] == 110u8 && base[5] == 117u8 && base[6] == 122u8 {
        proof {
            assert(basename_of(path@).take(7) =~= vmlinuz_prefix());
        }
        return Route::Kernel;
    }
    proof {
        if has_prefix(basename_of(path@), vmlinuz_prefix()) {
            assert(basename_of(path@).take(7)[0] == 118u8);
            assert(basename_of(path@).take(7)[1] == 109u8);
            assert(basename_of(path@).take(7)[2] == 108u8);
            assert(basename_of(path@).take(7)[3] == 105u8);
            assert(basename_of(path@).take(7)[4] == 110u8);
            assert(basename_of(path@).take(7)[5] == 117u8);
            assert(basename_of(path@).take(7)[6] == 122u8);
        }
    }
    let is_cmdline = path.len() == 7 && path[0] == 99u8 && path[1] == 109u8 && path[2] == 100u8
        && path[3] == 108u8 && path[4] == 105u8 && path[5] == 110u8 && path[6] == 101u8;
    proof {
        if is_cmdline {
            assert(path@ =~= cmdline_name());
        } else {
            if path@ == cmdline_name() {
                assert(path@[0] == 99u8 && path@[1] == 109u8 && path@[2] == 100u8 && path@[3]
                    == 108u8 && path@[4] == 105u8 && path@[5] == 110u8 && path@[6] == 101u8);
            }
        }
    }
    if is_cmdline {
        Route::Cmdline
    } else {
        Route::Initrd
    }
}

} // verus!
