//! The EFI variable store.
//!
//! A variable named `N` under the UUID `U` lives in the file
//! `/sys/firmware/efi/efivars/N-U`.  On disk the payload is preceded by a
//! four-byte little-endian attribute word (`0x00000007` = non-volatile |
//! boot-service | runtime).  This module holds the pure part of the store:
//! the path construction, the framing and unframing of payloads, and the
//! computation that drops the immutable bit from a file's inode flags.
//! Opening, writing and unlinking the files is left to the unverified
//! shell around the library.

use crate::cmdline::Args;
use crate::cmdline::tokens;
use vstd::prelude::*;
use vstd::string::*;

verus! {

/// The inode flag bit that marks a file immutable (`FS_IMMUTABLE_FL`).
pub const IMMUTABLE_FLAG: i64 = 0x10;

/// The attribute word written in front of every variable payload,
/// little-endian: non-volatile | boot-service | runtime access.
pub open spec fn attr_word() -> Seq<u8> {
    seq![7u8, 0u8, 0u8, 0u8]
}

/// What a stored variable file holds for the payload `v`.
pub open spec fn frame_spec(v: Seq<u8>) -> Seq<u8> {
    attr_word() + v
}

/// The payload of a stored variable file: everything past the attribute word.
pub open spec fn unframe_spec(d: Seq<u8>) -> Seq<u8> {
    d.skip(4)
}

/// Prefix a payload with the attribute word, yielding the bytes that the
/// variable file must hold.
pub fn frame(value: &[u8]) -> (r: Vec<u8>)
    ensures
        r@ == frame_spec(value@),
{
    let mut out: Vec<u8> = Vec::new();
    out.push(7u8);
    out.push(0u8);
    out.push(0u8);
    out.push(0u8);
    let mut i: usize = 0;
    while i < value.len()
        invariant
            i <= value@.len(),
            out@ == attr_word() + value@.take(i as int),
        decreases value@.len() - i,
    {
        out.push(value[i]);
        i = i + 1;
        proof {
            assert(value@.take(i as int) == value@.take(i - 1) + seq![value@[i - 1]]);
        }
    }
    proof {
        assert(value@.take(value@.len() as int) == value@);
    }
    out
}

/// Strip the attribute word from the bytes of a variable file, yielding
/// the payload.
pub fn unframe(data: &[u8]) -> (r: Vec<u8>)
    requires
        data@.len() >= 4,
    ensures
        r@ == unframe_spec(data@),
{
    let mut out: Vec<u8> = Vec::new();
    let mut i: usize = 4;
    while i < data.len()
        invariant
            4 <= i <= data@.len(),
            out@ == data@.subrange(4, i as int),
        decreases data@.len() - i,
    {
        out.push(data[i]);
        i = i + 1;
        proof {
            assert(data@.subrange(4, i as int) == data@.subrange(4, i - 1) + seq![data@[i - 1]]);
        }
    }
    proof {
        assert(data@.subrange(4, data@.len() as int) == data@.skip(4));
    }
    out
}

/// Drop the immutable bit from an inode flag word, leaving every other
/// bit as it was.  Clearing this bit is required before a variable file
/// may be overwritten or unlinked.
pub fn unlock_flags(flags: i64) -> (r: i64)
    ensures
        r == flags & !IMMUTABLE_FLAG,
        r & IMMUTABLE_FLAG == 0,
        r & !IMMUTABLE_FLAG == flags & !IMMUTABLE_FLAG,
{
    proof {
        assert((flags & !0x10i64) & 0x10i64 == 0) by (bit_vector);
        assert((flags & !0x10i64) & !0x10i64 == flags & !0x10i64) by (bit_vector);
    }
    flags & !IMMUTABLE_FLAG
}

/// Stored and read payloads agree: reading back a freshly framed
/// variable yields the payload that was written, the file is exactly
/// four bytes longer than the payload, and it starts with the attribute
/// word.
pub proof fn lemma_store_round_trip(v: Seq<u8>)
    ensures
        unframe_spec(frame_spec(v)) == v,
        frame_spec(v).len() == v.len() + 4,
        frame_spec(v).take(4) == attr_word(),
{
    assert(unframe_spec(frame_spec(v)) =~= v);
    assert(frame_spec(v).take(4) =~= attr_word());
}

/// A view over the EFI variables stored under one vendor UUID.
pub struct Store {
    /// The vendor UUID, in its textual form.
    pub uuid: String,
}

impl Store {
    /// Make a store for the given vendor UUID.
    pub fn new(uuid: String) -> (r: Store)
        ensures
            r.uuid == uuid,
    {
        Store { uuid }
    }

    /// The efivarfs file that holds the variable `name` of this store.
    pub fn path(&self, name: &str) -> (r: String)
        ensures
            r@ == "/sys/firmware/efi/efivars/"@ + name@ + "-"@ + self.uuid@,
    {
        let mut s = "/sys/firmware/efi/efivars/".to_owned();
        s.append(name);
        s.append("-");
        s.append(self.uuid.as_str());
        s
    }
}

/// The EFI directive read from the kernel cmdline: persist the boot
/// record, or erase it.
#[derive(Copy, Clone, Debug, PartialEq, Eq, Structural)]
pub enum Arg {
    Write,
    Clear,
}

/// What one token does to the scanned directive: a `wyrcan.efi` or
/// `wyr.efi` key with value `write` or `clear` replaces it, anything
/// else leaves it.
pub open spec fn efi_step(cur: Option<Arg>, t: (Option<Seq<char>>, Seq<char>)) -> Option<Arg> {
    match t.0 {
        Some(k) => {
            if k == "wyrcan.efi"@ || k == "wyr.efi"@ {
                if t.1 == "write"@ {
                    Some(Arg::Write)
                } else if t.1 == "clear"@ {
                    Some(Arg::Clear)
                } else {
                    cur
                }
            } else {
                cur
            }
        },
        None => cur,
    }
}

/// The directive folded over a token stream: the last one wins.
pub open spec fn efi_fold(cur: Option<Arg>, toks: Seq<(Option<Seq<char>>, Seq<char>)>) -> Option<
    Arg,
>
    decreases toks.len(),
{
    if toks.len() == 0 {
        cur
    } else {
        efi_fold(efi_step(cur, toks[0]), toks.drop_first())
    }
}

impl Arg {
    /// Read the last EFI directive from the cmdline tokens, if any.
    pub fn scan(args: &mut Args<'_>) -> (r: Option<Arg>)
        requires
            old(args).wf(),
        ensures
            r == efi_fold(None, tokens(old(args)@)),
    {
        let key_a = "wyrcan.efi".to_owned();
        let key_b = "wyr.efi".to_owned();
        let write_v = "write".to_owned();
        let clear_v = "clear".to_owned();
        let mut cur: Option<Arg> = None;
        loop
            invariant
                args.wf(),
                key_a@ == "wyrcan.efi"@,
                key_b@ == "wyr.efi"@,
                write_v@ == "write"@,
                clear_v@ == "clear"@,
                efi_fold(None, tokens(old(args)@)) == efi_fold(cur, tokens(args@)),
            decreases tokens(args@).len(),
        {
            let ghost toks = tokens(args@);
            match args.next() {
                None => {
                    return cur;
                },
                Some((key, value)) => {
                    proof {
                        assert(efi_fold(cur, toks) == efi_fold(
                            efi_step(cur, toks[0]),
                            tokens(args@),
                        ));
                    }
                    match key {
                        Some(k) => {
                            if k == key_a || k == key_b {
                                if value == write_v {
                                    cur = Some(Arg::Write);
                                } else if value == clear_v {
                                    cur = Some(Arg::Clear);
                                }
                            }
                        },
                        None => {},
                    }
                },
            }
        }
    }
}

/// The `efi` command: act on the scanned directive.
pub struct Efi {}

/// The act an `efi` run performs, once the directive, the presence of
/// an image and the operator's answer are known.
#[derive(Copy, Clone, Debug, PartialEq, Eq, Structural)]
pub enum EfiPlan {
    /// Nothing to do.
    Nothing,
    /// Persist the configuration to NVRAM.
    Save,
    /// Erase the NVRAM record, then restart.
    WipeThenReboot,
    /// Restart without touching NVRAM.
    RebootOnly,
}

/// Decide an `efi` run: a `write` directive saves only when an image
/// is configured and the operator confirmed; a `clear` directive wipes
/// only on confirmation but restarts either way.
pub fn plan_efi(arg: Option<Arg>, have_image: bool, confirmed: bool) -> (r: EfiPlan)
    ensures
        arg is None ==> r == EfiPlan::Nothing,
        arg == Some(Arg::Write) ==> r == (if have_image && confirmed {
            EfiPlan::Save
        } else {
            EfiPlan::Nothing
        }),
        arg == Some(Arg::Clear) ==> r == (if confirmed {
            EfiPlan::WipeThenReboot
        } else {
            EfiPlan::RebootOnly
        }),
{
    match arg {
        None => EfiPlan::Nothing,
        Some(Arg::Write) => {
            if have_image && confirmed {
                EfiPlan::Save
            } else {
                EfiPlan::Nothing
            }
        },
        Some(Arg::Clear) => {
            if confirmed {
                EfiPlan::WipeThenReboot
            } else {
                EfiPlan::RebootOnly
            }
        },
    }
}

} // verus!
