use wyrcan::cmdline::CmdLine;
use wyrcan::efi::{Arg, EfiPlan, Store, frame, plan_efi, unframe, unlock_flags};

#[test]
fn store_round_trip() {
    let payload = b"{\"image\":\"r/d:1\"}".to_vec();
    let on_disk = frame(&payload);
    assert_eq!(on_disk.len(), payload.len() + 4);
    assert_eq!(&on_disk[..4], &[7u8, 0, 0, 0]);
    assert_eq!(unframe(&on_disk), payload);
}

#[test]
fn frame_of_empty_payload() {
    let on_disk = frame(&Vec::new());
    assert_eq!(on_disk, vec![7u8, 0, 0, 0]);
    assert!(unframe(&on_disk).is_empty());
}

#[test]
fn unlock_clears_only_the_immutable_bit() {
    assert_eq!(unlock_flags(0x10), 0);
    assert_eq!(unlock_flags(0x14), 0x04);
    assert_eq!(unlock_flags(0x00), 0);
    assert_eq!(unlock_flags(-1), !0x10);
}

#[test]
fn store_path_layout() {
    let store = Store::new("6987e713-a5ff-4ec2-ad55-c1fca471ed2d".to_string());
    assert_eq!(
        store.path("Wyrcan"),
        "/sys/firmware/efi/efivars/Wyrcan-6987e713-a5ff-4ec2-ad55-c1fca471ed2d"
    );
}

#[test]
fn efi_directive_last_wins() {
    let cmdline = CmdLine::new("wyr.efi=clear wyrcan.efi=write".to_string()).unwrap();
    let mut args = cmdline.args();
    assert_eq!(Arg::scan(&mut args), Some(Arg::Write));

    let cmdline = CmdLine::new("wyr.efi=write wyr.efi=clear".to_string()).unwrap();
    let mut args = cmdline.args();
    assert_eq!(Arg::scan(&mut args), Some(Arg::Clear));

    let cmdline = CmdLine::new("wyr.efi=bogus quiet".to_string()).unwrap();
    let mut args = cmdline.args();
    assert_eq!(Arg::scan(&mut args), None);
}

#[test]
fn efi_plans() {
    assert_eq!(plan_efi(None, true, true), EfiPlan::Nothing);
    assert_eq!(plan_efi(Some(Arg::Write), true, true), EfiPlan::Save);
    assert_eq!(plan_efi(Some(Arg::Write), false, true), EfiPlan::Nothing);
    assert_eq!(plan_efi(Some(Arg::Write), true, false), EfiPlan::Nothing);
    assert_eq!(plan_efi(Some(Arg::Clear), false, true), EfiPlan::WipeThenReboot);
    assert_eq!(plan_efi(Some(Arg::Clear), false, false), EfiPlan::RebootOnly);
}
