use wyrcan::kexec::{
    RetryStep, artifact_paths, errno_of_return, kexec_ready, merge_cmdline, retry_after,
};

#[test]
fn eperm_surfaces_as_error_one() {
    // A raw return of -EPERM lands in the error window and decodes to 1.
    assert_eq!(errno_of_return(usize::MAX), Some(1));
}

#[test]
fn error_window_boundaries() {
    assert_eq!(errno_of_return(0), None);
    assert_eq!(errno_of_return(usize::MAX - 4096), None);
    assert_eq!(errno_of_return(usize::MAX - 4095), Some(4096));
    assert_eq!(errno_of_return(usize::MAX - 4094), Some(4095));
    assert_eq!(errno_of_return(usize::MAX - 1), Some(2));
}

#[test]
fn retry_sleeps_double() {
    assert!(matches!(retry_after(0, 5), RetryStep::Retry { sleep_secs: 1 }));
    assert!(matches!(retry_after(1, 5), RetryStep::Retry { sleep_secs: 2 }));
    assert!(matches!(retry_after(2, 5), RetryStep::Retry { sleep_secs: 4 }));
    assert!(matches!(retry_after(3, 5), RetryStep::Retry { sleep_secs: 8 }));
    assert!(matches!(retry_after(4, 5), RetryStep::Retry { sleep_secs: 16 }));
}

#[test]
fn retry_gives_up_past_the_ceiling() {
    assert!(matches!(retry_after(5, 5), RetryStep::GiveUp));
    assert!(matches!(retry_after(9, 5), RetryStep::GiveUp));
    assert!(matches!(retry_after(0, 0), RetryStep::GiveUp));
}

#[test]
fn readiness_needs_the_exact_contents() {
    assert!(kexec_ready(b"1\n"));
    assert!(!kexec_ready(b"0\n"));
    assert!(!kexec_ready(b"1"));
    assert!(!kexec_ready(b"1\n\n"));
}

#[test]
fn cmdline_merge_trims_and_joins() {
    let extra = b"  console=ttyS0\n".to_vec();
    let arg = Some(b"quiet ro".to_vec());
    assert_eq!(merge_cmdline(&extra, &arg), b"console=ttyS0 quiet ro".to_vec());
}

#[test]
fn cmdline_merge_without_arguments() {
    let extra = b"\tconsole=ttyS0 \n".to_vec();
    assert_eq!(merge_cmdline(&extra, &None), b"console=ttyS0".to_vec());
    let empty = Vec::new();
    assert_eq!(merge_cmdline(&empty, &None), Vec::<u8>::new());
}

#[test]
fn artifact_paths_carry_the_pid() {
    let (kernel, initrd) = artifact_paths(1234);
    assert_eq!(kernel, b"/tmp/wyrcan.1234.kernel".to_vec());
    assert_eq!(initrd, b"/tmp/wyrcan.1234.initrd".to_vec());
}
