use wyrcan::boot::{BootPlan, answer_is_yes, plan_boot, quote_join};
use wyrcan::config::Config;

#[test]
fn quote_join_wraps_each_argument() {
    let args = vec!["quiet".to_string(), "log-buf-len=1M".to_string()];
    assert_eq!(quote_join(&args), Some("\"quiet\" \"log-buf-len=1M\"".to_string()));
    assert_eq!(quote_join(&vec!["ro".to_string()]), Some("\"ro\"".to_string()));
    assert_eq!(quote_join(&Vec::new()), None);
}

#[test]
fn boot_without_image_shows_help() {
    let cfg = Config::default();
    assert!(matches!(plan_boot(cfg, false, 5), BootPlan::ShowHelp));
}

#[test]
fn boot_with_image_launches_kexec() {
    let mut cfg = Config::default();
    cfg.image = Some("registry.example/os:latest".to_string());
    cfg.cmdline = vec!["quiet".to_string(), "ro".to_string()];
    match plan_boot(cfg, true, 3) {
        BootPlan::Launch(k) => {
            assert!(k.quiet);
            assert_eq!(k.tries, 3);
            assert_eq!(k.image, "registry.example/os:latest");
            assert_eq!(k.cmdline, Some("\"quiet\" \"ro\"".to_string()));
        },
        BootPlan::ShowHelp => panic!("an image was configured"),
    }
}

#[test]
fn boot_with_image_and_no_arguments() {
    let mut cfg = Config::default();
    cfg.image = Some("r/d:1".to_string());
    match plan_boot(cfg, false, 5) {
        BootPlan::Launch(k) => assert_eq!(k.cmdline, None),
        BootPlan::ShowHelp => panic!("an image was configured"),
    }
}

#[test]
fn confirmation_needs_a_literal_yes() {
    assert!(answer_is_yes(&"yes".to_string()));
    assert!(answer_is_yes(&"  yes \n".to_string()));
    assert!(!answer_is_yes(&"no".to_string()));
    assert!(!answer_is_yes(&"YES".to_string()));
    assert!(!answer_is_yes(&"yes please".to_string()));
    assert!(!answer_is_yes(&"".to_string()));
}
