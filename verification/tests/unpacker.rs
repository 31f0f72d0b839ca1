use wyrcan::unpacker::Unpacker;

#[test]
fn plain_entries_pass_through() {
    let mut u = Unpacker::new();
    let layer = vec![b"etc/hostname".to_vec(), b"bin/sh".to_vec()];
    let out = u.entries(0, &layer);
    assert_eq!(out, layer);
}

#[test]
fn duplicate_from_deeper_layer_is_withheld() {
    let mut u = Unpacker::new();
    let top = vec![b"etc/hostname".to_vec()];
    let deep = vec![b"etc/hostname".to_vec(), b"etc/hosts".to_vec()];
    assert_eq!(u.entries(0, &top), top);
    assert_eq!(u.entries(1, &deep), vec![b"etc/hosts".to_vec()]);
}

#[test]
fn whiteout_masks_deeper_file() {
    let mut u = Unpacker::new();
    let top = vec![b"/a/.wh.b".to_vec()];
    let deep = vec![b"/a/b".to_vec(), b"/a/c".to_vec()];
    // The marker itself never reaches the output.
    assert!(u.entries(0, &top).is_empty());
    // The masked file is withheld, its sibling survives.
    assert_eq!(u.entries(1, &deep), vec![b"/a/c".to_vec()]);
}

#[test]
fn opaque_masks_deeper_subtree() {
    let mut u = Unpacker::new();
    let top = vec![b"d/.wh..wh..opq".to_vec()];
    let deep = vec![b"d/x".to_vec(), b"d/sub/y".to_vec(), b"e/y".to_vec()];
    assert!(u.entries(0, &top).is_empty());
    assert_eq!(u.entries(1, &deep), vec![b"e/y".to_vec()]);
}

#[test]
fn identical_layers_extract_once() {
    let mut u = Unpacker::new();
    let layer = vec![b"usr/bin/env".to_vec(), b"etc/os-release".to_vec()];
    assert_eq!(u.entries(0, &layer), layer);
    assert!(u.entries(1, &layer).is_empty());
    assert!(u.entries(2, &layer).is_empty());
}

#[test]
fn seen_and_skip_bookkeeping() {
    let mut u = Unpacker::new();
    let p = b"var/log/messages".to_vec();
    assert!(!u.skip(0, &p));
    assert!(u.seen(0, &p));
    // The same path one level deeper was already emitted.
    assert!(u.skip(1, &p));
}
