use wyrcan::extract::{Route, route_entry};

#[test]
fn routing_of_entries() {
    assert_eq!(route_entry(&b"boot/vmlinuz-5.10.0".to_vec()), Route::Kernel);
    assert_eq!(route_entry(&b"vmlinuz".to_vec()), Route::Kernel);
    assert_eq!(route_entry(&b"cmdline".to_vec()), Route::Cmdline);
    assert_eq!(route_entry(&b"etc/cmdline".to_vec()), Route::Initrd);
    assert_eq!(route_entry(&b"etc/passwd".to_vec()), Route::Initrd);
    assert_eq!(route_entry(&b"a/.wh.b".to_vec()), Route::Discard);
    assert_eq!(route_entry(&b"a/.wh..wh..opq".to_vec()), Route::Discard);
}
