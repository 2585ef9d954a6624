use meow::threeway::{sidecar_path, three_way, MergeDecision};

#[test]
fn three_way_table_is_exact() {
    let a: u64 = 1;
    let b: u64 = 2;
    let c: u64 = 3;
    // X-X-X: unchanged everywhere
    assert_eq!(three_way(a, a, a), MergeDecision::Discard);
    // X-X-Y: untouched on disk, new content incoming
    assert_eq!(three_way(a, a, b), MergeDecision::Overwrite);
    // X-Y-X: locally edited, incoming equals what was installed
    assert_eq!(three_way(a, b, a), MergeDecision::Discard);
    // X-Y-Y: disk already holds the incoming content
    assert_eq!(three_way(a, b, b), MergeDecision::Discard);
    // X-Y-Z: all three differ
    assert_eq!(three_way(a, b, c), MergeDecision::Sidecar);
}

#[test]
fn three_way_is_a_function_of_the_checksums() {
    assert_eq!(three_way(9, 9, 9), three_way(9, 9, 9));
    assert_eq!(three_way(0, 0, 5), MergeDecision::Overwrite);
    assert_eq!(three_way(0, 7, 7), MergeDecision::Discard);
}

#[test]
fn sidecar_paths_are_numbered_from_the_second_try() {
    assert_eq!(sidecar_path("/etc/app.conf", 1), "/etc/app.conf.pacnew");
    assert_eq!(sidecar_path("/etc/app.conf", 2), "/etc/app.conf.pacnew.2");
    assert_eq!(sidecar_path("/etc/app.conf", 3), "/etc/app.conf.pacnew.3");
}
