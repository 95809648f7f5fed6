use obamify::naming::{next_version_name, version_suffix};

#[test]
fn plain_name_gets_v2() {
    assert_eq!(next_version_name("Obama"), "Obama v2");
    assert_eq!(next_version_name(""), " v2");
}

#[test]
fn version_counts_up() {
    assert_eq!(next_version_name("Obama v2"), "Obama v3");
    assert_eq!(next_version_name("Obama v9"), "Obama v10");
    assert_eq!(next_version_name(&next_version_name("Obama")), "Obama v3");
}

#[test]
fn version_parses_like_u32() {
    assert_eq!(next_version_name("a v+5"), "a v6");
    assert_eq!(next_version_name("a v007"), "a v8");
    assert_eq!(next_version_name("a v0"), "a v1");
    assert_eq!(next_version_name("a v-1"), "a v-1 v2");
    assert_eq!(next_version_name("a v"), "a v v2");
    assert_eq!(next_version_name("a v+"), "a v+ v2");
    assert_eq!(next_version_name("a v 3"), "a v 3 v2");
    assert_eq!(next_version_name("a v4294967296"), "a v4294967296 v2");
    assert_eq!(next_version_name("a v4294967294"), "a v4294967295");
}

#[test]
fn only_the_last_marker_counts() {
    assert_eq!(next_version_name("a v1 b"), "a v1 b v2");
    assert_eq!(next_version_name("a v1 v7"), "a v1 v8");
    assert_eq!(next_version_name("av3"), "av3 v2");
}

#[test]
fn non_ascii_names() {
    assert_eq!(next_version_name("Café v3"), "Café v4");
    assert_eq!(next_version_name("日本 v"), "日本 v v2");
}

#[test]
fn version_suffix_reports_version() {
    assert_eq!(version_suffix("x v12"), Some(12));
    assert_eq!(version_suffix("x"), None);
    assert_eq!(version_suffix("x v4294967295"), Some(u32::MAX));
    assert_eq!(version_suffix("x v1a"), None);
}
