use mouse_testing::export::{dir, path_for, stamp};

#[test]
fn an_export_goes_in_the_folder_in_home() {
    assert_eq!(
        path_for("/home/me", '/', "session", "1700000000", "csv"),
        "/home/me/mouse-testing-exports/session-1700000000.csv"
    );
    assert_eq!(
        path_for(r"C:\Users\me", '\\', "ab", &stamp(42), "csv"),
        r"C:\Users\me\mouse-testing-exports\ab-42.csv"
    );
    assert_eq!(dir("/home/me/", '/'), "/home/me/mouse-testing-exports");
    assert_eq!(dir(".", '/'), "./mouse-testing-exports");
}

#[test]
fn different_stamps_never_share_a_path() {
    assert_ne!(path_for("/h", '/', "session", "1", "csv"), path_for("/h", '/', "session", "2", "csv"));
}

#[test]
fn the_join_matches_the_platform_path_join() {
    let p = std::path::PathBuf::from("/home/me").join("mouse-testing-exports").join("session-7.csv");
    assert_eq!(path_for("/home/me", std::path::MAIN_SEPARATOR, "session", "7", "csv"), p.to_string_lossy());
}
