use yadex::config::{bool_false, bool_true, default_index_file, Security};
use yadex::serve::{App, SandboxStep, YadexError};

#[test]
fn chroot_changes_root_then_directory() {
    let steps = App::confinement(Security::Chroot, "/srv/files");
    assert_eq!(steps.len(), 2);
    assert!(matches!(&steps[0], SandboxStep::ChangeRoot(d) if d == "/srv/files"));
    assert!(matches!(&steps[1], SandboxStep::ChangeDir(d) if d == "/"));
}

#[test]
fn other_modes_change_directory_only() {
    for mode in [Security::Unconfined, Security::Landlock] {
        let steps = App::confinement(mode, "/srv/files");
        assert_eq!(steps.len(), 1);
        assert!(matches!(&steps[0], SandboxStep::ChangeDir(d) if d == "/srv/files"));
    }
}

#[test]
fn zero_limit_means_unbounded() {
    assert_eq!(App::listing_limit(0), usize::MAX);
    assert_eq!(App::listing_limit(25), 25);
}

#[test]
fn failures_map_to_fixed_responses() {
    let nf = YadexError::NotFound { source: std::io::Error::from(std::io::ErrorKind::NotFound) };
    let (status, body) = nf.response();
    assert_eq!(status, 404);
    assert_eq!(body, "404 Not Found");
    let other = YadexError::Whatever { source: None, message: "bind failed".to_string() };
    let (status, body) = other.response();
    assert_eq!(status, 500);
    assert_eq!(body, "Internal Server Error");
}

#[test]
fn config_defaults() {
    assert!(bool_true());
    assert!(!bool_false());
    assert_eq!(default_index_file(), "index.html");
}
