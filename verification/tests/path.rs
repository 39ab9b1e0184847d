use vissue::path::{
    beside_socket, join, resolve_named_path, resolve_socket_path, runtime_dir, socket_lock_path,
    socket_pid_path, CONTROL_LOG, HUD_LOG, HUD_SOCK,
};

#[test]
fn env_override_wins() {
    let path = resolve_socket_path(
        Some("/tmp/custom.sock"),
        Some("/run/user/1000"),
        Some("/home/me"),
    );
    assert_eq!(path, "/tmp/custom.sock");
}

#[test]
fn empty_env_falls_through_to_xdg() {
    let path = resolve_socket_path(Some(""), Some("/run/user/1000"), Some("/home/me"));
    assert_eq!(path, "/run/user/1000/vissue/control.sock");
}

#[test]
fn whitespace_env_falls_through_to_xdg() {
    let path = resolve_socket_path(Some("   "), Some("/run/user/1000"), Some("/home/me"));
    assert_eq!(path, "/run/user/1000/vissue/control.sock");
}

#[test]
fn empty_xdg_falls_through_to_home() {
    let path = resolve_socket_path(None, Some(""), Some("/home/me"));
    assert_eq!(path, "/home/me/.vissue/run/control.sock");
}

#[test]
fn missing_home_uses_cwd_name() {
    let path = resolve_socket_path(None, None, None);
    assert_eq!(path, "control.sock");
}

#[test]
fn logs_and_hud_socket_sit_beside_the_socket() {
    let socket = "/run/user/1000/vissue/control.sock";
    assert_eq!(beside_socket(socket, CONTROL_LOG), "/run/user/1000/vissue/control.log");
    assert_eq!(beside_socket(socket, HUD_LOG), "/run/user/1000/vissue/hud.log");
    assert_eq!(beside_socket(socket, HUD_SOCK), "/run/user/1000/vissue/hud.sock");
    assert_eq!(socket_lock_path(socket), "/run/user/1000/vissue/control.sock.lock");
    assert_eq!(socket_pid_path(socket), "/run/user/1000/vissue/control.sock.pid");
}

#[test]
fn named_path_override_wins() {
    let socket = "/run/user/1000/vissue/control.sock";
    assert_eq!(
        resolve_named_path(Some("/tmp/serve.log"), socket, CONTROL_LOG),
        "/tmp/serve.log"
    );
    assert_eq!(
        resolve_named_path(Some(""), socket, CONTROL_LOG),
        "/run/user/1000/vissue/control.log"
    );
}

#[test]
fn beside_socket_on_bare_name_uses_cwd() {
    assert_eq!(beside_socket("control.sock", "control.log"), "control.log");
}

#[test]
fn runtime_dir_is_the_socket_directory() {
    assert_eq!(runtime_dir("/run/user/1000/vissue/control.sock"), "/run/user/1000/vissue");
    assert_eq!(runtime_dir("control.sock"), ".");
    assert_eq!(runtime_dir("/"), ".");
}

#[test]
fn join_follows_pathbuf() {
    assert_eq!(join("/a", "b"), "/a/b");
    assert_eq!(join("/a/", "b"), "/a/b");
    assert_eq!(join("", "b"), "b");
    assert_eq!(join("/a", "/b"), "/b");
    for (base, p) in [("/a", "b"), ("a/", "b/c"), ("", "x"), ("/a", "/b")] {
        let expected = std::path::Path::new(base).join(p);
        assert_eq!(join(base, p), expected.to_str().unwrap());
    }
}

#[test]
fn a_trimmed_override_is_used_as_given() {
    assert_eq!(
        resolve_named_path(Some("  /tmp/x.log "), "/s/control.sock", HUD_LOG),
        "/tmp/x.log"
    );
}
