//! Control-socket locations and the sibling files next to them.
//!
//! Paths are Unix paths held as text. Joining is stated and proved here;
//! taking a parent goes through `std::path::Path::parent`.
use vstd::prelude::*;

use crate::text::{chars_of, string_of, trim, trim_chars};

verus! {

/// Override for the control socket. Empty or unset falls through.
pub const SOCKET_ENV: &'static str = "VISSUE_CONTROL_SOCKET";

/// Override for the serve log. Empty or unset falls through.
pub const SERVE_LOG_ENV: &'static str = "VISSUE_SERVE_LOG";

/// Override for the HUD log. Empty or unset falls through.
pub const HUD_LOG_ENV: &'static str = "VISSUE_HUD_LOG";

/// Override for the HUD summon socket. Empty or unset falls through.
pub const HUD_SOCKET_ENV: &'static str = "VISSUE_HUD_SUMMON_SOCKET";

/// File name of the control socket.
pub const CONTROL_SOCK: &'static str = "control.sock";

/// File name of the detached serve log.
pub const CONTROL_LOG: &'static str = "control.log";

/// File name of the HUD log.
pub const HUD_LOG: &'static str = "hud.log";

/// File name of the HUD summon socket.
pub const HUD_SOCK: &'static str = "hud.sock";

/// `PathBuf::join` on Unix: an absolute `p` replaces `base`; otherwise `p`
/// is appended, with a `/` in between unless `base` is empty or already
/// ends in one.
pub open spec fn path_join(base: Seq<char>, p: Seq<char>) -> Seq<char> {
    if p.len() > 0 && p[0] == '/' {
        p
    } else if base.len() == 0 || base.last() == '/' {
        base + p
    } else {
        base + seq!['/'] + p
    }
}

/// What `std::path::Path::parent` returns for the path spelled `p`.
pub uninterp spec fn path_parent(p: Seq<char>) -> Option<Seq<char>>;

/// `std::path::Path::parent`, on a path given as text. The parent of a
/// UTF-8 path is a prefix of it, so the conversion back to text is exact.
#[verifier::external_body]
fn parent_of(p: &str) -> (r: Option<String>)
    ensures
        match r {
            Some(d) => path_parent(p@) == Some(d@),
            None => path_parent(p@) is None,
        },
{
    std::path::Path::new(p).parent().map(|d| d.to_string_lossy().into_owned())
}

/// `base.join(p)` for Unix paths held as text.
pub fn join(base: &str, p: &str) -> (r: String)
    ensures
        r@ == path_join(base@, p@),
{
    let bs = chars_of(base);
    let ps = chars_of(p);
    if ps.len() > 0 && ps[0] == '/' {
        return string_of(&ps);
    }
    let mut out = string_of(&bs);
    if !(bs.len() == 0 || bs[bs.len() - 1] == '/') {
        out.push('/');
    }
    out.push_str(p);
    out
}

/// A value that is present and not blank, trimmed.
pub open spec fn nonempty_text(v: Option<Seq<char>>) -> Option<Seq<char>> {
    match v {
        Some(s) => if trim(s).len() > 0 {
            Some(trim(s))
        } else {
            None
        },
        None => None,
    }
}

/// `value.map(str::trim).filter(|s| !s.is_empty())`.
pub fn nonempty(value: Option<&str>) -> (r: Option<String>)
    ensures
        match value {
            Some(v) => match r {
                Some(t) => nonempty_text(Some(v@)) == Some(t@),
                None => nonempty_text(Some(v@)) is None,
            },
            None => r is None,
        },
{
    match value {
        Some(v) => {
            let t = trim_chars(&chars_of(v));
            if t.len() > 0 {
                Some(string_of(&t))
            } else {
                None
            }
        },
        None => None,
    }
}

/// The directory that holds `socket`, or `name` alone when it has none.
pub open spec fn beside_text(socket: Seq<char>, name: Seq<char>) -> Seq<char> {
    match path_parent(socket) {
        Some(dir) => if dir.len() > 0 {
            path_join(dir, name)
        } else {
            name
        },
        None => name,
    }
}

/// `name` in the same directory as `socket`.
pub fn beside_socket(socket: &str, name: &str) -> (r: String)
    ensures
        r@ == beside_text(socket@, name@),
{
    match parent_of(socket) {
        Some(dir) => if !dir.as_str().is_empty() {
            join(dir.as_str(), name)
        } else {
            name.to_owned()
        },
        None => name.to_owned(),
    }
}

/// The runtime directory: the socket's parent, or `.` when it has none.
pub open spec fn runtime_text(socket: Seq<char>) -> Seq<char> {
    match path_parent(socket) {
        Some(dir) => if dir.len() > 0 {
            dir
        } else {
            "."@
        },
        None => "."@,
    }
}

/// Per-user runtime directory that holds the control socket `socket`.
pub fn runtime_dir(socket: &str) -> (r: String)
    ensures
        r@ == runtime_text(socket@),
{
    match parent_of(socket) {
        Some(dir) => if !dir.as_str().is_empty() {
            dir
        } else {
            ".".to_owned()
        },
        None => ".".to_owned(),
    }
}

/// `{socket}.lock`, the exclusive flock file.
pub fn socket_lock_path(socket: &str) -> (r: String)
    ensures
        r@ == socket@ + ".lock"@,
{
    let mut out = socket.to_owned();
    out.push_str(".lock");
    out
}

/// `{socket}.pid`, the owner pid file.
pub fn socket_pid_path(socket: &str) -> (r: String)
    ensures
        r@ == socket@ + ".pid"@,
{
    let mut out = socket.to_owned();
    out.push_str(".pid");
    out
}

/// Where the control socket goes: the override, then
/// `$XDG_RUNTIME_DIR/vissue/control.sock`, then `~/.vissue/run/control.sock`,
/// then `control.sock` in the working directory.
pub open spec fn socket_path_text(
    socket: Option<Seq<char>>,
    xdg_runtime: Option<Seq<char>>,
    home: Option<Seq<char>>,
) -> Seq<char> {
    match nonempty_text(socket) {
        Some(p) => p,
        None => match nonempty_text(xdg_runtime) {
            Some(r) => path_join(path_join(r, "vissue"@), CONTROL_SOCK@),
            None => match home {
                Some(h) => path_join(path_join(path_join(h, ".vissue"@), "run"@), CONTROL_SOCK@),
                None => CONTROL_SOCK@,
            },
        },
    }
}

/// Resolve the control socket from the override, the runtime directory and
/// the home directory, each as the environment gave it.
pub fn resolve_socket_path(socket: Option<&str>, xdg_runtime: Option<&str>, home: Option<&str>) -> (r:
    String)
    ensures
        r@ == socket_path_text(
            match socket {
                Some(s) => Some(s@),
                None => None,
            },
            match xdg_runtime {
                Some(s) => Some(s@),
                None => None,
            },
            match home {
                Some(s) => Some(s@),
                None => None,
            },
        ),
{
    if let Some(path) = nonempty(socket) {
        return path;
    }
    if let Some(runtime) = nonempty(xdg_runtime) {
        let dir = join(runtime.as_str(), "vissue");
        return join(dir.as_str(), CONTROL_SOCK);
    }
    match home {
        Some(h) => {
            let a = join(h, ".vissue");
            let b = join(a.as_str(), "run");
            join(b.as_str(), CONTROL_SOCK)
        },
        None => CONTROL_SOCK.to_owned(),
    }
}

/// A file that an override names, or `name` beside the socket.
pub fn resolve_named_path(override_path: Option<&str>, socket: &str, name: &str) -> (r: String)
    ensures
        r@ == match override_path {
            Some(o) => match nonempty_text(Some(o@)) {
                Some(p) => p,
                None => beside_text(socket@, name@),
            },
            None => beside_text(socket@, name@),
        },
{
    match nonempty(override_path) {
        Some(path) => path,
        None => beside_socket(socket, name),
    }
}

} // verus!
