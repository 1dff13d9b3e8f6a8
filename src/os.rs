//! Facts about the operating system the agent runs on.

use vstd::prelude::*;

verus! {

/// The operating systems the library is guaranteed to run on.
#[derive(Clone, Copy, Debug, PartialEq, Eq, Hash, Structural)]
pub enum Kind {
    Linux,
    Macos,
    Windows,
}

/// The kind of system a kernel name (as uname gives it) belongs to.
pub open spec fn kind_named(sysname: Seq<char>) -> Option<Kind> {
    if sysname == "Linux"@ {
        Some(Kind::Linux)
    } else if sysname == "Darwin"@ {
        Some(Kind::Macos)
    } else if sysname == "Windows_NT"@ {
        Some(Kind::Windows)
    } else {
        None
    }
}

/// Relies on nix::sys::utsname::uname: the kernel's name and release as the
/// running system reports them, or the error of the call. nix gives a safe
/// binding to the call; libc's own `uname` can only be called from `unsafe`
/// code.
#[verifier::external_body]
fn uname() -> (r: Result<(String, String), std::io::Error>) {
    match nix::sys::utsname::uname() {
        Ok(u) => Ok((u.sysname().to_string_lossy().into_owned(), u.release().to_string_lossy().into_owned())),
        Err(e) => Err(std::io::Error::from(e)),
    }
}

/// The kind of system a kernel name belongs to, `None` for a system this
/// library does not know.
pub fn kind_of(sysname: &str) -> (r: Option<Kind>)
    ensures
        r == kind_named(sysname@),
{
    let name = sysname.to_owned();
    if name == "Linux".to_owned() {
        Some(Kind::Linux)
    } else if name == "Darwin".to_owned() {
        Some(Kind::Macos)
    } else if name == "Windows_NT".to_owned() {
        Some(Kind::Windows)
    } else {
        None
    }
}

/// The kind of the running system; `None` if it cannot be queried or is not
/// one this library knows.
pub fn kind() -> (r: Option<Kind>) {
    match uname() {
        Ok((sysname, _)) => kind_of(sysname.as_str()),
        Err(_) => None,
    }
}

/// The version string of the running system: its kernel release. No format
/// should be assumed of it.
pub fn version() -> (r: Result<String, std::io::Error>) {
    match uname() {
        Ok((_, release)) => Ok(release),
        Err(e) => Err(e),
    }
}

/// The estimated installation time of the system, in seconds since the Unix
/// epoch: the earliest of the timestamps of the files that installation
/// leaves behind (`None` if none could be read). Later updates may touch those
/// files, so the estimate can come out late, never early.
pub fn installed(timestamps: &[u64]) -> (r: Option<u64>)
    ensures
        r is None <==> timestamps@.len() == 0,
        r matches Some(t) ==> timestamps@.contains(t),
        r matches Some(t) ==> forall|i: int| 0 <= i < timestamps@.len() ==> t <= #[trigger] timestamps@[i],
{
    if timestamps.len() == 0 {
        return None;
    }
    let mut best: u64 = timestamps[0];
    let mut at: usize = 0;
    let mut i: usize = 1;
    while i < timestamps.len()
        invariant
            1 <= i <= timestamps@.len(),
            at < i,
            best == timestamps@[at as int],
            forall|j: int| 0 <= j < i ==> best <= #[trigger] timestamps@[j],
        decreases timestamps@.len() - i,
    {
        if timestamps[i] < best {
            best = timestamps[i];
            at = i;
        }
        i = i + 1;
    }
    Some(best)
}

} // verus!
