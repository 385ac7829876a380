//! Where an installation lives, found from the manager executable.
use vstd::prelude::*;
use crate::chars::{is_text, opt_string, to_chars};

verus! {

/// The marker file at the root of an installation.
pub const INSTALLATION_FILE: &'static str = "INSTALLATION.toml";

/// What `Path::parent` gives for the path `path`.
pub uninterp spec fn parent_path(path: Seq<char>) -> Option<Seq<char>>;

/// `Path::parent`: the path without its final component, or `None` when it
/// ends in a root or prefix or is empty.
#[verifier::external_body]
fn path_parent(path: &str) -> (r: Option<String>)
    ensures
        opt_string(r) == parent_path(path@),
{
    match std::path::Path::new(path).parent() {
        Some(p) => Some(p.to_string_lossy().into_owned()),
        None => None,
    }
}

/// An installation: its root and its manager executable.
#[derive(Debug, Clone, PartialEq, Eq)]
pub struct InstallRoot {
    pub root: String,
    pub manager: String,
}

/// Why no installation root was found.
#[derive(Debug, PartialEq, Eq, Structural)]
pub enum InstallError {
    /// The manager does not sit three levels below a directory.
    NotBeneathCurrent,
}

impl InstallError {
    /// The message the error is reported with.
    pub fn message(&self) -> (r: &'static str)
        ensures
            r@ == "manager is not stored beneath manager/current"@,
    {
        "manager is not stored beneath manager/current"
    }
}

/// The directory three levels above `manager`, when there is one.
pub open spec fn root_of(manager: Seq<char>) -> Option<Seq<char>> {
    match parent_path(manager) {
        None => None,
        Some(a) => match parent_path(a) {
            None => None,
            Some(b) => parent_path(b),
        },
    }
}

impl InstallRoot {
    /// The installation whose manager is the resolved executable `manager`:
    /// its root is the directory three levels above, the one that holds
    /// `manager/<version>/<executable>`.
    pub fn locate(manager: String) -> (r: Result<InstallRoot, InstallError>)
        ensures
            match r {
                Ok(found) => root_of(manager@) == Some(found.root@) && found.manager == manager,
                Err(e) => e == InstallError::NotBeneathCurrent && root_of(manager@) is None,
            },
    {
        let version = match path_parent(manager.as_str()) {
            Some(p) => p,
            None => {
                return Err(InstallError::NotBeneathCurrent);
            },
        };
        let managers = match path_parent(version.as_str()) {
            Some(p) => p,
            None => {
                return Err(InstallError::NotBeneathCurrent);
            },
        };
        let root = match path_parent(managers.as_str()) {
            Some(p) => p,
            None => {
                return Err(InstallError::NotBeneathCurrent);
            },
        };
        Ok(InstallRoot { root, manager })
    }
}

/// Whether the executable was started under the name `codex`.
pub fn runs_codex(invoked_as: &str) -> (r: bool)
    ensures
        r == (invoked_as@ == "codex"@),
{
    is_text(&to_chars(invoked_as), "codex")
}

/// The refusal the manager answers with when it is not started as `codex`:
/// a bootstrap request cannot be served yet, anything else is pointed to the
/// curl bootstrap.
pub fn bootstrap_refusal(install: bool, uninstall: bool) -> (r: &'static str)
    ensures
        r@ == if install || uninstall {
            "bootstrap implementation is not installed yet"@
        } else {
            "RecentlyDivorced is installed through its curl bootstrap; run codex normally"@
        },
{
    if install || uninstall {
        "bootstrap implementation is not installed yet"
    } else {
        "RecentlyDivorced is installed through its curl bootstrap; run codex normally"
    }
}

} // verus!
