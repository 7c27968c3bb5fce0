//! Serving decisions: how the process confines itself before it serves,
//! the bound on each listing, and the response that each failure gets.
use vstd::prelude::*;
use crate::config::Security;
use crate::text::chars_of;

verus! {

#[verifier::external_type_specification]
#[verifier::external_body]
pub struct ExIoError(std::io::Error);

#[verifier::external_type_specification]
#[verifier::external_body]
pub struct ExReport(color_eyre::Report);

#[verifier::external_type_specification]
#[verifier::external_body]
pub struct ExRenderError(handlebars::RenderError);

/// One step of confining the process to the served root.
pub enum SandboxStep {
    /// Make this directory the process's filesystem root.
    ChangeRoot(String),
    /// Make this directory the working directory.
    ChangeDir(String),
}

/// The serving entry point and its startup decisions.
pub struct App {}

/// The steps that confine the process to `root` under `security`.
pub open spec fn confinement_plan(security: Security, root: Seq<char>) -> Seq<(bool, Seq<char>)> {
    if security == Security::Chroot {
        seq![(true, root), (false, seq!['/'])]
    } else {
        seq![(false, root)]
    }
}

/// A step as a pair: whether it changes the root, and its directory.
pub open spec fn step_view(s: SandboxStep) -> (bool, Seq<char>) {
    match s {
        SandboxStep::ChangeRoot(d) => (true, d@),
        SandboxStep::ChangeDir(d) => (false, d@),
    }
}

impl App {
    /// The steps, in order, that confine the process to `root` before it
    /// serves: under chroot, change the root to it and then the working
    /// directory to `/`; otherwise change the working directory to it (a
    /// Landlock policy, set up beforehand, restricts access on its own).
    pub fn confinement(security: Security, root: &str) -> (r: Vec<SandboxStep>)
        ensures
            r@.len() == confinement_plan(security, root@).len(),
            forall|i: int|
                0 <= i < r@.len() ==> step_view(#[trigger] r@[i]) == confinement_plan(
                    security,
                    root@,
                )[i],
    {
        let mut r: Vec<SandboxStep> = Vec::new();
        let dir = crate::text::string_of(&chars_of(root));
        if security == Security::Chroot {
            r.push(SandboxStep::ChangeRoot(dir));
            let slash = "/";
            proof {
                reveal_strlit("/");
            }
            let s = slash.to_owned();
            assert(s@ =~= seq!['/']);
            r.push(SandboxStep::ChangeDir(s));
        } else {
            r.push(SandboxStep::ChangeDir(dir));
        }
        r
    }

    /// The number of entries a listing may hold: `limit`, where 0 means no
    /// bound.
    pub fn listing_limit(limit: u64) -> (r: usize)
        ensures
            limit == 0 ==> r == usize::MAX,
            0 < limit <= usize::MAX ==> r == limit,
            limit > usize::MAX ==> r == usize::MAX,
    {
        if limit == 0 || limit as u128 > usize::MAX as u128 {
            usize::MAX
        } else {
            limit as usize
        }
    }
}

/// A failure while serving a request or starting up.
pub enum YadexError {
    /// The path does not decode, or names no readable directory.
    NotFound { source: std::io::Error },
    /// A startup or serving failure.
    Whatever { source: Option<color_eyre::Report>, message: String },
    /// The listing template failed to render.
    Render { source: handlebars::RenderError, template: &'static str },
}

/// The body of a not-found response.
pub open spec fn not_found_body() -> Seq<char> {
    seq!['4', '0', '4', ' ', 'N', 'o', 't', ' ', 'F', 'o', 'u', 'n', 'd']
}

/// The body of an internal-error response.
pub open spec fn internal_error_body() -> Seq<char> {
    seq![
        'I', 'n', 't', 'e', 'r', 'n', 'a', 'l', ' ', 'S', 'e', 'r', 'v', 'e', 'r', ' ', 'E', 'r',
        'r', 'o', 'r',
    ]
}

impl YadexError {
    /// The HTTP status and fixed body sent for this failure: 404 for a
    /// missing resource, 500 for anything else; the cause is never sent.
    pub fn response(&self) -> (r: (u16, String))
        ensures
            self is NotFound ==> r.0 == 404 && r.1@ == not_found_body(),
            !(self is NotFound) ==> r.0 == 500 && r.1@ == internal_error_body(),
    {
        match self {
            YadexError::NotFound { .. } => {
                let b = "404 Not Found";
                proof {
                    reveal_strlit("404 Not Found");
                }
                let s = b.to_owned();
                assert(s@ =~= not_found_body());
                (404, s)
            },
            _ => {
                let b = "Internal Server Error";
                proof {
                    reveal_strlit("Internal Server Error");
                }
                let s = b.to_owned();
                assert(s@ =~= internal_error_body());
                (500, s)
            },
        }
    }
}

} // verus!
