//! Configuration values consumed by the serving core.
use vstd::prelude::*;
use vstd::string::StringExecFns;

verus! {

/// How the process confines itself to the served root before it serves.
#[derive(PartialEq, Eq, Structural, Clone, Copy, Debug)]
pub enum Security {
    Unconfined,
    Chroot,
    Landlock,
}

/// Where the listing template lives, relative to the configuration file.
pub struct TemplateConfig {
    pub index_file: String,
}

/// The serving policy: entry limit (0 for none), root, confinement mode and
/// feature switches.
pub struct ServiceConfig {
    pub limit: u64,
    pub root: String,
    pub security: Security,
    pub template_index: bool,
    pub json_api: bool,
}

/// Default of a switch that is on unless configured otherwise.
pub fn bool_true() -> (r: bool)
    ensures
        r,
{
    true
}

/// Default of a switch that is off unless configured otherwise.
pub fn bool_false() -> (r: bool)
    ensures
        !r,
{
    false
}

/// Default template file name.
pub fn default_index_file() -> (r: String)
    ensures
        r@ == "index.html"@,
{
    String::from_str("index.html")
}

} // verus!
