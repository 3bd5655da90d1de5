//! Defaults of the runtime configuration that are not numbers.
use vstd::prelude::*;
use vstd::string::StringExecFns;

verus! {

/// The explanatory `_comment` of a configuration file.
pub const CONFIG_COMMENT: &'static str = "VPS bandwidth observer configuration. nominal_ceiling_bps is REQUIRED and must match your VPS's advertised bandwidth. All other fields have sensible defaults and are optional overrides.";

/// The default `_comment` of a configuration.
pub fn default_comment() -> (c: String)
    ensures
        c@ == CONFIG_COMMENT@,
{
    String::from_str(CONFIG_COMMENT)
}

} // verus!
