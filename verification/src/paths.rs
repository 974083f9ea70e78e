//! The verifiable part of output-path validation: a generated
//! configuration file must carry a YAML extension, compared
//! case-insensitively.
use crate::text::{chars_of, ends_with_chars, ends_with_seq, lower_of, to_lower};
use vstd::prelude::*;

verus! {

/// Does the path name a YAML file? True exactly when the lowercased path
/// ends in `.yaml` or `.yml`.
pub fn has_yaml_extension(path: &str) -> (r: bool)
    ensures
        r == (ends_with_seq(lower_of(path@), (".yaml")@) || ends_with_seq(
            lower_of(path@),
            (".yml")@,
        )),
{
    let lowered = to_lower(path);
    let hay = chars_of(lowered.as_str());
    let yaml = chars_of(".yaml");
    let yml = chars_of(".yml");
    ends_with_chars(&hay, &yaml) || ends_with_chars(&hay, &yml)
}

} // verus!
