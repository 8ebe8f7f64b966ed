//! Settings of the retrieval trace log: where it is written and whether it
//! is on.

use vstd::prelude::*;
use std::path::PathBuf;
use crate::text::{ascii_lowercase, chars_eq, chars_of, to_ascii_lowercase_vec, trim, trim_vec};

verus! {

/// Where the trace log goes: the directory set last, if any.
pub struct TraceSettings {
    pub dir: Option<PathBuf>,
}

impl TraceSettings {
    /// No directory set yet (the log then goes to the working directory).
    pub fn new() -> (r: Self)
        ensures
            r.dir is None,
    {
        TraceSettings { dir: None }
    }

    /// Sets the trace directory; a later call replaces an earlier one.
    pub fn set_trace_dir(&mut self, dir: PathBuf)
        ensures
            final(self).dir == Some(dir),
    {
        self.dir = Some(dir);
    }
}

/// Values of `SQUIRE_TRACE` that turn tracing on, after trimming and ASCII
/// lowercasing.
pub open spec fn truthy(v: Seq<char>) -> bool {
    let l = ascii_lowercase(trim(v));
    l == "1"@ || l == "true"@ || l == "yes"@ || l == "on"@
}

/// Tracing is on in debug builds, and in release builds when `SQUIRE_TRACE`
/// holds a truthy value.
pub fn trace_enabled(debug_build: bool, squire_trace: Option<String>) -> (r: bool)
    ensures
        r == (debug_build || match squire_trace {
            Some(v) => truthy(v@),
            None => false,
        }),
{
    if debug_build {
        return true;
    }
    match squire_trace {
        Some(v) => {
            let l = to_ascii_lowercase_vec(&trim_vec(&chars_of(v.as_str())));
            chars_eq(&l, &chars_of("1")) || chars_eq(&l, &chars_of("true")) || chars_eq(
                &l,
                &chars_of("yes"),
            ) || chars_eq(&l, &chars_of("on"))
        },
        None => false,
    }
}

} // verus!
