//! The engine chosen for a store directory.
//!
//! A directory is tagged with the name of the engine that last opened it,
//! in the marker file `kvs.engine`; starting with a different engine must
//! be refused.  This module parses and renders those names and decides
//! whether a marker permits a start.

use vstd::prelude::*;
use vstd::string::StrSliceExecFns;

verus! {

/// The storage engine behind the server: this crate's own log-structured
/// store, or the sled embedded database.
#[derive(Debug, Clone, Copy, PartialEq, Eq, Structural)]
pub enum EngineName {
    /// The log-structured engine of this crate.
    Kvs,
    /// The sled embedded database.
    Sled,
}

/// The failure of parsing an engine name: carries the string that named no
/// engine.
#[derive(Debug, Clone)]
pub struct ParseEngineNameError(pub String);

/// Whether the string reads exactly `kvs`.
fn is_kvs(s: &str) -> (r: bool)
    ensures
        r == (s@ == "kvs"@),
{
    proof {
        reveal_strlit("kvs");
    }
    let n = s.unicode_len();
    if n != 3 {
        return false;
    }
    let r = s.get_char(0) == 'k' && s.get_char(1) == 'v' && s.get_char(2) == 's';
    proof {
        if r {
            assert(s@ =~= "kvs"@);
        }
    }
    r
}

/// Whether the string reads exactly `sled`.
fn is_sled(s: &str) -> (r: bool)
    ensures
        r == (s@ == "sled"@),
{
    proof {
        reveal_strlit("sled");
    }
    let n = s.unicode_len();
    if n != 4 {
        return false;
    }
    let r = s.get_char(0) == 's' && s.get_char(1) == 'l' && s.get_char(2) == 'e' && s.get_char(3)
        == 'd';
    proof {
        if r {
            assert(s@ =~= "sled"@);
        }
    }
    r
}

proof fn lemma_engine_names_distinct()
    ensures
        "kvs"@ != "sled"@,
{
    reveal_strlit("kvs");
    reveal_strlit("sled");
    assert(("kvs"@).len() == 3);
    assert(("sled"@).len() == 4);
}

impl EngineName {
    /// The name as it is written on the command line and in the marker
    /// file.
    pub open spec fn spec_name(self) -> Seq<char> {
        match self {
            EngineName::Kvs => "kvs"@,
            EngineName::Sled => "sled"@,
        }
    }

    /// Render the name.
    pub fn name(&self) -> (r: &'static str)
        ensures
            r@ == self.spec_name(),
    {
        match self {
            EngineName::Kvs => "kvs",
            EngineName::Sled => "sled",
        }
    }

    /// Parse an engine name: exactly `kvs` or `sled`; anything else is
    /// refused, and the failure carries the offending string.
    pub fn from_str(input: &str) -> (r: Result<EngineName, ParseEngineNameError>)
        ensures
            input@ == "kvs"@ ==> (r matches Ok(e) && e == EngineName::Kvs),
            input@ == "sled"@ ==> (r matches Ok(e) && e == EngineName::Sled),
            input@ != "kvs"@ && input@ != "sled"@ ==> (r matches Err(p) && p.0@ == input@),
            r matches Ok(e) ==> input@ == e.spec_name(),
    {
        proof {
            lemma_engine_names_distinct();
        }
        if is_kvs(input) {
            Ok(EngineName::Kvs)
        } else if is_sled(input) {
            Ok(EngineName::Sled)
        } else {
            Err(ParseEngineNameError(input.to_owned()))
        }
    }
}

/// Whether the engine marker read from a directory permits starting with
/// the chosen engine: it must name exactly that engine.
pub fn marker_allows(marker: &str, chosen: EngineName) -> (r: bool)
    ensures
        r == (marker@ == chosen.spec_name()),
{
    match chosen {
        EngineName::Kvs => is_kvs(marker),
        EngineName::Sled => is_sled(marker),
    }
}

} // verus!
