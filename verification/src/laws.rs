//! The store's laws, stated once and proved for every input.
//!
//! `set` extends the store's abstract map by `insert`, `remove` shrinks it
//! by `remove`, and `get` reads it, exactly as their contracts state; the
//! laws here say what any sequence of those calls must therefore observe.
//! The store-shaped laws — that the index always points at the newest
//! `Set` record, that reopening preserves every `get`, and that replay is
//! deterministic — stand on [`crate::store::KvStore`] itself.

use vstd::prelude::*;

use crate::codec::{lemma_parse_encode, spec_encodable, spec_encode, spec_parse, CommandView};

verus! {

/// Setting a key and then getting it yields exactly the value set:
/// `set(k, v); get(k) == Some(v)`.
pub proof fn law_set_then_get(m: Map<Seq<char>, Seq<char>>, k: Seq<char>, v: Seq<char>)
    ensures
        m.insert(k, v).contains_key(k),
        m.insert(k, v)[k] == v,
{
}

/// Setting and then removing a key leaves it absent:
/// `set(k, v); remove(k); get(k) == None`.
pub proof fn law_set_remove_get(m: Map<Seq<char>, Seq<char>>, k: Seq<char>, v: Seq<char>)
    ensures
        !m.insert(k, v).remove(k).contains_key(k),
{
}

/// The newest set of a key wins:
/// `set(k, v1); set(k, v2); get(k) == Some(v2)`.
pub proof fn law_overwrite(
    m: Map<Seq<char>, Seq<char>>,
    k: Seq<char>,
    v1: Seq<char>,
    v2: Seq<char>,
)
    ensures
        m.insert(k, v1).insert(k, v2).contains_key(k),
        m.insert(k, v1).insert(k, v2)[k] == v2,
{
}

/// After a remove of `k` succeeds, `get(k)` stays `None` under writes to
/// other keys, until another `set(k, _)` installs it again.
pub proof fn law_remove_then_get(
    m: Map<Seq<char>, Seq<char>>,
    k: Seq<char>,
    k2: Seq<char>,
    v2: Seq<char>,
)
    ensures
        !m.remove(k).contains_key(k),
        k2 != k ==> !m.remove(k).insert(k2, v2).contains_key(k),
        m.remove(k).insert(k, v2).contains_key(k) && m.remove(k).insert(k, v2)[k] == v2,
{
}

/// Writers of disjoint keys do not disturb each other: whichever order
/// two writes to different keys are serialized in, each key reads back
/// the value its own writer set.
pub proof fn law_disjoint_writes(
    m: Map<Seq<char>, Seq<char>>,
    k1: Seq<char>,
    v1: Seq<char>,
    k2: Seq<char>,
    v2: Seq<char>,
)
    requires
        k1 != k2,
    ensures
        m.insert(k1, v1).insert(k2, v2)[k1] == v1,
        m.insert(k1, v1).insert(k2, v2)[k2] == v2,
        m.insert(k2, v2).insert(k1, v1)[k1] == v1,
        m.insert(k2, v2).insert(k1, v1)[k2] == v2,
{
}

/// Encoding a command and then decoding yields an equal command, and
/// decoding consumes exactly the bytes that encoding produced.
pub proof fn law_codec_round_trip(c: CommandView)
    requires
        spec_encodable(c),
    ensures
        spec_parse(spec_encode(c), 0) == Some((c, spec_encode(c).len() as int)),
{
    assert(spec_encode(c).subrange(0, spec_encode(c).len() as int) =~= spec_encode(c));
    lemma_parse_encode(spec_encode(c), 0, c);
}

} // verus!
