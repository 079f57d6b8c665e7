//! The names that the kinds of events are written under.
use vstd::prelude::*;

verus! {

pub const SNAPSHOT: &'static str = "snapshot";

pub const DELTA: &'static str = "delta";

pub const TRADE: &'static str = "trade";

pub const CHECKSUM: &'static str = "checksum";

pub const HEARTBEAT: &'static str = "heartbeat";

/// No two kinds have one name.
pub proof fn law_kind_names_are_distinct()
    ensures
        SNAPSHOT@ != DELTA@,
        SNAPSHOT@ != TRADE@,
        SNAPSHOT@ != CHECKSUM@,
        SNAPSHOT@ != HEARTBEAT@,
        DELTA@ != TRADE@,
        DELTA@ != CHECKSUM@,
        DELTA@ != HEARTBEAT@,
        TRADE@ != CHECKSUM@,
        TRADE@ != HEARTBEAT@,
        CHECKSUM@ != HEARTBEAT@,
{
    reveal_strlit("snapshot");
    reveal_strlit("delta");
    reveal_strlit("trade");
    reveal_strlit("checksum");
    reveal_strlit("heartbeat");
    assert(SNAPSHOT@[0] == 's');
    assert(CHECKSUM@[0] == 'c');
    assert(DELTA@[0] == 'd');
    assert(TRADE@[0] == 't');
    assert(HEARTBEAT@[0] == 'h');
}

} // verus!
