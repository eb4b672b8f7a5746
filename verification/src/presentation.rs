//! View-local map appearance: the default accents and the script-facing
//! door override keyed by a `[hi, lo]` connection id.

use vstd::prelude::*;
use vstd::string::StringExecFns;

verus! {

/// The default accent of a highlighted route.
pub fn default_route_color() -> (r: String)
    ensures
        r@ == "#4da3ff"@,
{
    String::from_str("#4da3ff")
}

/// The default paint of a door glyph.
pub fn default_door_color() -> (r: String)
    ensures
        r@ == "#3f3f46"@,
{
    String::from_str("#3f3f46")
}

/// The 128-bit connection id a `[hi, lo]` pair names: `hi` in the high
/// 64 bits, `lo` in the low 64 bits.
pub open spec fn connection_id_of(hi: u64, lo: u64) -> u128 {
    (hi as int * 0x1_0000_0000_0000_0000 + lo as int) as u128
}

/// A `[hi, lo]` script-facing connection id with a transient door override.
#[derive(Debug, Clone, Copy)]
pub struct ConnectionDoorOverlay {
    pub connection: (u64, u64),
    pub closed: Option<bool>,
    pub locked: Option<bool>,
}

impl ConnectionDoorOverlay {
    /// The connection id, as the 128-bit value of its UUID.
    pub fn connection_id(&self) -> (r: u128)
        ensures
            r == connection_id_of(self.connection.0, self.connection.1),
            r as int == self.connection.0 as int * 0x1_0000_0000_0000_0000 + self.connection.1 as int,
    {
        let hi = self.connection.0 as u128;
        let lo = self.connection.1 as u128;
        assert(hi * 0x1_0000_0000_0000_0000 + lo <= u128::MAX) by (nonlinear_arith)
            requires
                hi <= u64::MAX,
                lo <= u64::MAX,
        ;
        hi * 0x1_0000_0000_0000_0000 + lo
    }
}

} // verus!
