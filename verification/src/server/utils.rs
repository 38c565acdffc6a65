//! Small helpers: wall-clock stamps and per-client display colors.

use crate::clock::{is_wall_millis, unix_time_millis};
use vstd::prelude::*;

verus! {

/// A millisecond count truncated to 64 bits, as a wall-clock stamp is sent.
pub fn truncate_millis(ms: u128) -> (r: u64)
    ensures
        r == ms % 0x1_0000_0000_0000_0000,
{
    assert(ms as u64 == ms % 0x1_0000_0000_0000_0000) by (bit_vector);
    ms as u64
}

/// `stamp` is a wall-clock stamp: what the wall clock gave in milliseconds
/// since the Unix epoch, truncated to 64 bits. The definition stays inside
/// this module, so elsewhere a value is known to be one only when
/// `get_timestamp` returned it.
pub closed spec fn is_wall_stamp(stamp: u64) -> bool {
    exists|ms: u128| is_wall_millis(ms) && stamp == ms % 0x1_0000_0000_0000_0000
}

/// Milliseconds since the Unix epoch on the wall clock (0 when the clock
/// reads before the epoch), truncated to 64 bits.
pub fn get_timestamp() -> (r: u64)
    ensures
        is_wall_stamp(r),
{
    let ms = unix_time_millis();
    let r = truncate_millis(ms);
    assert(is_wall_millis(ms) && r == ms % 0x1_0000_0000_0000_0000);
    r
}

/// The palette of client display colors.
pub open spec fn palette() -> Seq<Seq<char>> {
    seq!["blue"@, "red"@, "green"@, "purple"@, "orange"@, "cyan"@, "magenta"@, "yellow"@]
}

/// The display color of client `client_id` (ids start at 1): the palette
/// cycled from client 1.
pub fn generate_color(client_id: u32) -> (r: String)
    requires
        client_id >= 1,
    ensures
        r@ == palette()[((client_id - 1) % 8) as int],
{
    let colors: [&str; 8] = ["blue", "red", "green", "purple", "orange", "cyan", "magenta", "yellow"];
    let k = ((client_id - 1) as usize) % colors.len();
    proof {
        assert(colors@.map_values(|s: &str| s@) == palette());
    }
    colors[k].to_string()
}

} // verus!
