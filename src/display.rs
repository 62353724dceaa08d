//! What the mixer window shows for a channel.
use vstd::prelude::*;

use crate::types::MAX_VOLUME;

verus! {

/// A level as a whole percentage of `MAX_VOLUME`, rounded down.
pub fn volume_percent(volume: u32) -> (r: u32)
    ensures
        r == volume * 100 / (MAX_VOLUME as int),
{
    let wide: u64 = volume as u64 * 100;
    (wide / MAX_VOLUME as u64) as u32
}

/// The text of a mute button: it shows the channel's current state.
pub fn status_label(is_mute: bool) -> (r: &'static str)
    ensures
        is_mute ==> r@ == "Mute"@,
        !is_mute ==> r@ == "Unmute"@,
{
    if is_mute {
        "Mute"
    } else {
        "Unmute"
    }
}

} // verus!
