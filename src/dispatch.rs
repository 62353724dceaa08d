//! User intents and the server calls they turn into.
use vstd::prelude::*;

use crate::types::{SinkInputData, MAX_VOLUME};

verus! {

/// A user intent coming from the mixer window.
#[derive(Clone, Copy, Debug, PartialEq, Eq, Structural)]
pub enum Message {
    /// The slider of the stream row at `index`, showing stream `id`, moved to a level.
    SliderChanged(usize, u32, u32),
    /// The mute button of stream `id` was pressed; carries the stream's current mute flag.
    MuteButtonPressed(u32, bool),
    /// The playback sink's slider moved to a level.
    SinkSliderChanged(u32),
    /// The playback sink's mute button was pressed; carries its current mute flag.
    SinkMuteButtonPressed(bool),
    /// The capture source's slider moved to a level.
    SourceSliderChanged(u32),
    /// The capture source's mute button was pressed; carries its current mute flag.
    SourceMuteButtonPressed(bool),
}

/// One call to make on the sound server.
#[derive(Clone, Copy, Debug, PartialEq, Eq, Structural)]
pub enum Command {
    SetSinkInputVolume { id: u32, volume: u32 },
    SetSinkInputMute { id: u32, mute: bool },
    SetSinkVolume(u32),
    SetSinkMute(bool),
    SetSourceVolume(u32),
    SetSourceMute(bool),
}

/// `level` brought into the range the sound server accepts.
pub open spec fn clamped(level: int) -> int {
    if level > MAX_VOLUME as int {
        MAX_VOLUME as int
    } else {
        level
    }
}

/// Clamps a requested level to at most `MAX_VOLUME`.
pub fn clamp_volume(level: u32) -> (r: u32)
    ensures
        r == clamped(level as int),
        r <= MAX_VOLUME,
{
    if level > MAX_VOLUME {
        MAX_VOLUME
    } else {
        level
    }
}

/// The server call a message asks for.
pub open spec fn command_for(message: Message) -> Command {
    match message {
        Message::SliderChanged(_, id, level) => Command::SetSinkInputVolume {
            id,
            volume: clamped(level as int) as u32,
        },
        Message::MuteButtonPressed(id, muted) => Command::SetSinkInputMute { id, mute: !muted },
        Message::SinkSliderChanged(level) => Command::SetSinkVolume(clamped(level as int) as u32),
        Message::SinkMuteButtonPressed(muted) => Command::SetSinkMute(!muted),
        Message::SourceSliderChanged(level) => Command::SetSourceVolume(clamped(level as int) as u32),
        Message::SourceMuteButtonPressed(muted) => Command::SetSourceMute(!muted),
    }
}

/// The stream records after the optimistic update a message makes: a moved
/// stream slider sets the clamped level on the record at its row, when that
/// row still shows the same stream; nothing else changes the records.
pub open spec fn records_after(records: Seq<SinkInputData>, message: Message) -> Seq<SinkInputData> {
    match message {
        Message::SliderChanged(index, id, level) => if index < records.len() && records[index as int].id
            == id {
            records.update(
                index as int,
                SinkInputData { volume: clamped(level as int) as u32, ..records[index as int] },
            )
        } else {
            records
        },
        _ => records,
    }
}

/// Turns a user intent into the one server call it asks for, and updates the
/// shown level of a stream at once so its slider does not snap back before the
/// next refresh.
pub fn dispatch(sink_inputs: &mut Vec<SinkInputData>, message: Message) -> (r: Command)
    ensures
        r == command_for(message),
        final(sink_inputs)@ == records_after(old(sink_inputs)@, message),
{
    match message {
        Message::SliderChanged(index, id, level) => {
            let volume = clamp_volume(level);
            if index < sink_inputs.len() && sink_inputs[index].id == id {
                let mut r = sink_inputs[index].clone();
                r.volume = volume;
                sink_inputs.set(index, r);
            }
            Command::SetSinkInputVolume { id, volume }
        },
        Message::MuteButtonPressed(id, muted) => Command::SetSinkInputMute { id, mute: !muted },
        Message::SinkSliderChanged(level) => Command::SetSinkVolume(clamp_volume(level)),
        Message::SinkMuteButtonPressed(muted) => Command::SetSinkMute(!muted),
        Message::SourceSliderChanged(level) => Command::SetSourceVolume(clamp_volume(level)),
        Message::SourceMuteButtonPressed(muted) => Command::SetSourceMute(!muted),
    }
}

/// Every level that a command carries lies in `[0, MAX_VOLUME]`.
pub open spec fn command_in_range(c: Command) -> bool {
    match c {
        Command::SetSinkInputVolume { volume, .. } => volume <= MAX_VOLUME,
        Command::SetSinkVolume(v) => v <= MAX_VOLUME,
        Command::SetSourceVolume(v) => v <= MAX_VOLUME,
        _ => true,
    }
}

/// Whatever level a message asks for, the command sent to the server carries a
/// level in `[0, MAX_VOLUME]`: larger levels are clamped to `MAX_VOLUME`, and
/// levels in range are passed on unchanged.
pub proof fn lemma_command_levels_bounded(message: Message)
    ensures
        command_in_range(command_for(message)),
        match message {
            Message::SliderChanged(_, _, v) => v <= MAX_VOLUME ==> command_for(message)
                == Command::SetSinkInputVolume { id: message->SliderChanged_1, volume: v },
            Message::SinkSliderChanged(v) => v <= MAX_VOLUME ==> command_for(message)
                == Command::SetSinkVolume(v),
            Message::SourceSliderChanged(v) => v <= MAX_VOLUME ==> command_for(message)
                == Command::SetSourceVolume(v),
            _ => true,
        },
{
}

/// The volume request of the stream `id`: `None` when `id` is no valid stream
/// handle (it exceeds `u32::MAX`), else a command carrying the clamped level.
pub fn call(id: usize, value: usize) -> (r: Option<Command>)
    ensures
        r == if id <= u32::MAX {
            Some(Command::SetSinkInputVolume { id: id as u32, volume: clamped(value as int) as u32 })
        } else {
            None::<Command>
        },
{
    if id > u32::MAX as usize {
        return None;
    }
    let volume: u32 = if value > MAX_VOLUME as usize {
        MAX_VOLUME
    } else {
        value as u32
    };
    Some(Command::SetSinkInputVolume { id: id as u32, volume })
}

} // verus!
