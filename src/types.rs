//! The records the mixer keeps.
use vstd::prelude::*;

verus! {

/// Largest volume level the mixer hands to the sound server (linear scale).
pub const MAX_VOLUME: u32 = 65536;

/// One playback stream of a client application, as the sound server reports it.
#[derive(Debug)]
pub struct SinkInputData {
    /// Handle assigned by the sound server; unique among live streams.
    pub id: u32,
    /// Name of the application that owns the stream.
    pub name: String,
    /// Linear volume level.
    pub volume: u32,
    pub mute: bool,
}

impl Clone for SinkInputData {
    fn clone(&self) -> (r: Self)
        ensures
            r == *self,
    {
        SinkInputData { id: self.id, name: self.name.clone(), volume: self.volume, mute: self.mute }
    }
}

impl Default for SinkInputData {
    fn default() -> (r: Self)
        ensures
            r.id == 0,
            r.name@ == Seq::<char>::empty(),
            r.volume == 0,
            !r.mute,
    {
        SinkInputData { id: 0, name: String::new(), volume: 0, mute: false }
    }
}

/// Level and mute flag of a main channel (the playback sink or the capture source).
#[derive(Clone, Copy, Debug, PartialEq, Eq, Structural)]
pub struct MainData {
    pub volume: u32,
    pub mute: bool,
}

impl Default for MainData {
    fn default() -> (r: Self)
        ensures
            r.volume == 0,
            !r.mute,
    {
        MainData { volume: 0, mute: false }
    }
}

impl MainData {
    /// Takes over what a fetch of the channel reported; keeps the current
    /// state when the fetch brought nothing.
    pub fn refresh(&mut self, fetched: Option<MainData>)
        ensures
            *final(self) == match fetched {
                Some(m) => m,
                None => *old(self),
            },
    {
        if let Some(m) = fetched {
            *self = m;
        }
    }
}

/// A stream as listed by the text listing of stream states.
#[derive(Debug)]
pub struct Data {
    pub id: usize,
    pub name: String,
    pub volume: usize,
    pub mute: bool,
}

/// A running count.
#[derive(Clone, Copy, Debug, PartialEq, Eq, Structural)]
pub struct Counter {
    pub value: usize,
}

impl Default for Counter {
    fn default() -> (r: Self)
        ensures
            r.value == 0,
    {
        Counter { value: 0 }
    }
}

impl Counter {
    /// Adds one to the count.
    pub fn inc(&mut self)
        requires
            old(self).value < usize::MAX,
        ensures
            final(self).value == old(self).value + 1,
    {
        self.value = self.value + 1;
    }
}

} // verus!
