//! Keyboard events as a key source reports them, and where it reads them.
use vstd::prelude::*;

verus! {

/// One event read from an input device.
#[derive(Debug, Clone)]
pub enum InputEvent {
    KeyPress { code: u16, key: String },
    KeyRelease { code: u16, key: String },
    Unknown { code: u16, value: i32 },
}

/// The input devices a key source reads; none named means its default.
#[derive(Debug, Clone)]
pub struct SourceConfig {
    pub device_paths: Vec<String>,
}

impl Default for SourceConfig {
    fn default() -> (c: Self)
        ensures
            c.device_paths@.len() == 0,
    {
        SourceConfig { device_paths: Vec::new() }
    }
}

} // verus!
