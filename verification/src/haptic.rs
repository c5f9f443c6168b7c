//! The haptic touchpad.
pub mod device;
