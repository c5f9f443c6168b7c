//! The logic of OmniBook RS, the settings application and presence daemon for the HP OmniBook:
//! presence settings and their text form, the daemon's sensor loop and its messages, EDID HDR
//! patching, the haptic touchpad, and the system, battery and sensor pages' readings.

pub mod text;
pub mod edid;
pub mod presence_config;
pub mod presence_choices;
pub mod ipc;
pub mod daemon;
pub mod haptic;
pub mod system_info;
pub mod battery;
pub mod sensors;
pub mod mouse;
pub mod sensor_run;
