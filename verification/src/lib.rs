//! Verified core of the VRChat-contacts-to-PiShock bridge.
pub mod text;
pub mod json;
pub mod osc;
pub mod share;
pub mod pishock;
pub mod state;
pub mod theme;
pub mod properties;
