//! Verified core of an ambilight driver for the Robobloq Quiklight USB LED strip:
//! the device's HID wire protocol, the edge sampling of a captured screen image,
//! and the small parsers and selectors the command line relies on.

pub mod protocol;
pub mod config;
pub mod capture;
pub mod cli;
pub mod device;
