//! Wire codes of the message kinds.
use vstd::prelude::*;

verus! {

pub const NONE: u8 = 0x00;

pub const NAV_DATA: u8 = 0x01;

pub const MESSAGE: u8 = 0x02;

pub const ACK: u8 = 0x03;

pub const PING: u8 = 0x04;

pub const PONG: u8 = 0x05;

} // verus!
