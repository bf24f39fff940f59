//! Verified core of a LoRa/GNSS tracker node: the radio frame format with its
//! CRC, the NMEA line assembly of the GNSS serial stream, the ASCII check of NMEA
//! sentences, the display layout of the status screen and the radio settings.
use vstd::prelude::*;

pub mod crc;
pub mod packet;
pub mod nmea;
pub mod uart;
pub mod display;
pub mod radio;

verus! {

/// Largest payload a radio frame carries, in bytes.
pub const MAX_PAYLOAD_LEN: usize = 200;

/// Carrier frequency of the node's LoRa channel, in Hz.
pub const LORA_FREQUENCY_IN_HZ: u32 = 870_000_000;

/// Kind of a message exchanged between nodes.
#[derive(Clone, Copy, Debug, PartialEq, Eq, Structural)]
pub enum MsgType {
    NoType,
    NavData,
    Message,
    Ack,
    Ping,
    Pong,
}

/// Time of day, as seconds since midnight and a nanosecond fraction.
#[derive(Clone, Copy, Debug, PartialEq, Eq, Structural)]
pub struct TimeOfDay {
    pub secs: u32,
    pub frac: u32,
}

impl TimeOfDay {
    /// Midnight, the earliest time of day.
    pub open spec fn spec_midnight() -> TimeOfDay {
        TimeOfDay { secs: 0, frac: 0 }
    }

    /// Midnight, the earliest time of day.
    pub fn midnight() -> (t: TimeOfDay)
        ensures
            t == TimeOfDay::spec_midnight(),
    {
        TimeOfDay { secs: 0, frac: 0 }
    }
}

/// Latest readings of the analog inputs: battery voltage and temperature sensor.
#[derive(Clone, Copy, Debug, PartialEq, Eq, Structural)]
pub struct AdcValue {
    pub voltage: u16,
    pub temp: u16,
}

impl AdcValue {
    /// Readings before the first conversion: both zero.
    pub fn new() -> (v: AdcValue)
        ensures
            v.voltage == 0,
            v.temp == 0,
    {
        AdcValue { voltage: 0, temp: 0 }
    }
}

/// A message as the application sees it.
#[derive(Clone, Copy, Debug, PartialEq, Eq)]
pub struct Message {
    pub source: [u8; 6],
    pub destination: [u8; 6],
    pub msg_type: MsgType,
    pub message_len: u8,
    pub message: [u8; MAX_PAYLOAD_LEN],
    pub time_stamp: TimeOfDay,
}

/// Mathematical model of a [`Message`].
pub struct MessageModel {
    pub source: Seq<u8>,
    pub destination: Seq<u8>,
    pub msg_type: MsgType,
    pub message_len: u8,
    pub message: Seq<u8>,
    pub time_stamp: TimeOfDay,
}

impl View for Message {
    type V = MessageModel;

    open spec fn view(&self) -> MessageModel {
        MessageModel {
            source: self.source@,
            destination: self.destination@,
            msg_type: self.msg_type,
            message_len: self.message_len,
            message: self.message@,
            time_stamp: self.time_stamp,
        }
    }
}

} // verus!
