//! Settings of the LoRa radio link, the pins of the SX126x transceiver, and the
//! check of the fixed test frame used to try the link out.
use vstd::prelude::*;

verus! {

/// LoRa spreading factor (chips per symbol as a power of two).
#[derive(Clone, Copy, Debug, PartialEq, Eq, Structural)]
pub enum SpreadingFactor {
    _5,
    _6,
    _7,
    _8,
    _9,
    _10,
    _11,
    _12,
}

/// LoRa signal bandwidth.
#[derive(Clone, Copy, Debug, PartialEq, Eq, Structural)]
pub enum Bandwidth {
    _7KHz,
    _10KHz,
    _15KHz,
    _20KHz,
    _31KHz,
    _41KHz,
    _62KHz,
    _125KHz,
    _250KHz,
    _500KHz,
}

/// LoRa forward error correction rate.
#[derive(Clone, Copy, Debug, PartialEq, Eq, Structural)]
pub enum CodingRate {
    _4_5,
    _4_6,
    _4_7,
    _4_8,
}

/// Pins needed to drive an SX1262 transceiver.
pub struct Sx126xPins<RESET, DIO1, BUSY> {
    pub reset: RESET,
    pub dio1: DIO1,
    pub busy: BUSY,
}

/// Optional pins of the antenna's receive/transmit switch.
pub struct RfSwitchPins<RX, TX> {
    pub rx: Option<RX>,
    pub tx: Option<TX>,
}

/// Parameters of a point-to-point LoRa channel.
#[derive(Clone, Copy, Debug, PartialEq, Eq, Structural)]
pub struct LoRaChannel {
    pub frequency_hz: u32,
    pub spreading_factor: SpreadingFactor,
    pub bandwidth: Bandwidth,
    pub coding_rate: CodingRate,
}

impl Default for LoRaChannel {
    /// 868 MHz, spreading factor 7, 125 kHz bandwidth, coding rate 4/5.
    fn default() -> (c: LoRaChannel)
        ensures
            c.frequency_hz == 868_000_000,
            c.spreading_factor == SpreadingFactor::_7,
            c.bandwidth == Bandwidth::_125KHz,
            c.coding_rate == CodingRate::_4_5,
    {
        LoRaChannel {
            frequency_hz: 868_000_000,
            spreading_factor: SpreadingFactor::_7,
            bandwidth: Bandwidth::_125KHz,
            coding_rate: CodingRate::_4_5,
        }
    }
}

/// Length of the test frame.
pub const TEST_FRAME_LEN: u8 = 64;

/// Value of every byte of the test frame.
pub const TEST_FRAME_BYTE: u8 = 1;

/// The test frame: `TEST_FRAME_LEN` bytes, each `TEST_FRAME_BYTE`.
pub open spec fn test_frame() -> Seq<u8> {
    Seq::new(TEST_FRAME_LEN as nat, |i: int| TEST_FRAME_BYTE)
}

/// Whether a reception of `received_len` bytes into `buffer` is the test frame:
/// the length is that of the test frame and the buffer holds exactly it.
pub fn is_test_frame(received_len: u8, buffer: &[u8]) -> (r: bool)
    ensures
        r == (received_len == TEST_FRAME_LEN && buffer@ == test_frame()),
{
    if received_len != TEST_FRAME_LEN || buffer.len() != TEST_FRAME_LEN as usize {
        assert(buffer@.len() != TEST_FRAME_LEN ==> buffer@ != test_frame());
        return false;
    }
    let mut i: usize = 0;
    while i < buffer.len()
        invariant
            i <= buffer@.len(),
            buffer@.len() == TEST_FRAME_LEN,
            forall|j: int| 0 <= j < i ==> #[trigger] buffer@[j] == TEST_FRAME_BYTE,
        decreases buffer@.len() - i,
    {
        if buffer[i] != TEST_FRAME_BYTE {
            assert(buffer@[i as int] != test_frame()[i as int]);
            return false;
        }
        i += 1;
    }
    assert(buffer@ =~= test_frame());
    true
}

} // verus!
