//! Layout of the status screen: fixed labels, and the readings drawn as decimal
//! text next to them.
use vstd::prelude::*;

use lexical_core::FormattedSize;

use crate::AdcValue;

verus! {

/// A piece of text to draw with its top-left corner at (`x`, `y`).
#[derive(Clone, Debug, PartialEq, Eq)]
pub struct TextItem {
    pub x: i32,
    pub y: i32,
    pub text: Vec<u8>,
}

/// Decimal digits of `n`, most significant first, without leading zeros.
pub open spec fn decimal_digits(n: nat) -> Seq<u8>
    decreases n,
{
    if n < 10 {
        seq![(48 + n) as u8]
    } else {
        decimal_digits(n / 10).push((48 + n % 10) as u8)
    }
}

/// Decimal text of `v`, through `lexical_core::write` with its standard format.
/// Claimed of it: the bytes written are the decimal digits of `v`, most
/// significant first, without sign or leading zeros.
#[verifier::external_body]
fn write_decimal(v: u32) -> (digits: Vec<u8>)
    ensures
        digits@ == decimal_digits(v as nat),
{
    let mut buffer = [0u8; u32::FORMATTED_SIZE_DECIMAL];
    lexical_core::write(v, &mut buffer).to_vec()
}

/// Whether `item` is `text` drawn at (`x`, `y`).
pub open spec fn text_at(item: TextItem, x: int, y: int, text: Seq<u8>) -> bool {
    &&& item.x == x
    &&& item.y == y
    &&& item.text@ == text
}

/// The labels drawn once when the screen starts: "lat:", "lon:" and "sat:" in the
/// right column, "volt:" and "temp:" in the left one.
pub fn static_labels() -> (items: Vec<TextItem>)
    ensures
        items@.len() == 5,
        text_at(items@[0], 68, 0, seq!['l' as u8, 'a' as u8, 't' as u8, ':' as u8]),
        text_at(items@[1], 68, 10, seq!['l' as u8, 'o' as u8, 'n' as u8, ':' as u8]),
        text_at(items@[2], 68, 20, seq!['s' as u8, 'a' as u8, 't' as u8, ':' as u8]),
        text_at(items@[3], 0, 0, seq!['v' as u8, 'o' as u8, 'l' as u8, 't' as u8, ':' as u8]),
        text_at(items@[4], 0, 10, seq!['t' as u8, 'e' as u8, 'm' as u8, 'p' as u8, ':' as u8]),
{
    let mut items: Vec<TextItem> = Vec::new();
    items.push(TextItem { x: 68, y: 0, text: vec!['l' as u8, 'a' as u8, 't' as u8, ':' as u8] });
    items.push(TextItem { x: 68, y: 10, text: vec!['l' as u8, 'o' as u8, 'n' as u8, ':' as u8] });
    items.push(TextItem { x: 68, y: 20, text: vec!['s' as u8, 'a' as u8, 't' as u8, ':' as u8] });
    items.push(TextItem { x: 0, y: 0, text: vec!['v' as u8, 'o' as u8, 'l' as u8, 't' as u8, ':' as u8] });
    items.push(TextItem { x: 0, y: 10, text: vec!['t' as u8, 'e' as u8, 'm' as u8, 'p' as u8, ':' as u8] });
    items
}

/// The analog readings as decimal text: the voltage after "volt:", the
/// temperature after "temp:".
pub fn adc_texts(adc: &AdcValue) -> (items: Vec<TextItem>)
    ensures
        items@.len() == 2,
        text_at(items@[0], 32, 0, decimal_digits(adc.voltage as nat)),
        text_at(items@[1], 32, 10, decimal_digits(adc.temp as nat)),
{
    let voltage = write_decimal(adc.voltage as u32);
    let temp = write_decimal(adc.temp as u32);
    let mut items: Vec<TextItem> = Vec::new();
    items.push(TextItem { x: 32, y: 0, text: voltage });
    items.push(TextItem { x: 32, y: 10, text: temp });
    items
}

/// The number of satellites in the fix as decimal text, after "sat:".
pub fn satellites_text(count: u32) -> (item: TextItem)
    ensures
        text_at(item, 94, 20, decimal_digits(count as nat)),
{
    TextItem { x: 94, y: 20, text: write_decimal(count) }
}

} // verus!
