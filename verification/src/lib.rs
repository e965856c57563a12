//! Codec for the fixed-layout best-times data of Elasto Mania files:
//! fixed-width zero-padded string fields, the eight-character time display,
//! and the 688-byte top-10 leaderboard table.

pub mod utils;

use vstd::prelude::*;

verus! {

/// The recoverable failures of the codec.
#[derive(Debug, Clone, Copy, PartialEq, Eq, Structural)]
pub enum ElmaError {
    /// A string headed for a fixed-width ASCII field holds a non-ASCII character.
    NonASCII,
    /// A string is longer than its field; the payload is `width - length`,
    /// the (negative) number of bytes over budget.
    PaddingTooShort(isize),
    /// The bytes before the first zero of a field are not valid UTF-8.
    InvalidEncoding,
}

/// A time as a signed 32-bit count of centiseconds. No range is enforced:
/// negative or very large values are representable.
#[derive(Debug, Clone, Copy, PartialEq, Eq, Structural)]
pub struct Time(pub i32);

/// One leaderboard row: a time and the two player names of the run.
#[derive(Debug)]
pub struct TimeEntry {
    pub time: Time,
    pub names: (String, String),
}

/// The two best-times lists, single-player and multi-player, in insertion
/// order. Only the first 10 entries of each take part in serialization.
#[derive(Debug)]
pub struct BestTimes {
    pub single: Vec<TimeEntry>,
    pub multi: Vec<TimeEntry>,
}

impl BestTimes {
    /// Two empty lists.
    pub fn new() -> (r: BestTimes)
        ensures
            r.single@.len() == 0,
            r.multi@.len() == 0,
    {
        BestTimes { single: Vec::new(), multi: Vec::new() }
    }
}

/// A coordinate with two components of one numeric type; equality is
/// component-wise, and the default value is the type's default in both fields.
#[derive(Debug, Default, Clone, Copy, PartialEq, Eq, Structural)]
pub struct Position<T> {
    /// X-position.
    pub x: T,
    /// Y-position.
    pub y: T,
}

/// The character for one decimal digit.
pub open spec fn digit_char(d: int) -> char
    recommends
        0 <= d <= 9,
{
    ((d + 48) as u8) as char
}

/// The leading decimal digit of a non-negative number.
pub open spec fn leading_digit(t: int) -> int
    recommends
        t >= 0,
    decreases t,
{
    if t < 10 {
        t
    } else {
        leading_digit(t / 10)
    }
}

/// The eight characters `MM:SS,CC` that display `t` centiseconds: the decimal
/// digits of `t` laid right-to-left into the digit slots of the template
/// `00:00,00`. A seventh and further digits all land on the leftmost slot, so
/// that slot shows the leading digit of `t`; the digits between it and the
/// sixth are lost. The format cannot show 100 minutes or more.
pub open spec fn time_display(t: int) -> Seq<char>
    recommends
        t >= 0,
{
    seq![
        if t < 1000000 {
            digit_char((t / 100000) % 10)
        } else {
            digit_char(leading_digit(t))
        },
        digit_char((t / 10000) % 10),
        ':',
        digit_char((t / 1000) % 10),
        digit_char((t / 100) % 10),
        ',',
        digit_char((t / 10) % 10),
        digit_char(t % 10),
    ]
}

/// Renders a centisecond count as the fixed display `MM:SS,CC`.
/// The format leaves negative counts undefined, so they are ruled out here.
pub fn time_format(time: i32) -> (r: String)
    requires
        time >= 0,
    ensures
        r@ == time_display(time as int),
        r@.len() == 8,
{
    let t = time as u32;
    let first: u8 = if t < 1000000 {
        ((t / 100000) % 10) as u8 + 48
    } else {
        let mut m = t;
        while m >= 10
            invariant
                leading_digit(m as int) == leading_digit(t as int),
            decreases m,
        {
            m = m / 10;
        }
        m as u8 + 48
    };
    let mut bytes: Vec<u8> = Vec::new();
    bytes.push(first);
    bytes.push(((t / 10000) % 10) as u8 + 48);
    bytes.push(58);
    bytes.push(((t / 1000) % 10) as u8 + 48);
    bytes.push(((t / 100) % 10) as u8 + 48);
    bytes.push(44);
    bytes.push(((t / 10) % 10) as u8 + 48);
    bytes.push((t % 10) as u8 + 48);
    proof {
        crate::utils::lemma_ascii_bytes_decode(bytes@);
        assert(vstd::utf8::decode_utf8(bytes@) =~= time_display(time as int));
    }
    let formatted = crate::utils::bytes_to_string(bytes);
    match formatted {
        Some(s) => s,
        None => String::new(),
    }
}

/// Takes the bytes of a fixed-width field up to (and excluding) its first
/// zero byte and decodes them as UTF-8 text.
pub fn trim_string(data: &[u8]) -> (r: Result<String, ElmaError>)
    ensures
        r is Ok <==> vstd::utf8::valid_utf8(crate::utils::trimmed_bytes(data@)),
        r matches Ok(s) ==> s@ == vstd::utf8::decode_utf8(crate::utils::trimmed_bytes(data@)),
        r is Err ==> r == Err::<String, ElmaError>(ElmaError::InvalidEncoding),
{
    crate::utils::trim_string(data)
}

} // verus!
