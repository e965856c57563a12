//! The string field codec and the best-times table codec: fixed-width
//! zero-padded ASCII fields, and the two 344-byte sub-tables that hold up to
//! 10 times and name pairs each.

use vstd::prelude::*;
use vstd::utf8::{
    decode_utf8, encode_utf8, encode_utf8_decode_utf8, encode_utf8_valid_utf8, is_ascii_chars,
    is_ascii_chars_encode_utf8, valid_utf8,
};

use byteorder::{ByteOrder, LittleEndian};

use crate::{BestTimes, ElmaError, Time, TimeEntry};

verus! {

/// Entries a sub-table displays at most.
pub const TOP10_ENTRIES: usize = 10;

/// Width of one name field in bytes.
pub const NAME_WIDTH: usize = 15;

/// Offset of the 10 time slots inside a sub-table.
pub const TIMES_OFFSET: usize = 4;

/// Offset of the 10 first-player name slots inside a sub-table.
pub const NAMES_1_OFFSET: usize = 44;

/// Offset of the 10 second-player name slots inside a sub-table.
pub const NAMES_2_OFFSET: usize = 194;

/// Size of one sub-table: count, times, and the two name columns.
pub const SUB_TABLE_SIZE: usize = 344;

/// Size of the whole table: the single-player sub-table, then the
/// multi-player one.
pub const TOP10_SIZE: usize = 688;

/// The unsigned 32-bit number with the same two's-complement bits as `v`.
pub open spec fn u32_of_i32(v: i32) -> u32 {
    if v >= 0 {
        v as u32
    } else {
        (v + 0x1_0000_0000) as u32
    }
}

/// The signed 32-bit number with the same two's-complement bits as `u`.
pub open spec fn i32_of_u32(u: u32) -> i32 {
    if u < 0x8000_0000 {
        u as i32
    } else {
        (u - 0x1_0000_0000) as i32
    }
}

/// The four little-endian bytes of a signed 32-bit value.
pub open spec fn i32_le_bytes(v: i32) -> Seq<u8> {
    vstd::bytes::spec_u32_to_le_bytes(u32_of_i32(v))
}

/// The signed 32-bit value read from four little-endian bytes.
pub open spec fn i32_from_le_bytes(b: Seq<u8>) -> i32
    recommends
        b.len() == 4,
{
    i32_of_u32(vstd::bytes::spec_u32_from_le_bytes(b))
}

pub proof fn lemma_i32_le_round_trip(v: i32)
    ensures
        i32_le_bytes(v).len() == 4,
        i32_from_le_bytes(i32_le_bytes(v)) == v,
{
    vstd::bytes::lemma_auto_spec_u32_to_from_le_bytes();
    let u = u32_of_i32(v);
    assert(vstd::bytes::spec_u32_to_le_bytes(u).len() == 4);
    assert(vstd::bytes::spec_u32_from_le_bytes(vstd::bytes::spec_u32_to_le_bytes(u)) == u);
    if v >= 0 {
        assert(u == v as u32);
        assert(u < 0x8000_0000);
    } else {
        assert(u == (v + 0x1_0000_0000) as u32);
        assert(u >= 0x8000_0000);
        assert((u - 0x1_0000_0000) as i32 == v);
    }
}

/// Relies on byteorder's `LittleEndian::read_i32`: it reads the first four
/// bytes as an unsigned little-endian number and casts it to `i32`, and
/// panics only on a buffer shorter than four bytes.
#[verifier::external_body]
fn read_i32_le(buf: &[u8]) -> (r: i32)
    requires
        buf@.len() == 4,
    ensures
        r == i32_from_le_bytes(buf@),
{
    LittleEndian::read_i32(buf)
}

/// Relies on byteorder's `LittleEndian::write_i32`: it fills a four-byte
/// buffer with the value's little-endian two's-complement bytes.
#[verifier::external_body]
fn append_i32_le(out: &mut Vec<u8>, v: i32)
    ensures
        final(out)@ == old(out)@ + i32_le_bytes(v),
{
    let mut buf = [0u8; 4];
    LittleEndian::write_i32(&mut buf, v);
    out.extend_from_slice(&buf);
}

/// The index of the first zero byte of `b`, or `b.len()` if it has none.
pub open spec fn first_null(b: Seq<u8>) -> int
    decreases b.len(),
{
    if b.len() == 0 {
        0
    } else if b[0] == 0 {
        0
    } else {
        1 + first_null(b.drop_first())
    }
}

/// The longest prefix of `b` that holds no zero byte: the text of a
/// fixed-width field under the C-string convention.
pub open spec fn trimmed_bytes(b: Seq<u8>) -> Seq<u8> {
    b.take(first_null(b))
}

/// Pins `first_null` down: an index below which every byte is non-zero, and
/// which holds a zero byte or is the length, is the first zero.
pub proof fn lemma_first_null_at(b: Seq<u8>, i: int)
    requires
        0 <= i <= b.len(),
        forall|j: int| 0 <= j < i ==> b[j] != 0,
        i < b.len() ==> b[i] == 0,
    ensures
        first_null(b) == i,
    decreases i,
{
    if b.len() == 0 {
    } else if b[0] == 0 {
    } else {
        lemma_first_null_at(b.drop_first(), i - 1);
    }
}

/// A sequence of bytes below 128 is valid UTF-8 and decodes to itself,
/// character by character.
pub proof fn lemma_ascii_bytes_decode(bytes: Seq<u8>)
    requires
        forall|i: int| 0 <= i < bytes.len() ==> bytes[i] < 128,
    ensures
        valid_utf8(bytes),
        decode_utf8(bytes) =~= Seq::new(bytes.len(), |i: int| bytes[i] as char),
{
    let chars = Seq::new(bytes.len(), |i: int| bytes[i] as char);
    assert forall|i: int| 0 <= i < chars.len() implies '\0' <= #[trigger] chars[i]
        <= '\u{7f}' by {
        assert(bytes[i] < 128);
    }
    assert(is_ascii_chars(chars));
    is_ascii_chars_encode_utf8(chars);
    assert(encode_utf8(chars) =~= bytes);
    encode_utf8_valid_utf8(chars);
    encode_utf8_decode_utf8(chars);
}

/// Relies on `String::from_utf8`: it succeeds exactly on valid UTF-8 input,
/// and the returned string's characters are the UTF-8 decoding of the bytes.
#[verifier::external_body]
pub(crate) fn bytes_to_string(bytes: Vec<u8>) -> (r: Option<String>)
    ensures
        r is Some <==> valid_utf8(bytes@),
        r matches Some(s) ==> s@ == decode_utf8(bytes@),
{
    String::from_utf8(bytes).ok()
}

/// Takes the bytes of a fixed-width field up to (and excluding) its first
/// zero byte and decodes them as UTF-8 text. Bytes after the first zero are
/// ignored; a field with no zero byte is read whole. Empty input yields the
/// empty string; the one failure is text that is not valid UTF-8.
pub fn trim_string(data: &[u8]) -> (r: Result<String, ElmaError>)
    ensures
        r is Ok <==> valid_utf8(trimmed_bytes(data@)),
        r matches Ok(s) ==> s@ == decode_utf8(trimmed_bytes(data@)),
        r is Err ==> r == Err::<String, ElmaError>(ElmaError::InvalidEncoding),
{
    let mut prefix: Vec<u8> = Vec::new();
    let mut i: usize = 0;
    while i < data.len() && data[i] != 0
        invariant
            i <= data@.len(),
            prefix@ == data@.take(i as int),
            forall|j: int| 0 <= j < i ==> data@[j] != 0,
        decreases data@.len() - i,
    {
        prefix.push(data[i]);
        proof {
            assert(data@.take(i + 1) =~= data@.take(i as int) + seq![data@[i as int]]);
        }
        i = i + 1;
    }
    proof {
        lemma_first_null_at(data@, i as int);
        assert(prefix@ == trimmed_bytes(data@));
    }
    match bytes_to_string(prefix) {
        Some(s) => Ok(s),
        None => Err(ElmaError::InvalidEncoding),
    }
}

/// The fixed-width field for `text`: `width` bytes, the text's bytes first,
/// zero bytes after them.
pub open spec fn padded_bytes(text: Seq<char>, width: int) -> Seq<u8>
    recommends
        0 <= text.len() <= width,
{
    Seq::new(
        width as nat,
        |i: int|
            if i < text.len() {
                text[i] as u8
            } else {
                0u8
            },
    )
}

/// What `PaddingTooShort` reports for a text of `len` bytes in a field of
/// `width`: `width - len`. A deficit below what the machine's signed word
/// holds (impossible for real strings) is pinned to the word's minimum.
pub open spec fn pad_deficit(len: int, width: int) -> int {
    if len - width > isize::MAX as int {
        isize::MIN as int
    } else {
        width - len
    }
}

/// The failure, if any, of padding `text` into a field of `width` bytes:
/// `NonASCII` for text with a character outside ASCII, otherwise
/// `PaddingTooShort` for text longer than the field.
pub open spec fn pad_error(text: Seq<char>, width: int) -> Option<ElmaError> {
    if !is_ascii_chars(text) {
        Some(ElmaError::NonASCII)
    } else if text.len() > width {
        Some(ElmaError::PaddingTooShort(pad_deficit(text.len() as int, width) as isize))
    } else {
        None
    }
}

/// Text that a field of `width` bytes stores and gives back unchanged:
/// ASCII, no zero character, and no longer than the field.
pub open spec fn text_fits(text: Seq<char>, width: int) -> bool {
    &&& is_ascii_chars(text)
    &&& forall|i: int| 0 <= i < text.len() ==> text[i] != '\0'
    &&& text.len() <= width
}

/// Pads a string with zero bytes into a fixed-width field: the string's bytes
/// first, zeros after them. Fails with `NonASCII` on a character outside
/// ASCII, and with `PaddingTooShort(pad - length)` on a string longer than
/// the field.
pub fn string_null_pad(name: &str, pad: usize) -> (r: Result<Vec<u8>, ElmaError>)
    ensures
        r is Ok <==> pad_error(name@, pad as int) is None,
        r matches Ok(b) ==> b@ == padded_bytes(name@, pad as int),
        r matches Err(e) ==> Some(e) == pad_error(name@, pad as int),
{
    if !name.is_ascii() {
        return Err(ElmaError::NonASCII);
    }
    let bytes = name.as_bytes();
    proof {
        broadcast use vstd::string::is_ascii_spec_bytes;

        assert(bytes@.len() == name@.len());
    }
    if bytes.len() > pad {
        let over: usize = bytes.len() - pad;
        let deficit: isize = if over > isize::MAX as usize {
            isize::MIN
        } else {
            -(over as isize)
        };
        return Err(ElmaError::PaddingTooShort(deficit));
    }
    let mut out: Vec<u8> = Vec::new();
    let mut i: usize = 0;
    while i < pad
        invariant
            i <= pad,
            bytes@.len() == name@.len() && name@.len() <= pad,
            forall|j: int| 0 <= j < bytes@.len() ==> bytes@[j] == name@[j] as u8,
            out@.len() == i,
            forall|j: int|
                0 <= j < i ==> out@[j] == (if j < name@.len() {
                    name@[j] as u8
                } else {
                    0u8
                }),
        decreases pad - i,
    {
        if i < bytes.len() {
            out.push(bytes[i]);
        } else {
            out.push(0);
        }
        i = i + 1;
    }
    proof {
        assert(out@ =~= padded_bytes(name@, pad as int));
    }
    Ok(out)
}

/// A length capped to the 10 slots of a sub-table.
pub open spec fn clamp10(n: int) -> int {
    if n > 10 {
        10
    } else {
        n
    }
}

/// A stored entry count clamped to the valid range of 0 to 10.
pub open spec fn clamp_count(n: int) -> int {
    if n < 0 {
        0
    } else if n > 10 {
        10
    } else {
        n
    }
}

/// The entry count a sub-table stores, clamped to the valid range.
pub open spec fn parsed_count(b: Seq<u8>) -> int
    recommends
        b.len() == SUB_TABLE_SIZE as int,
{
    clamp_count(i32_from_le_bytes(b.subrange(0, 4)) as int)
}

/// The four bytes of time slot `n` of a sub-table.
pub open spec fn time_slot_bytes(b: Seq<u8>, n: int) -> Seq<u8> {
    b.subrange(TIMES_OFFSET as int + n * 4, TIMES_OFFSET as int + n * 4 + 4)
}

/// The 15 bytes of first-player name slot `n` of a sub-table.
pub open spec fn name1_slot_bytes(b: Seq<u8>, n: int) -> Seq<u8> {
    b.subrange(
        NAMES_1_OFFSET as int + n * (NAME_WIDTH as int),
        NAMES_1_OFFSET as int + n * (NAME_WIDTH as int) + NAME_WIDTH as int,
    )
}

/// The 15 bytes of second-player name slot `n` of a sub-table.
pub open spec fn name2_slot_bytes(b: Seq<u8>, n: int) -> Seq<u8> {
    b.subrange(
        NAMES_2_OFFSET as int + n * (NAME_WIDTH as int),
        NAMES_2_OFFSET as int + n * (NAME_WIDTH as int) + NAME_WIDTH as int,
    )
}

/// The time that row `n` of a sub-table stores.
pub open spec fn parsed_time(b: Seq<u8>, n: int) -> i32 {
    i32_from_le_bytes(time_slot_bytes(b, n))
}

/// The first-player name of row `n`: its slot's bytes before the first zero,
/// decoded as UTF-8.
pub open spec fn parsed_name1(b: Seq<u8>, n: int) -> Seq<char> {
    decode_utf8(trimmed_bytes(name1_slot_bytes(b, n)))
}

/// The second-player name of row `n`.
pub open spec fn parsed_name2(b: Seq<u8>, n: int) -> Seq<char> {
    decode_utf8(trimmed_bytes(name2_slot_bytes(b, n)))
}

/// Both name fields of row `n` hold valid text.
pub open spec fn row_ok(b: Seq<u8>, n: int) -> bool {
    &&& valid_utf8(trimmed_bytes(name1_slot_bytes(b, n)))
    &&& valid_utf8(trimmed_bytes(name2_slot_bytes(b, n)))
}

/// Every row the stored count names holds valid text: parsing succeeds.
pub open spec fn sub_parse_ok(b: Seq<u8>) -> bool {
    forall|n: int| 0 <= n < parsed_count(b) ==> row_ok(b, n)
}

/// `es` is exactly what sub-table `b` stores: one entry per counted row, each
/// with the row's time and its two trimmed names.
pub open spec fn sub_entries_match(b: Seq<u8>, es: Seq<TimeEntry>) -> bool {
    &&& es.len() == parsed_count(b)
    &&& forall|n: int|
        0 <= n < es.len() ==> {
            &&& (#[trigger] es[n]).time.0 == parsed_time(b, n)
            &&& es[n].names.0@ == parsed_name1(b, n)
            &&& es[n].names.1@ == parsed_name2(b, n)
        }
}

/// The time written into slot `n`: the entry's time for a counted row, zero
/// for an unfilled slot.
pub open spec fn time_slot(es: Seq<TimeEntry>, n: int) -> i32 {
    if 0 <= n < es.len() && n < 10 {
        es[n].time.0
    } else {
        0
    }
}

/// The first-player name field of row `n` as written: the padded name for a
/// counted row, 15 zero bytes for an unfilled one.
pub open spec fn name1_slot(es: Seq<TimeEntry>, n: int) -> Seq<u8> {
    if 0 <= n < es.len() && n < 10 {
        padded_bytes(es[n].names.0@, NAME_WIDTH as int)
    } else {
        padded_bytes(Seq::empty(), NAME_WIDTH as int)
    }
}

/// The second-player name field of row `n` as written.
pub open spec fn name2_slot(es: Seq<TimeEntry>, n: int) -> Seq<u8> {
    if 0 <= n < es.len() && n < 10 {
        padded_bytes(es[n].names.1@, NAME_WIDTH as int)
    } else {
        padded_bytes(Seq::empty(), NAME_WIDTH as int)
    }
}

/// The first `n` time slots of a sub-table, as written.
pub open spec fn times_bytes(es: Seq<TimeEntry>, n: int) -> Seq<u8>
    decreases n,
{
    if n <= 0 {
        Seq::empty()
    } else {
        times_bytes(es, n - 1) + i32_le_bytes(time_slot(es, n - 1))
    }
}

/// The first `n` first-player name fields of a sub-table, as written.
pub open spec fn names1_bytes(es: Seq<TimeEntry>, n: int) -> Seq<u8>
    decreases n,
{
    if n <= 0 {
        Seq::empty()
    } else {
        names1_bytes(es, n - 1) + name1_slot(es, n - 1)
    }
}

/// The first `n` second-player name fields of a sub-table, as written.
pub open spec fn names2_bytes(es: Seq<TimeEntry>, n: int) -> Seq<u8>
    decreases n,
{
    if n <= 0 {
        Seq::empty()
    } else {
        names2_bytes(es, n - 1) + name2_slot(es, n - 1)
    }
}

/// One 344-byte sub-table as written for `es`: the capped entry count, the 10
/// time slots, then the two name columns.
pub open spec fn sub_table_bytes(es: Seq<TimeEntry>) -> Seq<u8> {
    i32_le_bytes(clamp10(es.len() as int) as i32) + times_bytes(es, 10) + names1_bytes(es, 10)
        + names2_bytes(es, 10)
}

/// The whole 688-byte table as written: the single-player sub-table, then the
/// multi-player one.
pub open spec fn top10_bytes(single: Seq<TimeEntry>, multi: Seq<TimeEntry>) -> Seq<u8> {
    sub_table_bytes(single) + sub_table_bytes(multi)
}

/// The failure, if any, of writing one row's names: the first name's padding
/// failure, else the second's.
pub open spec fn entry_error(e: TimeEntry) -> Option<ElmaError> {
    if pad_error(e.names.0@, NAME_WIDTH as int) is Some {
        pad_error(e.names.0@, NAME_WIDTH as int)
    } else {
        pad_error(e.names.1@, NAME_WIDTH as int)
    }
}

/// The first padding failure among rows `n` and later of the first
/// `clamp10(len)` entries.
pub open spec fn table_error_from(es: Seq<TimeEntry>, n: int) -> Option<ElmaError>
    decreases clamp10(es.len() as int) - n,
{
    if 0 <= n < clamp10(es.len() as int) {
        if entry_error(es[n]) is Some {
            entry_error(es[n])
        } else {
            table_error_from(es, n + 1)
        }
    } else {
        None
    }
}

/// The first padding failure of a sub-table write: rows in order, the first
/// player's name before the second's. Rows past the tenth are never written,
/// so they cannot fail.
pub open spec fn table_error(es: Seq<TimeEntry>) -> Option<ElmaError> {
    table_error_from(es, 0)
}

pub proof fn lemma_table_error_skip(es: Seq<TimeEntry>, n: int)
    requires
        0 <= n <= clamp10(es.len() as int),
        forall|j: int| 0 <= j < n ==> (#[trigger] entry_error(es[j])) is None,
    ensures
        table_error(es) == table_error_from(es, n),
    decreases n,
{
    if n > 0 {
        lemma_table_error_skip(es, n - 1);
    }
}

pub proof fn lemma_times_bytes_len(es: Seq<TimeEntry>, n: int)
    requires
        n >= 0,
    ensures
        times_bytes(es, n).len() == 4 * n,
    decreases n,
{
    if n > 0 {
        lemma_times_bytes_len(es, n - 1);
        lemma_i32_le_round_trip(time_slot(es, n - 1));
    }
}

pub proof fn lemma_names_bytes_len(es: Seq<TimeEntry>, n: int)
    requires
        n >= 0,
    ensures
        names1_bytes(es, n).len() == (NAME_WIDTH as int) * n,
        names2_bytes(es, n).len() == (NAME_WIDTH as int) * n,
    decreases n,
{
    if n > 0 {
        lemma_names_bytes_len(es, n - 1);
    }
}

pub proof fn lemma_sub_table_len(es: Seq<TimeEntry>)
    ensures
        sub_table_bytes(es).len() == SUB_TABLE_SIZE as int,
{
    lemma_i32_le_round_trip(clamp10(es.len() as int) as i32);
    lemma_times_bytes_len(es, 10);
    lemma_names_bytes_len(es, 10);
}

/// Appends one empty name field: 15 zero bytes.
fn push_zero_name(out: &mut Vec<u8>)
    ensures
        final(out)@ == old(out)@ + padded_bytes(Seq::empty(), NAME_WIDTH as int),
{
    let ghost start = out@;
    let mut i: usize = 0;
    while i < NAME_WIDTH
        invariant
            i <= NAME_WIDTH,
            out@ == start + Seq::new(i as nat, |_j: int| 0u8),
        decreases NAME_WIDTH - i,
    {
        out.push(0);
        proof {
            assert(start + Seq::new(i as nat, |_j: int| 0u8) + seq![0u8] =~= start + Seq::new(
                (i + 1) as nat,
                |_j: int| 0u8,
            ));
        }
        i = i + 1;
    }
    proof {
        assert(Seq::new(NAME_WIDTH as nat, |_j: int| 0u8) =~= padded_bytes(
            Seq::empty(),
            NAME_WIDTH as int,
        ));
        assert(out@ =~= old(out)@ + padded_bytes(Seq::empty(), NAME_WIDTH as int));
    }
}

/// Serializes one sub-table: the entry count capped at 10, the capped
/// entries' times and zero for the unfilled slots, then the two name columns,
/// each name zero-padded to 15 bytes and the unfilled rows all zero. The
/// first name that cannot be padded aborts the write with its failure.
pub fn write_sub_table(entries: &Vec<TimeEntry>) -> (r: Result<Vec<u8>, ElmaError>)
    ensures
        r is Ok <==> table_error(entries@) is None,
        r matches Ok(b) ==> b@ == sub_table_bytes(entries@),
        r matches Err(e) ==> Some(e) == table_error(entries@),
{
    let k: usize = if entries.len() < TOP10_ENTRIES {
        entries.len()
    } else {
        TOP10_ENTRIES
    };
    let mut names1: Vec<u8> = Vec::new();
    let mut names2: Vec<u8> = Vec::new();
    let mut n: usize = 0;
    while n < TOP10_ENTRIES
        invariant
            n <= TOP10_ENTRIES,
            k as int == clamp10(entries@.len() as int),
            names1@ == names1_bytes(entries@, n as int),
            names2@ == names2_bytes(entries@, n as int),
            forall|j: int| 0 <= j < n && j < k ==> (#[trigger] entry_error(entries@[j])) is None,
        decreases TOP10_ENTRIES - n,
    {
        if n < entries.len() {
            match string_null_pad(entries[n].names.0.as_str(), NAME_WIDTH) {
                Ok(mut b) => {
                    names1.append(&mut b);
                },
                Err(e) => {
                    proof {
                        lemma_table_error_skip(entries@, n as int);
                    }
                    return Err(e);
                },
            }
            match string_null_pad(entries[n].names.1.as_str(), NAME_WIDTH) {
                Ok(mut b) => {
                    names2.append(&mut b);
                },
                Err(e) => {
                    proof {
                        lemma_table_error_skip(entries@, n as int);
                    }
                    return Err(e);
                },
            }
        } else {
            push_zero_name(&mut names1);
            push_zero_name(&mut names2);
        }
        n = n + 1;
    }
    let mut out: Vec<u8> = Vec::new();
    append_i32_le(&mut out, k as i32);
    proof {
        assert(out@ =~= i32_le_bytes(clamp10(entries@.len() as int) as i32) + times_bytes(
            entries@,
            0,
        ));
    }
    let mut n: usize = 0;
    while n < TOP10_ENTRIES
        invariant
            n <= TOP10_ENTRIES,
            k as int == clamp10(entries@.len() as int),
            names1@ == names1_bytes(entries@, 10),
            names2@ == names2_bytes(entries@, 10),
            forall|j: int| 0 <= j < k ==> (#[trigger] entry_error(entries@[j])) is None,
            out@ == i32_le_bytes(clamp10(entries@.len() as int) as i32) + times_bytes(
                entries@,
                n as int,
            ),
        decreases TOP10_ENTRIES - n,
    {
        let t: i32 = if n < entries.len() {
            entries[n].time.0
        } else {
            0
        };
        append_i32_le(&mut out, t);
        proof {
            assert(i32_le_bytes(clamp10(entries@.len() as int) as i32) + times_bytes(
                entries@,
                n as int,
            ) + i32_le_bytes(time_slot(entries@, n as int)) =~= i32_le_bytes(
                clamp10(entries@.len() as int) as i32,
            ) + times_bytes(entries@, n as int + 1));
        }
        n = n + 1;
    }
    out.append(&mut names1);
    out.append(&mut names2);
    proof {
        lemma_table_error_skip(entries@, clamp10(entries@.len() as int));
        assert(out@ =~= sub_table_bytes(entries@));
    }
    Ok(out)
}

/// Serializes the whole best-times table to its 688 bytes: the single-player
/// sub-table, then the multi-player one. The first name that cannot be padded
/// aborts the whole write with its failure.
pub fn write_top10(best_times: &BestTimes) -> (r: Result<Vec<u8>, ElmaError>)
    ensures
        r is Ok <==> table_error(best_times.single@) is None && table_error(best_times.multi@)
            is None,
        r matches Ok(b) ==> b@ == top10_bytes(best_times.single@, best_times.multi@)
            && b@.len() == TOP10_SIZE as int,
        r matches Err(e) ==> Some(e) == (if table_error(best_times.single@) is Some {
            table_error(best_times.single@)
        } else {
            table_error(best_times.multi@)
        }),
{
    let mut out = match write_sub_table(&best_times.single) {
        Ok(b) => b,
        Err(e) => {
            return Err(e);
        },
    };
    let mut rest = match write_sub_table(&best_times.multi) {
        Ok(b) => b,
        Err(e) => {
            return Err(e);
        },
    };
    out.append(&mut rest);
    proof {
        lemma_sub_table_len(best_times.single@);
        lemma_sub_table_len(best_times.multi@);
    }
    Ok(out)
}

/// Parses one 344-byte sub-table into its entries. The stored count is
/// clamped to 0..=10; each counted row's time and name slots are read at
/// their fixed offsets, and the first bad name field aborts the parse.
pub fn parse_sub_table(data: &[u8]) -> (r: Result<Vec<TimeEntry>, ElmaError>)
    requires
        data@.len() == SUB_TABLE_SIZE as int,
    ensures
        r is Ok <==> sub_parse_ok(data@),
        r matches Ok(v) ==> sub_entries_match(data@, v@),
        r is Err ==> r == Err::<Vec<TimeEntry>, ElmaError>(ElmaError::InvalidEncoding),
{
    let raw = read_i32_le(&data[0..4]);
    let count: usize = if raw < 0 {
        0
    } else if raw > 10 {
        10
    } else {
        raw as usize
    };
    proof {
        assert(count as int == parsed_count(data@));
    }
    let mut list: Vec<TimeEntry> = Vec::new();
    let mut n: usize = 0;
    while n < count
        invariant
            data@.len() == SUB_TABLE_SIZE as int,
            count as int == parsed_count(data@),
            n <= count,
            count <= 10,
            list@.len() == n as int,
            forall|j: int| 0 <= j < n ==> row_ok(data@, j),
            forall|j: int|
                0 <= j < n ==> {
                    &&& (#[trigger] list@[j]).time.0 == parsed_time(data@, j)
                    &&& list@[j].names.0@ == parsed_name1(data@, j)
                    &&& list@[j].names.1@ == parsed_name2(data@, j)
                },
        decreases count - n,
    {
        let time_at = TIMES_OFFSET + n * 4;
        let t = read_i32_le(&data[time_at..time_at + 4]);
        let name_1_at = NAMES_1_OFFSET + n * NAME_WIDTH;
        let name_1 = match trim_string(&data[name_1_at..name_1_at + NAME_WIDTH]) {
            Ok(s) => s,
            Err(e) => {
                proof {
                    assert(!row_ok(data@, n as int));
                    assert(!sub_parse_ok(data@));
                }
                return Err(e);
            },
        };
        let name_2_at = NAMES_2_OFFSET + n * NAME_WIDTH;
        let name_2 = match trim_string(&data[name_2_at..name_2_at + NAME_WIDTH]) {
            Ok(s) => s,
            Err(e) => {
                proof {
                    assert(!row_ok(data@, n as int));
                    assert(!sub_parse_ok(data@));
                }
                return Err(e);
            },
        };
        list.push(TimeEntry { time: Time(t), names: (name_1, name_2) });
        n = n + 1;
    }
    Ok(list)
}

/// Parses the whole 688-byte table: the single-player sub-table, then the
/// multi-player one. The first bad name field aborts the whole parse.
pub fn parse_top10(buffer: &[u8]) -> (r: Result<BestTimes, ElmaError>)
    requires
        buffer@.len() == TOP10_SIZE as int,
    ensures
        r is Ok <==> sub_parse_ok(buffer@.subrange(0, SUB_TABLE_SIZE as int)) && sub_parse_ok(
            buffer@.subrange(SUB_TABLE_SIZE as int, TOP10_SIZE as int),
        ),
        r matches Ok(bt) ==> sub_entries_match(
            buffer@.subrange(0, SUB_TABLE_SIZE as int),
            bt.single@,
        ) && sub_entries_match(buffer@.subrange(SUB_TABLE_SIZE as int, TOP10_SIZE as int), bt.multi@),
        r is Err ==> r == Err::<BestTimes, ElmaError>(ElmaError::InvalidEncoding),
{
    let single = match parse_sub_table(&buffer[0..SUB_TABLE_SIZE]) {
        Ok(v) => v,
        Err(e) => {
            return Err(e);
        },
    };
    let multi = match parse_sub_table(&buffer[SUB_TABLE_SIZE..TOP10_SIZE]) {
        Ok(v) => v,
        Err(e) => {
            return Err(e);
        },
    };
    Ok(BestTimes { single, multi })
}

pub proof fn lemma_times_bytes_slot(es: Seq<TimeEntry>, m: int, n: int)
    requires
        0 <= n < m,
    ensures
        times_bytes(es, m).subrange(4 * n, 4 * n + 4) == i32_le_bytes(time_slot(es, n)),
    decreases m,
{
    lemma_times_bytes_len(es, m - 1);
    lemma_i32_le_round_trip(time_slot(es, m - 1));
    if n == m - 1 {
        assert(times_bytes(es, m).subrange(4 * n, 4 * n + 4) =~= i32_le_bytes(time_slot(es, n)));
    } else {
        lemma_times_bytes_slot(es, m - 1, n);
        lemma_i32_le_round_trip(time_slot(es, n));
        assert(times_bytes(es, m).subrange(4 * n, 4 * n + 4) =~= times_bytes(es, m - 1).subrange(
            4 * n,
            4 * n + 4,
        ));
    }
}

pub proof fn lemma_names_bytes_slot(es: Seq<TimeEntry>, m: int, n: int)
    requires
        0 <= n < m,
    ensures
        names1_bytes(es, m).subrange(15 * n, 15 * n + 15) == name1_slot(es, n),
        names2_bytes(es, m).subrange(15 * n, 15 * n + 15) == name2_slot(es, n),
    decreases m,
{
    lemma_names_bytes_len(es, m - 1);
    if n == m - 1 {
        assert(names1_bytes(es, m).subrange(15 * n, 15 * n + 15) =~= name1_slot(es, n));
        assert(names2_bytes(es, m).subrange(15 * n, 15 * n + 15) =~= name2_slot(es, n));
    } else {
        lemma_names_bytes_slot(es, m - 1, n);
        assert(names1_bytes(es, m).subrange(15 * n, 15 * n + 15) =~= names1_bytes(
            es,
            m - 1,
        ).subrange(15 * n, 15 * n + 15));
        assert(names2_bytes(es, m).subrange(15 * n, 15 * n + 15) =~= names2_bytes(
            es,
            m - 1,
        ).subrange(15 * n, 15 * n + 15));
    }
}

/// Every entry a sub-table write keeps has names that their fields store and
/// give back unchanged: ASCII, without a zero character, at most 15 bytes.
pub open spec fn entries_fit(es: Seq<TimeEntry>) -> bool {
    forall|n: int|
        0 <= n < clamp10(es.len() as int) ==> text_fits(
            (#[trigger] es[n]).names.0@,
            NAME_WIDTH as int,
        ) && text_fits(es[n].names.1@, NAME_WIDTH as int)
}

/// Round trip of one sub-table: when every kept entry's names fit their
/// fields, writing succeeds and parsing the written bytes back yields exactly
/// the first `min(len, 10)` entries, in order, times and names unchanged.
pub proof fn lemma_sub_table_round_trip(es: Seq<TimeEntry>)
    requires
        entries_fit(es),
    ensures
        table_error(es) is None,
        sub_parse_ok(sub_table_bytes(es)),
        sub_entries_match(sub_table_bytes(es), es.take(clamp10(es.len() as int))),
{
    let b = sub_table_bytes(es);
    let k = clamp10(es.len() as int);
    lemma_sub_table_len(es);
    lemma_times_bytes_len(es, 10);
    lemma_names_bytes_len(es, 10);
    lemma_i32_le_round_trip(k as i32);
    assert forall|j: int| 0 <= j < k implies (#[trigger] entry_error(es[j])) is None by {
        assert(text_fits(es[j].names.0@, NAME_WIDTH as int));
        assert(text_fits(es[j].names.1@, NAME_WIDTH as int));
    }
    lemma_table_error_skip(es, k);
    assert(b.subrange(0, 4) =~= i32_le_bytes(k as i32));
    assert(parsed_count(b) == k);
    assert forall|n: int| 0 <= n < parsed_count(b) implies row_ok(b, n) by {
        lemma_sub_table_row(es, n);
    }
    let kept = es.take(k);
    assert(kept.len() == k);
    assert forall|n: int| 0 <= n < kept.len() implies {
        &&& (#[trigger] kept[n]).time.0 == parsed_time(b, n)
        &&& kept[n].names.0@ == parsed_name1(b, n)
        &&& kept[n].names.1@ == parsed_name2(b, n)
    } by {
        lemma_sub_table_row(es, n);
        assert(kept[n] == es[n]);
    }
}

/// One row of a written sub-table reads back as the entry it was written
/// from: the stored time, and both names after trimming their padding.
proof fn lemma_sub_table_row(es: Seq<TimeEntry>, n: int)
    requires
        entries_fit(es),
        0 <= n < clamp10(es.len() as int),
    ensures
        parsed_time(sub_table_bytes(es), n) == es[n].time.0,
        row_ok(sub_table_bytes(es), n),
        parsed_name1(sub_table_bytes(es), n) == es[n].names.0@,
        parsed_name2(sub_table_bytes(es), n) == es[n].names.1@,
{
    let b = sub_table_bytes(es);
    lemma_sub_table_len(es);
    lemma_times_bytes_len(es, 10);
    lemma_names_bytes_len(es, 10);
    lemma_i32_le_round_trip(clamp10(es.len() as int) as i32);
    lemma_times_bytes_slot(es, 10, n);
    lemma_names_bytes_slot(es, 10, n);
    lemma_i32_le_round_trip(time_slot(es, n));
    assert(time_slot_bytes(b, n) =~= times_bytes(es, 10).subrange(4 * n, 4 * n + 4));
    assert(parsed_time(b, n) == time_slot(es, n));
    assert(name1_slot_bytes(b, n) =~= names1_bytes(es, 10).subrange(15 * n, 15 * n + 15));
    assert(name2_slot_bytes(b, n) =~= names2_bytes(es, 10).subrange(15 * n, 15 * n + 15));
    assert(name1_slot_bytes(b, n) == padded_bytes(es[n].names.0@, NAME_WIDTH as int));
    assert(name2_slot_bytes(b, n) == padded_bytes(es[n].names.1@, NAME_WIDTH as int));
    lemma_pad_trim_round_trip(es[n].names.0@, NAME_WIDTH as int);
    lemma_pad_trim_round_trip(es[n].names.1@, NAME_WIDTH as int);
}

/// Round trip of the whole table: when every kept entry's names fit their
/// fields, `write_top10`'s bytes succeed and parse back to exactly the first
/// `min(len, 10)` entries of each list, in order, times and names unchanged.
pub proof fn lemma_top10_round_trip(single: Seq<TimeEntry>, multi: Seq<TimeEntry>)
    requires
        entries_fit(single),
        entries_fit(multi),
    ensures
        table_error(single) is None,
        table_error(multi) is None,
        top10_bytes(single, multi).len() == TOP10_SIZE as int,
        sub_parse_ok(top10_bytes(single, multi).subrange(0, SUB_TABLE_SIZE as int)),
        sub_parse_ok(top10_bytes(single, multi).subrange(SUB_TABLE_SIZE as int, TOP10_SIZE as int)),
        sub_entries_match(
            top10_bytes(single, multi).subrange(0, SUB_TABLE_SIZE as int),
            single.take(clamp10(single.len() as int)),
        ),
        sub_entries_match(
            top10_bytes(single, multi).subrange(SUB_TABLE_SIZE as int, TOP10_SIZE as int),
            multi.take(clamp10(multi.len() as int)),
        ),
{
    lemma_sub_table_round_trip(single);
    lemma_sub_table_round_trip(multi);
    lemma_sub_table_len(single);
    lemma_sub_table_len(multi);
    assert(top10_bytes(single, multi).subrange(0, SUB_TABLE_SIZE as int) =~= sub_table_bytes(
        single,
    ));
    assert(top10_bytes(single, multi).subrange(SUB_TABLE_SIZE as int, TOP10_SIZE as int)
        =~= sub_table_bytes(multi));
}

/// Padding then trimming gives back the text: for ASCII text without a zero
/// character and no longer than the field, the padded field's trimmed bytes
/// are valid and decode to exactly the original text.
pub proof fn lemma_pad_trim_round_trip(text: Seq<char>, width: int)
    requires
        text_fits(text, width),
    ensures
        pad_error(text, width) is None,
        valid_utf8(trimmed_bytes(padded_bytes(text, width))),
        decode_utf8(trimmed_bytes(padded_bytes(text, width))) == text,
{
    let padded = padded_bytes(text, width);
    assert forall|j: int| 0 <= j < text.len() implies padded[j] != 0 by {
        assert(text[j] != '\0');
        if text[j] as u32 == 0 {
            vstd::utf8::char_u32_cast(text[j], 0);
            vstd::utf8::char_u32_cast('\0', 0);
            assert(false);
        }
    }
    lemma_first_null_at(padded, text.len() as int);
    is_ascii_chars_encode_utf8(text);
    assert(trimmed_bytes(padded) =~= encode_utf8(text));
    encode_utf8_valid_utf8(text);
    encode_utf8_decode_utf8(text);
}

} // verus!
