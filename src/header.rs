use chrono::{Local, TimeZone};
use vstd::bytes::*;
use vstd::prelude::*;
use vstd::slice::slice_subrange;
use vstd::string::StringSliceAdditionalSpecFns;

use crate::errors::AppError;

verus! {

/// Fixed text that every archive starts with.
pub const PREFIX: &'static str = "squish";

/// Format version written after the prefix, as `major.minor.patch`
/// with two digits per component.
pub const VERSION: &'static str = "00.01.01";

/// Length of the version text.
pub const VERSION_LEN: usize = 8;

/// Length of `major.minor.`, the part of the version that must match.
pub const SERIES_LEN: usize = 6;

/// Length of the whole header: prefix and version.
pub const MAGIC_LEN: usize = 14;

pub open spec fn prefix_bytes() -> Seq<u8> {
    PREFIX.spec_bytes()
}

pub open spec fn version_bytes() -> Seq<u8> {
    VERSION.spec_bytes()
}

/// The header that opens every archive written by this version.
pub open spec fn magic_bytes() -> Seq<u8> {
    prefix_bytes() + version_bytes()
}

/// `major.minor.` of the running version.
pub open spec fn series_bytes() -> Seq<u8> {
    version_bytes().subrange(0, SERIES_LEN as int)
}

/// The lengths of the header parts, as the constants state them.
pub proof fn lemma_magic_lengths()
    ensures
        prefix_bytes().len() == MAGIC_LEN - VERSION_LEN,
        version_bytes().len() == VERSION_LEN,
        magic_bytes().len() == MAGIC_LEN,
        version_bytes()[2] == version_bytes()[5],
{
    reveal_strlit("squish");
    reveal_strlit("00.01.01");
    vstd::string::is_ascii_spec_bytes(PREFIX);
    vstd::string::is_ascii_spec_bytes(VERSION);
}

/// Whether `v` holds a `.` that separates two version components.
pub open spec fn has_separator(v: Seq<u8>) -> bool {
    exists|i: int| 0 <= i < v.len() && v[i] == version_bytes()[2]
}

/// What reading a header from the start of `data` gives: the version text,
/// or why it was refused.
pub open spec fn spec_verify_header(data: Seq<u8>) -> Result<Seq<char>, AppError> {
    let v = data.subrange(MAGIC_LEN - VERSION_LEN, MAGIC_LEN as int);
    if data.len() < MAGIC_LEN {
        Err(AppError::UnexpectedEof)
    } else if data.subrange(0, MAGIC_LEN - VERSION_LEN) != prefix_bytes() {
        Err(AppError::InvalidFormat)
    } else if !vstd::utf8::valid_utf8(v) || !has_separator(v) {
        Err(AppError::InvalidFormat)
    } else if v.subrange(0, SERIES_LEN as int) != series_bytes() {
        Err(AppError::IncompatibleVersion)
    } else {
        Ok(vstd::utf8::decode_utf8(v))
    }
}

/// Relies on std::str::from_utf8: it accepts exactly the valid UTF-8
/// sequences, and the text it returns is their decoding.
#[verifier::external_body]
fn utf8_text(b: &[u8]) -> (r: Option<String>)
    ensures
        r.is_some() == vstd::utf8::valid_utf8(b@),
        r.is_some() ==> r->0@ == vstd::utf8::decode_utf8(b@),
{
    std::str::from_utf8(b).ok().map(|s| s.to_string())
}

/// Text of `b`, if `b` is valid UTF-8.
pub fn decode_text(b: &[u8]) -> (r: Option<String>)
    ensures
        r.is_some() == vstd::utf8::valid_utf8(b@),
        r.is_some() ==> r->0@ == vstd::utf8::decode_utf8(b@),
        r.is_some() ==> vstd::utf8::encode_utf8(r->0@) == b@,
{
    let r = utf8_text(b);
    proof {
        if r.is_some() {
            vstd::utf8::decode_utf8_encode_utf8(b@);
        }
    }
    r
}

/// The prefix followed by the running version.
pub fn magic_version() -> (r: Vec<u8>)
    ensures
        r@ == magic_bytes(),
{
    let mut r: Vec<u8> = Vec::new();
    r.extend_from_slice(PREFIX.as_bytes());
    r.extend_from_slice(VERSION.as_bytes());
    assert(r@ =~= magic_bytes());
    r
}

/// Appends the archive header to `out`.
pub fn write_header(out: &mut Vec<u8>)
    ensures
        final(out)@ == old(out)@ + magic_bytes(),
{
    let m = magic_version();
    out.extend_from_slice(m.as_slice());
    assert(final(out)@ =~= old(out)@ + magic_bytes());
}

/// Appends `timestamp`, seconds since the UNIX epoch, as 8 little-endian bytes.
pub fn write_timestamp(out: &mut Vec<u8>, timestamp: u64)
    ensures
        final(out)@ == old(out)@ + spec_u64_to_le_bytes(timestamp),
{
    write_u64(out, timestamp);
}

/// Appends `value` as 8 little-endian bytes.
pub fn write_u64(out: &mut Vec<u8>, value: u64)
    ensures
        final(out)@ == old(out)@ + spec_u64_to_le_bytes(value),
{
    let b = u64_to_le_bytes(value);
    out.extend_from_slice(b.as_slice());
    assert(final(out)@ =~= old(out)@ + spec_u64_to_le_bytes(value));
}

/// Appends `value` as 4 little-endian bytes.
pub fn write_u32(out: &mut Vec<u8>, value: u32)
    ensures
        final(out)@ == old(out)@ + spec_u32_to_le_bytes(value),
{
    let b = u32_to_le_bytes(value);
    out.extend_from_slice(b.as_slice());
    assert(final(out)@ =~= old(out)@ + spec_u32_to_le_bytes(value));
}

/// Reserves 8 zero bytes for a count that is not known yet, and returns
/// the offset at which they stand.
pub fn write_placeholder_u64(out: &mut Vec<u8>) -> (pos: u64)
    requires
        old(out)@.len() <= u64::MAX,
    ensures
        pos == old(out)@.len(),
        final(out)@ == old(out)@ + spec_u64_to_le_bytes(0),
{
    let pos = out.len() as u64;
    write_u64(out, 0);
    pos
}

/// Overwrites the 8 bytes at `pos` with `value` in little-endian order,
/// leaving the rest of `out` as it was.
pub fn patch_u64(out: &mut Vec<u8>, pos: u64, value: u64)
    requires
        pos + 8 <= old(out)@.len(),
    ensures
        final(out)@ == old(out)@.subrange(0, pos as int) + spec_u64_to_le_bytes(value)
            + old(out)@.subrange(pos + 8, old(out)@.len() as int),
{
    let b = u64_to_le_bytes(value);
    proof {
        lemma_auto_spec_u64_to_from_le_bytes();
    }
    let n = out.len();
    assert(pos < n);
    let start = pos as usize;
    let mut i: usize = 0;
    while i < 8
        invariant
            b@ == spec_u64_to_le_bytes(value),
            b@.len() == 8,
            start == pos,
            n == old(out)@.len(),
            start + 8 <= old(out)@.len(),
            0 <= i <= 8,
            out@.len() == old(out)@.len(),
            forall|j: int|
                0 <= j < out@.len() ==> #[trigger] out@[j] == if start <= j < start + i {
                    b@[j - start]
                } else {
                    old(out)@[j]
                },
        decreases 8 - i,
    {
        out.set(start + i, b[i]);
        i = i + 1;
    }
    assert(out@ =~= old(out)@.subrange(0, pos as int) + spec_u64_to_le_bytes(value)
        + old(out)@.subrange(pos + 8, old(out)@.len() as int));
}

/// Reads and checks the archive header at the start of `data`: the prefix
/// must match, and the version's major and minor components must equal the
/// running version's. Returns the archive's version text.
pub fn verify_header(data: &[u8]) -> (r: Result<String, AppError>)
    ensures
        r matches Ok(s) ==> spec_verify_header(data@) == Ok::<Seq<char>, AppError>(s@),
        r matches Err(e) ==> spec_verify_header(data@) == Err::<Seq<char>, AppError>(e),
{
    proof {
        lemma_magic_lengths();
    }
    if data.len() < MAGIC_LEN {
        return Err(AppError::UnexpectedEof);
    }
    let p = PREFIX.as_bytes();
    let plen = MAGIC_LEN - VERSION_LEN;
    let mut i: usize = 0;
    while i < plen
        invariant
            p@ == prefix_bytes(),
            plen == p@.len(),
            plen == MAGIC_LEN - VERSION_LEN,
            data@.len() >= MAGIC_LEN,
            i <= plen,
            forall|j: int| 0 <= j < i ==> data@[j] == p@[j],
        decreases plen - i,
    {
        if data[i] != p[i] {
            assert(data@.subrange(0, plen as int)[i as int] != prefix_bytes()[i as int]);
            return Err(AppError::InvalidFormat);
        }
        i = i + 1;
    }
    assert(data@.subrange(0, plen as int) =~= prefix_bytes());
    let v = slice_subrange(data, plen, MAGIC_LEN);
    let text = match decode_text(v) {
        Some(t) => t,
        None => {
            return Err(AppError::InvalidFormat);
        },
    };
    let cur = VERSION.as_bytes();
    let mut found = false;
    let mut k: usize = 0;
    while k < VERSION_LEN
        invariant
            v@.len() == VERSION_LEN,
            cur@ == version_bytes(),
            cur@.len() == VERSION_LEN,
            k <= VERSION_LEN,
            found == exists|j: int| 0 <= j < k && v@[j] == version_bytes()[2],
        decreases VERSION_LEN - k,
    {
        if v[k] == cur[2] {
            found = true;
        }
        k = k + 1;
    }
    if !found {
        return Err(AppError::InvalidFormat);
    }
    assert(has_separator(v@));
    let mut m: usize = 0;
    while m < SERIES_LEN
        invariant
            v@.len() == VERSION_LEN,
            cur@ == version_bytes(),
            cur@.len() == VERSION_LEN,
            m <= SERIES_LEN,
            v@ == data@.subrange(MAGIC_LEN - VERSION_LEN, MAGIC_LEN as int),
            data@.len() >= MAGIC_LEN,
            data@.subrange(0, MAGIC_LEN - VERSION_LEN) == prefix_bytes(),
            vstd::utf8::valid_utf8(v@),
            has_separator(v@),
            forall|j: int| 0 <= j < m ==> v@[j] == cur@[j],
        decreases SERIES_LEN - m,
    {
        if v[m] != cur[m] {
            assert(v@.subrange(0, SERIES_LEN as int)[m as int] != series_bytes()[m as int]);
            return Err(AppError::IncompatibleVersion);
        }
        m = m + 1;
    }
    assert(v@.subrange(0, SERIES_LEN as int) =~= series_bytes());
    Ok(text)
}

/// Whether chrono can represent `seconds` after the UNIX epoch as a date.
pub uninterp spec fn chrono_in_range(seconds: i64) -> bool;

/// Relies on chrono: `Local.timestamp_opt(seconds, 0)` names a single local
/// time exactly when `DateTime::from_timestamp(seconds, 0)` is in range,
/// which every time up to the end of year 9999 is; formatted as
/// `HH:MM DD/MM/YYYY`. The text depends on the machine's time zone.
#[verifier::external_body]
fn local_date_text(seconds: i64) -> (r: Option<String>)
    ensures
        r.is_some() == chrono_in_range(seconds),
        0 <= seconds <= 253402300799 ==> r.is_some(),
{
    Local.timestamp_opt(seconds, 0).single().map(|d| d.format("%H:%M %d/%m/%Y").to_string())
}

/// Whether a creation time can be shown as a date.
pub open spec fn date_representable(timestamp_sec: u64) -> bool {
    timestamp_sec <= i64::MAX && chrono_in_range(timestamp_sec as i64)
}

/// The local date and time of `timestamp_sec` (seconds since the UNIX epoch),
/// as `HH:MM DD/MM/YYYY`.
pub fn convert_timestamp_to_date(timestamp_sec: u64) -> (r: Result<String, AppError>)
    ensures
        r is Ok <==> date_representable(timestamp_sec),
        timestamp_sec <= 253402300799 ==> r is Ok,
        r matches Err(e) ==> e == AppError::InvalidTimeStamp(timestamp_sec),
{
    if timestamp_sec > i64::MAX as u64 {
        return Err(AppError::InvalidTimeStamp(timestamp_sec));
    }
    match local_date_text(timestamp_sec as i64) {
        Some(s) => Ok(s),
        None => Err(AppError::InvalidTimeStamp(timestamp_sec)),
    }
}

} // verus!
