//! The GPS receiver's protocol: configuration commands, the position fix, and
//! the streaming parser that turns serial bytes into fixes.

use vstd::prelude::*;
use vstd::string::StringSliceAdditionalSpecFns;
use crate::geometry::{Direction, Point, displacement};

verus! {

/// A configuration command of the receiver.
#[derive(Clone, Copy, Debug, PartialEq, Eq, Structural)]
pub enum Command {
    HotStart,
    WarmStart,
    ColdStart,
    FullColdStart,
    SetPerpetualStandbyMode,
    SetPeriodicMode,
    SetNormalMode,
    SetPeriodicBackupMode,
    SetPeriodicStandbyMode,
    SetPerpetualBackupMode,
    SetAlwaysLocateStandbyMode,
    SetAlwaysLocateBackupMode,
    SetPosFix,
    SetPosFix100ms,
    SetPosFix200ms,
    SetPosFix400ms,
    SetPosFix800ms,
    SetPosFix1s,
    SetPosFix2s,
    SetPosFix4s,
    SetPosFix8s,
    SetPosFix10s,
    SetSyncPpsNmeaOff,
    SetSyncPpsNmeaOn,
    SetNmeaBaudrate,
    SetNmeaBaudrate115200,
    SetNmeaBaudrate57600,
    SetNmeaBaudrate38400,
    SetNmeaBaudrate19200,
    SetNmeaBaudrate14400,
    SetNmeaBaudrate9600,
    SetNmeaBaudrate4800,
    SetReduction,
    SetNmeaOutput,
}

/// The text of a command, from its start marker to its last parameter.
pub open spec fn command_text(c: Command) -> Seq<char> {
    match c {
        Command::HotStart => "$PMTK101"@,
        Command::WarmStart => "$PMTK102"@,
        Command::ColdStart => "$PMTK103"@,
        Command::FullColdStart => "$PMTK104"@,
        Command::SetPerpetualStandbyMode => "$PMTK161"@,
        Command::SetPeriodicMode => "$PMTK225"@,
        Command::SetNormalMode => "$PMTK225,0"@,
        Command::SetPeriodicBackupMode => "$PMTK225,1,1000,2000"@,
        Command::SetPeriodicStandbyMode => "$PMTK225,2,1000,2000"@,
        Command::SetPerpetualBackupMode => "$PMTK225,4"@,
        Command::SetAlwaysLocateStandbyMode => "$PMTK225,8"@,
        Command::SetAlwaysLocateBackupMode => "$PMTK225,9"@,
        Command::SetPosFix => "$PMTK220"@,
        Command::SetPosFix100ms => "$PMTK220,100"@,
        Command::SetPosFix200ms => "$PMTK220,200"@,
        Command::SetPosFix400ms => "$PMTK220,400"@,
        Command::SetPosFix800ms => "$PMTK220,800"@,
        Command::SetPosFix1s => "$PMTK220,1000"@,
        Command::SetPosFix2s => "$PMTK220,2000"@,
        Command::SetPosFix4s => "$PMTK220,4000"@,
        Command::SetPosFix8s => "$PMTK220,8000"@,
        Command::SetPosFix10s => "$PMTK220,10000"@,
        Command::SetSyncPpsNmeaOff => "$PMTK255,0"@,
        Command::SetSyncPpsNmeaOn => "$PMTK255,1"@,
        Command::SetNmeaBaudrate => "$PMTK251"@,
        Command::SetNmeaBaudrate115200 => "$PMTK251,115200"@,
        Command::SetNmeaBaudrate57600 => "$PMTK251,57600"@,
        Command::SetNmeaBaudrate38400 => "$PMTK251,38400"@,
        Command::SetNmeaBaudrate19200 => "$PMTK251,19200"@,
        Command::SetNmeaBaudrate14400 => "$PMTK251,14400"@,
        Command::SetNmeaBaudrate9600 => "$PMTK251,9600"@,
        Command::SetNmeaBaudrate4800 => "$PMTK251,4800"@,
        Command::SetReduction => "$PMTK314,-1"@,
        Command::SetNmeaOutput => "$PMTK314,1,1,1,1,1,1,1,1,0,0,0,0,0,0,0,0,0,1,0"@,
    }
}

impl Command {
    pub fn as_str(&self) -> (r: &'static str)
        ensures
            r@ == command_text(*self),
    {
        match self {
            Command::HotStart => "$PMTK101",
            Command::WarmStart => "$PMTK102",
            Command::ColdStart => "$PMTK103",
            Command::FullColdStart => "$PMTK104",
            Command::SetPerpetualStandbyMode => "$PMTK161",
            Command::SetPeriodicMode => "$PMTK225",
            Command::SetNormalMode => "$PMTK225,0",
            Command::SetPeriodicBackupMode => "$PMTK225,1,1000,2000",
            Command::SetPeriodicStandbyMode => "$PMTK225,2,1000,2000",
            Command::SetPerpetualBackupMode => "$PMTK225,4",
            Command::SetAlwaysLocateStandbyMode => "$PMTK225,8",
            Command::SetAlwaysLocateBackupMode => "$PMTK225,9",
            Command::SetPosFix => "$PMTK220",
            Command::SetPosFix100ms => "$PMTK220,100",
            Command::SetPosFix200ms => "$PMTK220,200",
            Command::SetPosFix400ms => "$PMTK220,400",
            Command::SetPosFix800ms => "$PMTK220,800",
            Command::SetPosFix1s => "$PMTK220,1000",
            Command::SetPosFix2s => "$PMTK220,2000",
            Command::SetPosFix4s => "$PMTK220,4000",
            Command::SetPosFix8s => "$PMTK220,8000",
            Command::SetPosFix10s => "$PMTK220,10000",
            Command::SetSyncPpsNmeaOff => "$PMTK255,0",
            Command::SetSyncPpsNmeaOn => "$PMTK255,1",
            Command::SetNmeaBaudrate => "$PMTK251",
            Command::SetNmeaBaudrate115200 => "$PMTK251,115200",
            Command::SetNmeaBaudrate57600 => "$PMTK251,57600",
            Command::SetNmeaBaudrate38400 => "$PMTK251,38400",
            Command::SetNmeaBaudrate19200 => "$PMTK251,19200",
            Command::SetNmeaBaudrate14400 => "$PMTK251,14400",
            Command::SetNmeaBaudrate9600 => "$PMTK251,9600",
            Command::SetNmeaBaudrate4800 => "$PMTK251,4800",
            Command::SetReduction => "$PMTK314,-1",
            Command::SetNmeaOutput => "$PMTK314,1,1,1,1,1,1,1,1,0,0,0,0,0,0,0,0,0,1,0",
        }
    }
}


/// The XOR of all bytes of `s`.
pub open spec fn xor_all(s: Seq<u8>) -> u8
    decreases s.len(),
{
    if s.len() == 0 {
        0
    } else {
        xor_all(s.drop_last()) ^ s.last()
    }
}

/// The checksum of a command: the XOR of its bytes after the start marker.
pub open spec fn checksum(text: Seq<u8>) -> u8 {
    if text.len() == 0 {
        0
    } else {
        xor_all(text.subrange(1, text.len() as int))
    }
}

/// The upper-case hexadecimal digit of `n`, below 16.
pub open spec fn hex_digit(n: int) -> u8 {
    if n < 10 {
        (48 + n) as u8
    } else {
        (55 + n) as u8
    }
}

/// A command as sent on the wire: `<text>*<checksum in two hex digits>\r\n`.
pub open spec fn framed(text: Seq<u8>) -> Seq<u8> {
    let c = checksum(text) as int;
    text + seq![42u8, hex_digit(c / 16), hex_digit(c % 16), 13u8, 10u8]
}

fn hex_digit_of(n: u8) -> (r: u8)
    requires
        n < 16,
    ensures
        r == hex_digit(n as int),
{
    if n < 10 {
        48 + n
    } else {
        55 + n
    }
}

/// Frames a command text for transmission, appending its checksum and a line end.
pub fn frame_command(command: &str) -> (r: Vec<u8>)
    ensures
        r@ == framed(command.spec_bytes()),
{
    let text = command.as_bytes();
    let mut out: Vec<u8> = Vec::new();
    let mut sum: u8 = 0;
    let mut i: usize = 0;
    while i < text.len()
        invariant
            text@ == command.spec_bytes(),
            i <= text@.len(),
            out@ == text@.subrange(0, i as int),
            i == 0 ==> sum == 0,
            i > 0 ==> sum == xor_all(text@.subrange(1, i as int)),
        decreases text.len() - i,
    {
        if i > 0 {
            assert(text@.subrange(1, i + 1).drop_last() == text@.subrange(1, i as int));
            sum = sum ^ text[i];
        } else {
            assert(text@.subrange(1, 1).len() == 0);
        }
        out.push(text[i]);
        i = i + 1;
        assert(out@ == text@.subrange(0, i as int));
    }
    assert(text@.subrange(0, text@.len() as int) == text@);
    out.push(42u8);
    out.push(hex_digit_of(sum / 16));
    out.push(hex_digit_of(sum % 16));
    out.push(13u8);
    out.push(10u8);
    out
}

/// Raw coordinates above this, in millionths of the `dddmm.mmmm` reading (180
/// degrees), are no coordinate.
pub const MAX_RAW_COORDINATE: i64 = 18_000_000_000;

/// Hours added to the receiver's UTC time of day.
pub const TIME_ZONE_OFFSET_HOURS: u32 = 8;

/// One position fix. `lat` and `lon` are the receiver's `ddmm.mmmm` /
/// `dddmm.mmmm` readings in millionths; `lat_area` and `lon_area` are the
/// hemisphere markers (`N`/`S`, `E`/`W`); `status` is 1 for a valid fix and 0
/// otherwise.
#[derive(Clone, Copy, Debug, PartialEq, Eq, Structural)]
pub struct GNRMC {
    pub lon: i64,
    pub lat: i64,
    pub lon_area: u8,
    pub lat_area: u8,
    pub time_h: u8,
    pub time_m: u8,
    pub time_s: u8,
    pub status: u8,
}

/// The empty fix: every field zero, status invalid.
pub open spec fn empty_fix() -> GNRMC {
    GNRMC { lon: 0, lat: 0, lon_area: 0, lat_area: 0, time_h: 0, time_m: 0, time_s: 0, status: 0 }
}

impl Default for GNRMC {
    fn default() -> (r: GNRMC)
        ensures
            r == empty_fix(),
    {
        GNRMC { lon: 0, lat: 0, lon_area: 0, lat_area: 0, time_h: 0, time_m: 0, time_s: 0, status: 0 }
    }
}

/// A raw `ddmm.mmmm` reading in millionths, as ten-millionths of a degree,
/// rounded down.
pub open spec fn decimal_degrees(raw: int) -> int {
    (raw / 100_000_000) * 10_000_000 + (raw % 100_000_000) / 6
}

/// `v`, negated where the hemisphere marker is `negative`.
pub open spec fn signed_by(v: int, area: u8, negative: u8) -> int {
    if area == negative {
        -v
    } else {
        v
    }
}

impl GNRMC {
    /// Both raw coordinates are readings that the parser can produce.
    pub open spec fn wf(&self) -> bool {
        0 <= self.lat <= MAX_RAW_COORDINATE && 0 <= self.lon <= MAX_RAW_COORDINATE
    }

    /// The point that the fix names, south and west negative.
    pub open spec fn point(&self) -> Point {
        Point {
            lat: signed_by(decimal_degrees(self.lat as int), self.lat_area, 83) as i32,
            lon: signed_by(decimal_degrees(self.lon as int), self.lon_area, 87) as i32,
        }
    }

    pub fn is_valid(&self) -> (r: bool)
        ensures
            r == (self.status == 1),
    {
        self.status == 1
    }

    /// The fix as a decimal-degree point.
    pub fn google_coordinates(&self) -> (r: Point)
        requires
            self.wf(),
        ensures
            r == self.point(),
            r.lat == signed_by(decimal_degrees(self.lat as int), self.lat_area, 83),
            r.lon == signed_by(decimal_degrees(self.lon as int), self.lon_area, 87),
    {
        let lat = raw_to_decimal(self.lat);
        let lon = raw_to_decimal(self.lon);
        Point {
            lat: if self.lat_area == 83 { -lat } else { lat },
            lon: if self.lon_area == 87 { -lon } else { lon },
        }
    }
}

fn raw_to_decimal(raw: i64) -> (r: i32)
    requires
        0 <= raw <= MAX_RAW_COORDINATE,
    ensures
        r == decimal_degrees(raw as int),
        0 <= r <= 1_816_666_666,
{
    let degrees: i64 = raw / 100_000_000;
    let minutes: i64 = raw % 100_000_000;
    (degrees * 10_000_000 + minutes / 6) as i32
}


/// An ASCII decimal digit.
pub open spec fn is_digit(b: u8) -> bool {
    48 <= b <= 57
}

pub open spec fn all_digits(s: Seq<u8>) -> bool {
    forall|i: int| 0 <= i < s.len() ==> is_digit(#[trigger] s[i])
}

/// The number that a string of decimal digits writes.
pub open spec fn digits_value(s: Seq<u8>) -> int
    decreases s.len(),
{
    if s.len() == 0 {
        0
    } else {
        digits_value(s.drop_last()) * 10 + (s.last() - 48)
    }
}

pub open spec fn pow10(n: nat) -> int
    decreases n,
{
    if n == 0 {
        1
    } else {
        10 * pow10((n - 1) as nat)
    }
}

/// The index of the first `.` at or after `i`, or the length.
pub open spec fn dot_from(s: Seq<u8>, i: int) -> int
    decreases s.len() - i,
{
    if i >= s.len() {
        s.len() as int
    } else if s[i] == 46 {
        i
    } else {
        dot_from(s, i + 1)
    }
}

/// The first six digits of a fraction, padded with zeros.
pub open spec fn six_places(f: Seq<u8>) -> Seq<u8> {
    Seq::new(6, |q: int| if q < f.len() { f[q] } else { 48u8 })
}

/// A decimal number `digits[.digits]` (with at least one digit on either
/// side of the point), in millionths; further places are cut off.
pub open spec fn decimal_millionths(s: Seq<u8>) -> Option<int> {
    let k = dot_from(s, 0);
    let whole = s.take(k);
    let frac = if k < s.len() { s.skip(k + 1) } else { Seq::<u8>::empty() };
    if all_digits(whole) && all_digits(frac) && whole.len() + frac.len() > 0 {
        Some(digits_value(whole) * 1_000_000 + digits_value(six_places(frac)))
    } else {
        None
    }
}

/// A raw coordinate field: a decimal number no larger than the largest reading.
pub open spec fn coordinate_value(s: Seq<u8>) -> Option<int> {
    match decimal_millionths(s) {
        Some(v) => if v <= MAX_RAW_COORDINATE { Some(v) } else { None },
        None => None,
    }
}

proof fn lemma_digits_bounds(s: Seq<u8>)
    requires
        all_digits(s),
    ensures
        0 <= digits_value(s) < pow10(s.len()),
    decreases s.len(),
{
    if s.len() > 0 {
        let t = s.drop_last();
        assert forall|i: int| 0 <= i < t.len() implies is_digit(#[trigger] t[i]) by {
            assert(t[i] == s[i]);
        }
        lemma_digits_bounds(t);
        assert(is_digit(s[s.len() - 1]));
    }
}

proof fn lemma_digits_monotone(s: Seq<u8>, i: int, j: int)
    requires
        all_digits(s),
        0 <= i <= j <= s.len(),
    ensures
        digits_value(s.take(i)) <= digits_value(s.take(j)),
    decreases j - i,
{
    if i < j {
        lemma_digits_monotone(s, i, j - 1);
        let t = s.take(j);
        assert(t.drop_last() =~= s.take(j - 1));
        assert(is_digit(s[j - 1]));
        assert forall|q: int| 0 <= q < j - 1 implies is_digit(#[trigger] s.take(j - 1)[q]) by {
            assert(s.take(j - 1)[q] == s[q]);
        }
        lemma_digits_bounds(s.take(j - 1));
    }
}

/// Reads a raw coordinate field, in millionths.
pub fn parse_coordinate(s: &[u8]) -> (r: Option<i64>)
    ensures
        r matches Some(v) ==> coordinate_value(s@) == Some(v as int),
        r matches Some(v) ==> 0 <= v <= MAX_RAW_COORDINATE,
        r is None ==> coordinate_value(s@) is None,
{
    let n = s.len();
    let mut k: usize = 0;
    while k < n && s[k] != 46
        invariant
            k <= n == s@.len(),
            dot_from(s@, 0) == dot_from(s@, k as int),
        decreases n - k,
    {
        k = k + 1;
    }
    let ghost whole = s@.take(k as int);
    let mut value: i64 = 0;
    let mut i: usize = 0;
    while i < k
        invariant
            i <= k <= n == s@.len(),
            k as int == dot_from(s@, 0),
            whole == s@.take(k as int),
            all_digits(s@.take(i as int)),
            value == digits_value(s@.take(i as int)),
            0 <= value <= 18_000,
        decreases k - i,
    {
        let b = s[i];
        if b < 48 || b > 57 {
            assert(!is_digit(whole[i as int]));
            return None;
        }
        assert(s@.take(i + 1).drop_last() =~= s@.take(i as int));
        assert(all_digits(s@.take(i + 1))) by {
            assert forall|q: int| 0 <= q < i + 1 implies is_digit(#[trigger] s@.take(i + 1)[q]) by {
                if q < i {
                    assert(s@.take(i + 1)[q] == s@.take(i as int)[q]);
                }
            }
        }
        let next: i64 = value * 10 + (b - 48) as i64;
        if next > 18_000 {
            proof {
                if all_digits(whole) {
                    lemma_digits_monotone(whole, i + 1, k as int);
                    assert(whole.take(i + 1) =~= s@.take(i + 1));
                    assert(whole.take(k as int) =~= whole);
                    let k2 = dot_from(s@, 0);
                    let frac = if k2 < s@.len() { s@.skip(k2 + 1) } else { Seq::<u8>::empty() };
                    if all_digits(frac) {
                        assert forall|q: int| 0 <= q < 6 implies is_digit(#[trigger] six_places(frac)[q]) by {}
                        lemma_digits_bounds(six_places(frac));
                    }
                }
            }
            return None;
        }
        value = next;
        i = i + 1;
    }
    assert(s@.take(k as int) == whole);
    let start: usize = if k < n { k + 1 } else { n };
    let ghost frac = if (k as int) < s@.len() { s@.skip(k + 1) } else { Seq::<u8>::empty() };
    assert(frac =~= s@.subrange(start as int, n as int));
    let mut j: usize = start;
    while j < n
        invariant
            start <= j <= n == s@.len(),
            k <= n,
            k as int == dot_from(s@, 0),
            frac == s@.subrange(start as int, n as int),
            frac == (if (k as int) < s@.len() { s@.skip(k + 1) } else { Seq::<u8>::empty() }),
            forall|q: int| start <= q < j ==> is_digit(#[trigger] s@[q]),
        decreases n - j,
    {
        if s[j] < 48 || s[j] > 57 {
            assert(!is_digit(frac[j - start]));
            return None;
        }
        j = j + 1;
    }
    assert(all_digits(frac)) by {
        assert forall|q: int| 0 <= q < frac.len() implies is_digit(#[trigger] frac[q]) by {
            assert(frac[q] == s@[start + q]);
        }
    }
    if k == 0 && start == n {
        assert(whole.len() == 0 && frac.len() == 0);
        return None;
    }
    let ghost six = six_places(frac);
    let mut part: i64 = 0;
    let mut q: usize = 0;
    while q < 6
        invariant
            q <= 6,
            start <= n == s@.len(),
            frac == s@.subrange(start as int, n as int),
            all_digits(frac),
            six == six_places(frac),
            part == digits_value(six.take(q as int)),
            0 <= part < pow10(q as nat),
        decreases 6 - q,
    {
        if q < n - start {
            assert(frac[q as int] == s@[start + q]);
            assert(is_digit(frac[q as int]));
        }
        let d: u8 = if q < n - start { s[start + q] - 48 } else { 0 };
        assert(six.take(q + 1).drop_last() =~= six.take(q as int));
        assert(d == six[q as int] - 48);
        assert(pow10(q as nat) <= 100_000) by {
            reveal_with_fuel(pow10, 6);
        }
        part = part * 10 + d as i64;
        q = q + 1;
    }
    assert(six.take(6) =~= six);
    assert(pow10(6) == 1_000_000) by {
        reveal_with_fuel(pow10, 7);
    }
    let total: i64 = value * 1_000_000 + part;
    if total > MAX_RAW_COORDINATE {
        None
    } else {
        Some(total)
    }
}

/// A time field: its first six characters are digits `hhmmss`.
pub open spec fn time_value(f: Seq<u8>) -> Option<int> {
    if f.len() >= 6 && all_digits(f.take(6)) {
        Some(digits_value(f.take(6)))
    } else {
        None
    }
}

/// Reads the `hhmmss` that opens a time field.
pub fn parse_time(f: &[u8]) -> (r: Option<u32>)
    ensures
        r matches Some(t) ==> time_value(f@) == Some(t as int),
        r is None ==> time_value(f@) is None,
{
    if f.len() < 6 {
        return None;
    }
    let mut t: u32 = 0;
    let mut q: usize = 0;
    while q < 6
        invariant
            q <= 6 <= f@.len(),
            all_digits(f@.take(q as int)),
            t == digits_value(f@.take(q as int)),
            0 <= t < pow10(q as nat),
        decreases 6 - q,
    {
        let b = f[q];
        if b < 48 || b > 57 {
            assert(!is_digit(f@.take(6)[q as int]));
            return None;
        }
        assert(f@.take(q + 1).drop_last() =~= f@.take(q as int));
        assert(all_digits(f@.take(q + 1))) by {
            assert forall|i: int| 0 <= i < q + 1 implies is_digit(#[trigger] f@.take(q + 1)[i]) by {
                if i < q {
                    assert(f@.take(q + 1)[i] == f@.take(q as int)[i]);
                }
            }
        }
        assert(pow10(q as nat) <= 100_000) by {
            reveal_with_fuel(pow10, 6);
        }
        t = t * 10 + (b - 48) as u32;
        q = q + 1;
    }
    Some(t)
}

/// ASCII white space, as `str::trim` removes it.
pub open spec fn is_space(b: u8) -> bool {
    b == 32 || (9 <= b <= 13)
}

/// The bytes of `s` that are not white space.
pub open spec fn non_space(s: Seq<u8>) -> Seq<u8>
    decreases s.len(),
{
    if s.len() == 0 {
        s
    } else if is_space(s.last()) {
        non_space(s.drop_last())
    } else {
        non_space(s.drop_last()).push(s.last())
    }
}

/// The status field marks a valid fix: `A`, with white space around it at most.
pub open spec fn status_active(f: Seq<u8>) -> bool {
    non_space(f) == seq![65u8]
}

pub fn parse_status(f: &[u8]) -> (r: bool)
    ensures
        r == status_active(f@),
{
    let mut count: usize = 0;
    let mut first_a = false;
    let mut i: usize = 0;
    while i < f.len()
        invariant
            i <= f@.len(),
            count <= i,
            count == non_space(f@.take(i as int)).len(),
            first_a == (count >= 1 && non_space(f@.take(i as int))[0] == 65u8),
        decreases f.len() - i,
    {
        assert(f@.take(i + 1).drop_last() =~= f@.take(i as int));
        let b = f[i];
        if !(b == 32 || (9 <= b && b <= 13)) {
            if count == 0 {
                first_a = b == 65;
            }
            count = count + 1;
        }
        i = i + 1;
    }
    assert(f@.take(f@.len() as int) =~= f@);
    if count == 1 && first_a {
        assert(non_space(f@) =~= seq![65u8]);
    }
    count == 1 && first_a
}


/// The fields of a sentence, split at every `,`.
pub open spec fn split_fields(s: Seq<u8>) -> Seq<Seq<u8>>
    decreases s.len(),
{
    if s.len() == 0 {
        seq![Seq::<u8>::empty()]
    } else {
        let init = split_fields(s.drop_last());
        if s.last() == 44 {
            init.push(Seq::<u8>::empty())
        } else {
            init.update(init.len() - 1, init.last().push(s.last()))
        }
    }
}

proof fn lemma_split_nonempty(s: Seq<u8>)
    ensures
        split_fields(s).len() >= 1,
    decreases s.len(),
{
    if s.len() > 0 {
        lemma_split_nonempty(s.drop_last());
    }
}

pub open spec fn field_views(v: Seq<Vec<u8>>) -> Seq<Seq<u8>> {
    v.map_values(|x: Vec<u8>| x@)
}

fn split(s: &[u8]) -> (r: Vec<Vec<u8>>)
    ensures
        field_views(r@) == split_fields(s@),
{
    let mut parts: Vec<Vec<u8>> = Vec::new();
    let mut cur: Vec<u8> = Vec::new();
    let mut i: usize = 0;
    while i < s.len()
        invariant
            i <= s@.len(),
            field_views(parts@).push(cur@) == split_fields(s@.take(i as int)),
        decreases s.len() - i,
    {
        let ghost before = split_fields(s@.take(i as int));
        assert(s@.take(i + 1).drop_last() =~= s@.take(i as int));
        proof {
            lemma_split_nonempty(s@.take(i as int));
        }
        if s[i] == 44 {
            let ghost old_parts = parts@;
            parts.push(cur);
            cur = Vec::new();
            assert(field_views(parts@) =~= field_views(old_parts).push(before.last()));
            assert(field_views(parts@).push(cur@) =~= before.push(Seq::<u8>::empty()));
        } else {
            cur.push(s[i]);
            assert(field_views(parts@).push(cur@) =~= before.update(
                before.len() - 1,
                before.last().push(s@[i as int]),
            ));
        }
        i = i + 1;
    }
    assert(s@.take(s@.len() as int) =~= s@);
    let ghost old_parts = parts@;
    parts.push(cur);
    assert(field_views(parts@) =~= field_views(old_parts).push(cur@));
    parts
}

/// The raw coordinate in field `k`, 0 where it is missing or unreadable.
pub open spec fn field_coordinate(parts: Seq<Seq<u8>>, k: int) -> int {
    if k < parts.len() {
        match coordinate_value(parts[k]) {
            Some(v) => v,
            None => 0,
        }
    } else {
        0
    }
}

/// The first byte of field `k`, 0 where it is missing or empty.
pub open spec fn field_marker(parts: Seq<Seq<u8>>, k: int) -> u8 {
    if k < parts.len() && parts[k].len() > 0 {
        parts[k][0]
    } else {
        0
    }
}

/// The fix that a recommended-minimum sentence (without its line end) gives:
/// the time of day from field 1 shifted by the time-zone offset, the status
/// from field 2 and, for a valid fix only, latitude, its hemisphere,
/// longitude and its hemisphere from fields 3 to 6. A field that is missing
/// or cannot be read leaves 0.
pub open spec fn sentence_fix(s: Seq<u8>) -> GNRMC {
    let parts = split_fields(s);
    if parts.len() < 3 {
        empty_fix()
    } else {
        let t = time_value(parts[1]);
        let h = match t {
            Some(t) => (t / 10000 + TIME_ZONE_OFFSET_HOURS) % 24,
            None => 0,
        };
        let m = match t {
            Some(t) => (t / 100) % 100,
            None => 0,
        };
        let sec = match t {
            Some(t) => t % 100,
            None => 0,
        };
        if status_active(parts[2]) {
            GNRMC {
                lon: field_coordinate(parts, 5) as i64,
                lat: field_coordinate(parts, 3) as i64,
                lon_area: field_marker(parts, 6),
                lat_area: field_marker(parts, 4),
                time_h: h as u8,
                time_m: m as u8,
                time_s: sec as u8,
                status: 1,
            }
        } else {
            GNRMC {
                lon: 0,
                lat: 0,
                lon_area: 0,
                lat_area: 0,
                time_h: h as u8,
                time_m: m as u8,
                time_s: sec as u8,
                status: 0,
            }
        }
    }
}

fn coordinate_field(parts: &Vec<Vec<u8>>, k: usize) -> (r: i64)
    ensures
        r == field_coordinate(field_views(parts@), k as int),
        0 <= r <= MAX_RAW_COORDINATE,
{
    if k < parts.len() {
        match parse_coordinate(parts[k].as_slice()) {
            Some(v) => v,
            None => 0,
        }
    } else {
        0
    }
}

fn marker_field(parts: &Vec<Vec<u8>>, k: usize) -> (r: u8)
    ensures
        r == field_marker(field_views(parts@), k as int),
{
    if k < parts.len() && parts[k].len() > 0 {
        parts[k][0]
    } else {
        0
    }
}

/// Parses one sentence, from its start marker up to its line end.
pub fn parse_sentence(s: &[u8]) -> (r: GNRMC)
    ensures
        r == sentence_fix(s@),
        r.wf(),
{
    let parts = split(s);
    proof {
        lemma_split_nonempty(s@);
    }
    if parts.len() < 3 {
        return GNRMC::default();
    }
    let mut fix = GNRMC::default();
    match parse_time(parts[1].as_slice()) {
        Some(t) => {
            fix.time_h = ((t / 10000 + TIME_ZONE_OFFSET_HOURS) % 24) as u8;
            fix.time_m = ((t / 100) % 100) as u8;
            fix.time_s = (t % 100) as u8;
        },
        None => {},
    }
    if parse_status(parts[2].as_slice()) {
        fix.status = 1;
        fix.lat = coordinate_field(&parts, 3);
        fix.lat_area = marker_field(&parts, 4);
        fix.lon = coordinate_field(&parts, 5);
        fix.lon_area = marker_field(&parts, 6);
    }
    fix
}

/// A sentence (from its start marker) names the recommended-minimum record,
/// from either talker: `$GNRMC` or `$GPRMC`, with more after it.
pub open spec fn is_rmc(s: Seq<u8>) -> bool {
    s.len() > 6 && s[1] == 71 && (s[2] == 78 || s[2] == 80) && s[3] == 82 && s[4] == 77 && s[5]
        == 67
}

pub open spec fn is_line_end(b: u8) -> bool {
    b == 13 || b == 10
}

/// The first index at or after `i` that holds a start marker `$`, or the length.
pub open spec fn next_start(buf: Seq<u8>, i: int) -> int
    decreases buf.len() - i,
{
    if i >= buf.len() {
        buf.len() as int
    } else if buf[i] == 36 {
        i
    } else {
        next_start(buf, i + 1)
    }
}

/// The first index at or after `i` that holds a line end or a start marker,
/// or the length.
pub open spec fn next_break(buf: Seq<u8>, i: int) -> int
    decreases buf.len() - i,
{
    if i >= buf.len() {
        buf.len() as int
    } else if is_line_end(buf[i]) || buf[i] == 36 {
        i
    } else {
        next_break(buf, i + 1)
    }
}

pub proof fn lemma_next_start_bounds(buf: Seq<u8>, i: int)
    requires
        0 <= i <= buf.len(),
    ensures
        i <= next_start(buf, i) <= buf.len(),
    decreases buf.len() - i,
{
    if i < buf.len() && buf[i] != 36 {
        lemma_next_start_bounds(buf, i + 1);
    }
}

pub proof fn lemma_next_break_bounds(buf: Seq<u8>, i: int)
    requires
        0 <= i <= buf.len(),
    ensures
        i <= next_break(buf, i) <= buf.len(),
    decreases buf.len() - i,
{
    if i < buf.len() && !(is_line_end(buf[i]) || buf[i] == 36) {
        lemma_next_break_bounds(buf, i + 1);
    }
}

/// Scans the buffer from index `from` for a recommended-minimum sentence.
/// Sentences of other kinds are passed over. The scan stops at the first
/// sentence that is still missing its line end (or is cut short by another
/// start marker). Returns the fix found, if any, and the index from which
/// the buffer is kept: just past the found sentence's line end, or just past
/// the line end of the last sentence passed over.
pub open spec fn scan(buf: Seq<u8>, from: int) -> (Option<GNRMC>, int)
    decreases buf.len() - from,
{
    if from < 0 || from > buf.len() {
        (None, from)
    } else {
        let start = next_start(buf, from);
        if start >= buf.len() {
            (None, from)
        } else {
            let end = next_break(buf, start + 1);
            if end >= buf.len() || !is_line_end(buf[end]) {
                (None, from)
            } else {
                let clear = end + 1;
                if is_rmc(buf.subrange(start, end)) {
                    (Some(sentence_fix(buf.subrange(start, end))), clear)
                } else {
                    proof {
                        lemma_next_start_bounds(buf, from);
                        lemma_next_break_bounds(buf, start + 1);
                    }
                    scan(buf, clear)
                }
            }
        }
    }
}

/// What one extraction gives: the fix found, if any, and the buffer left.
pub open spec fn extract(buf: Seq<u8>) -> (Option<GNRMC>, Seq<u8>) {
    let (fix, keep) = scan(buf, 0);
    (fix, buf.subrange(keep, buf.len() as int))
}


/// No start marker among the bytes.
pub open spec fn no_start(b: Seq<u8>) -> bool {
    forall|i: int| 0 <= i < b.len() ==> b[i] != 36
}

/// A candidate sentence: a start marker, a body with neither start marker
/// nor line end, and a line end.
pub open spec fn is_candidate(c: Seq<u8>) -> bool {
    &&& c.len() >= 2
    &&& c[0] == 36
    &&& is_line_end(c.last())
    &&& forall|i: int| 1 <= i < c.len() - 1 ==> !is_line_end(#[trigger] c[i]) && c[i] != 36
}

/// Feeds `c` one byte at a time, with an extraction after each byte: the
/// extraction results in order, and the buffer left.
pub open spec fn bytewise(buf: Seq<u8>, c: Seq<u8>) -> (Seq<Option<GNRMC>>, Seq<u8>)
    decreases c.len(),
{
    if c.len() == 0 {
        (Seq::<Option<GNRMC>>::empty(), buf)
    } else {
        let (outs, rest) = bytewise(buf, c.drop_last());
        let (fix, left) = extract(rest.push(c.last()));
        (outs.push(fix), left)
    }
}

proof fn lemma_next_start_skip(buf: Seq<u8>, i: int, j: int)
    requires
        0 <= i <= j <= buf.len(),
        forall|k: int| i <= k < j ==> buf[k] != 36,
    ensures
        next_start(buf, i) == next_start(buf, j),
    decreases j - i,
{
    if i < j {
        lemma_next_start_skip(buf, i + 1, j);
    }
}

proof fn lemma_next_break_skip(buf: Seq<u8>, i: int, j: int)
    requires
        0 <= i <= j <= buf.len(),
        forall|k: int| i <= k < j ==> !is_line_end(#[trigger] buf[k]) && buf[k] != 36,
    ensures
        next_break(buf, i) == next_break(buf, j),
    decreases j - i,
{
    if i < j {
        lemma_next_break_skip(buf, i + 1, j);
    }
}

/// After bytes without a start marker, a candidate sentence cut short of its
/// line end gives no fix and stays in the buffer whole.
proof fn lemma_partial_candidate(b: Seq<u8>, c: Seq<u8>, k: int)
    requires
        no_start(b),
        is_candidate(c),
        0 <= k < c.len(),
    ensures
        extract(b + c.take(k)) == (None::<GNRMC>, b + c.take(k)),
{
    let buf = b + c.take(k);
    lemma_next_start_skip(buf, 0, b.len() as int);
    if k == 0 {
        assert(buf =~= b);
        assert(next_start(buf, b.len() as int) == buf.len());
    } else {
        assert(buf[b.len() as int] == 36);
        assert forall|q: int| b.len() + 1 <= q < buf.len() implies !is_line_end(#[trigger] buf[q])
            && buf[q] != 36 by {
            assert(buf[q] == c[q - b.len()]);
        }
        lemma_next_break_skip(buf, b.len() + 1 as int, buf.len() as int);
    }
    assert(buf.subrange(0, buf.len() as int) =~= buf);
}

/// Fed whole after bytes without a start marker, a candidate sentence gives
/// its fix where it is a recommended-minimum sentence, and nothing otherwise.
proof fn lemma_whole_candidate(b: Seq<u8>, c: Seq<u8>)
    requires
        no_start(b),
        is_candidate(c),
    ensures
        extract(b + c).0 == (if is_rmc(c.drop_last()) {
            Some(sentence_fix(c.drop_last()))
        } else {
            None::<GNRMC>
        }),
{
    let buf = b + c;
    let n = buf.len() as int;
    let s = b.len() as int;
    lemma_next_start_skip(buf, 0, s);
    assert(buf[s] == 36);
    assert forall|q: int| s + 1 <= q < n - 1 implies !is_line_end(#[trigger] buf[q]) && buf[q]
        != 36 by {
        assert(buf[q] == c[q - s]);
    }
    lemma_next_break_skip(buf, s + 1, n - 1);
    assert(buf[n - 1] == c.last());
    assert(next_break(buf, s + 1) == n - 1);
    assert(buf.subrange(s, n - 1) =~= c.drop_last());
    assert(next_start(buf, 0) == s);
    if !is_rmc(c.drop_last()) {
        assert(next_start(buf, n) == n);
        assert(scan(buf, 0) == scan(buf, n));
        assert(scan(buf, n).0 is None);
    } else {
        assert(scan(buf, 0).0 == Some(sentence_fix(buf.subrange(s, n - 1))));
    }
}

/// Chunking does not change what the parser gives: fed one byte at a time
/// after bytes without a start marker, with an extraction after each byte,
/// a candidate sentence gives nothing until its last byte, and then exactly
/// the fix and the buffer that feeding it whole and extracting once gives.
pub proof fn lemma_chunking_independence(b: Seq<u8>, c: Seq<u8>)
    requires
        no_start(b),
        is_candidate(c),
    ensures
        bytewise(b, c).0 == Seq::new((c.len() - 1) as nat, |i: int| None::<GNRMC>).push(
            extract(b + c).0,
        ),
        bytewise(b, c).1 == extract(b + c).1,
        extract(b + c).0 == (if is_rmc(c.drop_last()) {
            Some(sentence_fix(c.drop_last()))
        } else {
            None::<GNRMC>
        }),
{
    lemma_bytewise_prefix(b, c, c.len() - 1);
    let p = c.take(c.len() - 1);
    assert(c.drop_last() =~= p);
    assert((b + p).push(c.last()) =~= b + c);
    lemma_whole_candidate(b, c);
}

proof fn lemma_bytewise_prefix(b: Seq<u8>, c: Seq<u8>, k: int)
    requires
        no_start(b),
        is_candidate(c),
        0 <= k < c.len(),
    ensures
        bytewise(b, c.take(k)) == (Seq::new(k as nat, |i: int| None::<GNRMC>), b + c.take(k)),
    decreases k,
{
    if k == 0 {
        assert(b + c.take(0) =~= b);
        assert(Seq::new(0, |i: int| None::<GNRMC>) =~= Seq::<Option<GNRMC>>::empty());
    } else {
        lemma_bytewise_prefix(b, c, k - 1);
        assert(c.take(k).drop_last() =~= c.take(k - 1));
        assert((b + c.take(k - 1)).push(c.take(k).last()) =~= b + c.take(k));
        lemma_partial_candidate(b, c, k);
        assert(Seq::new((k - 1) as nat, |i: int| None::<GNRMC>).push(None::<GNRMC>) =~= Seq::new(
            k as nat,
            |i: int| None::<GNRMC>,
        ));
    }
}

/// A sentence gives a valid fix exactly when it has a status field that
/// reads `A`; otherwise the fix is invalid and its coordinates and
/// hemisphere markers are reset to 0.
pub proof fn lemma_inactive_status_resets(s: Seq<u8>)
    ensures
        sentence_fix(s).status == 1 <==> (split_fields(s).len() >= 3 && status_active(
            split_fields(s)[2],
        )),
        sentence_fix(s).status != 1 ==> sentence_fix(s).status == 0 && sentence_fix(s).lat == 0
            && sentence_fix(s).lon == 0 && sentence_fix(s).lat_area == 0 && sentence_fix(s).lon_area
            == 0,
{
}

/// The point of a fix is its reading converted from degrees and minutes to
/// degrees, negated for south and west, and within a ten-millionth of a
/// degree of the exact value: six times the exact magnitude in
/// ten-millionths is `60_000_000 * degrees + millionths of minutes`. A
/// reading of at least six millionths of a minute (one ten-millionth of a
/// degree) is negative exactly in the south or west.
pub proof fn lemma_point_accuracy(f: GNRMC)
    requires
        f.wf(),
    ensures
        f.point().lat == (if f.lat_area == 83 {
            -decimal_degrees(f.lat as int)
        } else {
            decimal_degrees(f.lat as int)
        }),
        f.point().lon == (if f.lon_area == 87 {
            -decimal_degrees(f.lon as int)
        } else {
            decimal_degrees(f.lon as int)
        }),
        0 <= (60_000_000 * (f.lat / 100_000_000) + f.lat % 100_000_000) - 6 * decimal_degrees(
            f.lat as int,
        ) < 6,
        0 <= (60_000_000 * (f.lon / 100_000_000) + f.lon % 100_000_000) - 6 * decimal_degrees(
            f.lon as int,
        ) < 6,
        f.lat >= 6 ==> (f.point().lat < 0 <==> f.lat_area == 83),
        f.lon >= 6 ==> (f.point().lon < 0 <==> f.lon_area == 87),
{
}

/// Read attempts after which a request for a fix gives up.
pub const MAX_ATTEMPTS: u32 = 5;

/// A buffer longer than this when a request gives up is discarded whole.
pub const MAX_BUFFER: usize = 2000;

/// What one read attempt leads to.
#[derive(Clone, Copy, Debug, PartialEq, Eq, Structural)]
pub enum ReadStep {
    /// The request is answered with this fix (the empty fix when it gave up).
    Fix(GNRMC),
    /// Nothing yet: wait briefly, read again and make the next attempt.
    Retry,
}

/// One read attempt, numbered from 1: the bytes just read are appended, then
/// one extraction is made. Returns the step and the buffer left.
pub open spec fn read_step(buf: Seq<u8>, bytes: Seq<u8>, attempt: int) -> (ReadStep, Seq<u8>) {
    let (fix, rest) = extract(buf + bytes);
    match fix {
        Some(f) => (ReadStep::Fix(f), rest),
        None => if attempt >= MAX_ATTEMPTS {
            (ReadStep::Fix(empty_fix()), if rest.len() > MAX_BUFFER { Seq::<u8>::empty() } else { rest })
        } else {
            (ReadStep::Retry, rest)
        },
    }
}

/// No line end among the bytes.
pub open spec fn no_line_end(b: Seq<u8>) -> bool {
    forall|i: int| 0 <= i < b.len() ==> !is_line_end(#[trigger] b[i])
}

proof fn lemma_no_line_end_scan(buf: Seq<u8>)
    requires
        no_line_end(buf),
    ensures
        scan(buf, 0) == (None::<GNRMC>, 0int),
{
    lemma_next_start_bounds(buf, 0);
    let start = next_start(buf, 0);
    if start < buf.len() {
        lemma_next_break_bounds(buf, start + 1);
    }
}

/// A request never waits past its last attempt: at the last attempt every
/// read answers with a fix. Where the buffered bytes, with those just read,
/// hold no line end and number more than the limit, that answer is the
/// empty fix and the buffer is left empty.
pub proof fn lemma_last_attempt(buf: Seq<u8>, bytes: Seq<u8>)
    ensures
        read_step(buf, bytes, MAX_ATTEMPTS as int).0 is Fix,
        no_line_end(buf + bytes) && (buf + bytes).len() > MAX_BUFFER ==> read_step(
            buf,
            bytes,
            MAX_ATTEMPTS as int,
        ) == (ReadStep::Fix(empty_fix()), Seq::<u8>::empty()),
{
    let all = buf + bytes;
    if no_line_end(all) {
        lemma_no_line_end_scan(all);
        assert(all.subrange(0, all.len() as int) =~= all);
    }
}

/// Every fix that a scan finds comes from a sentence whose status is not
/// `A` only with status 0 and coordinates and hemisphere markers reset to 0.
pub proof fn lemma_found_fix_resets(buf: Seq<u8>, from: int)
    ensures
        scan(buf, from).0 matches Some(f) ==> (f.status != 1 ==> f.status == 0 && f.lat == 0
            && f.lon == 0 && f.lat_area == 0 && f.lon_area == 0),
    decreases buf.len() - from,
{
    if 0 <= from <= buf.len() {
        lemma_next_start_bounds(buf, from);
        let start = next_start(buf, from);
        if start < buf.len() {
            lemma_next_break_bounds(buf, start + 1);
            let end = next_break(buf, start + 1);
            if end < buf.len() && is_line_end(buf[end]) {
                if is_rmc(buf.subrange(start, end)) {
                    lemma_inactive_status_resets(buf.subrange(start, end));
                } else {
                    lemma_found_fix_resets(buf, end + 1);
                }
            }
        }
    }
}

/// A read attempt that answers with a fix from a sentence whose status is
/// not `A` answers with status 0 and the coordinates and hemisphere markers
/// reset to 0, whatever earlier attempts gave.
pub proof fn lemma_read_step_resets(buf: Seq<u8>, bytes: Seq<u8>, attempt: int)
    ensures
        read_step(buf, bytes, attempt).0 matches ReadStep::Fix(f) ==> (f.status != 1 ==> f.status
            == 0 && f.lat == 0 && f.lon == 0 && f.lat_area == 0 && f.lon_area == 0),
{
    lemma_found_fix_resets(buf + bytes, 0);
}

/// The receiver's side of the serial link: the bytes read so far that no
/// fix has consumed yet.
pub struct Gps {
    buffer: Vec<u8>,
}

impl View for Gps {
    type V = Seq<u8>;

    closed spec fn view(&self) -> Seq<u8> {
        self.buffer@
    }
}

fn find_start(buf: &Vec<u8>, from: usize) -> (r: usize)
    requires
        from <= buf@.len(),
    ensures
        r == next_start(buf@, from as int),
        from <= r <= buf@.len(),
{
    let mut i = from;
    while i < buf.len() && buf[i] != 36
        invariant
            from <= i <= buf@.len(),
            next_start(buf@, from as int) == next_start(buf@, i as int),
        decreases buf.len() - i,
    {
        i = i + 1;
    }
    i
}

fn find_break(buf: &Vec<u8>, from: usize) -> (r: usize)
    requires
        from <= buf@.len(),
    ensures
        r == next_break(buf@, from as int),
        from <= r <= buf@.len(),
{
    let mut i = from;
    while i < buf.len() && !(buf[i] == 13 || buf[i] == 10 || buf[i] == 36)
        invariant
            from <= i <= buf@.len(),
            next_break(buf@, from as int) == next_break(buf@, i as int),
        decreases buf.len() - i,
    {
        i = i + 1;
    }
    i
}

fn is_rmc_at(buf: &Vec<u8>, start: usize, end: usize) -> (r: bool)
    requires
        start <= end <= buf@.len(),
    ensures
        r == is_rmc(buf@.subrange(start as int, end as int)),
{
    end - start > 6 && buf[start + 1] == 71 && (buf[start + 2] == 78 || buf[start + 2] == 80)
        && buf[start + 3] == 82 && buf[start + 4] == 77 && buf[start + 5] == 67
}

fn copy_range(buf: &Vec<u8>, start: usize, end: usize) -> (r: Vec<u8>)
    requires
        start <= end <= buf@.len(),
    ensures
        r@ == buf@.subrange(start as int, end as int),
{
    let mut out: Vec<u8> = Vec::new();
    let mut i = start;
    while i < end
        invariant
            start <= i <= end <= buf@.len(),
            out@ == buf@.subrange(start as int, i as int),
        decreases end - i,
    {
        out.push(buf[i]);
        i = i + 1;
        assert(out@ =~= buf@.subrange(start as int, i as int));
    }
    out
}

impl Gps {
    pub fn new() -> (r: Gps)
        ensures
            r@ == Seq::<u8>::empty(),
    {
        Gps { buffer: Vec::new() }
    }

    /// The number of bytes waiting in the buffer.
    pub fn pending_len(&self) -> (r: usize)
        ensures
            r == self@.len(),
    {
        self.buffer.len()
    }

    /// Appends bytes read from the serial link.
    pub fn feed(&mut self, bytes: &[u8])
        ensures
            final(self)@ == old(self)@ + bytes@,
    {
        let mut i: usize = 0;
        while i < bytes.len()
            invariant
                i <= bytes@.len(),
                self@ == old(self)@ + bytes@.take(i as int),
            decreases bytes.len() - i,
        {
            self.buffer.push(bytes[i]);
            i = i + 1;
            assert(self@ =~= old(self)@ + bytes@.take(i as int));
        }
        assert(bytes@.take(bytes@.len() as int) =~= bytes@);
    }

    fn keep_from(&mut self, k: usize)
        requires
            k <= old(self)@.len(),
        ensures
            final(self)@ == old(self)@.subrange(k as int, old(self)@.len() as int),
    {
        let rest = self.buffer.split_off(k);
        self.buffer = rest;
    }

    /// Takes the next recommended-minimum sentence out of the buffer, passing
    /// over sentences of other kinds; leaves a sentence that is still missing
    /// its line end for a later call.
    pub fn try_extract_fix(&mut self) -> (r: Option<GNRMC>)
        ensures
            (r, final(self)@) == extract(old(self)@),
            r matches Some(f) ==> f.wf(),
    {
        let n = self.buffer.len();
        let mut from: usize = 0;
        loop
            invariant
                self@ == old(self)@,
                n == self@.len(),
                from <= n,
                scan(self@, 0) == scan(self@, from as int),
            decreases n - from,
        {
            let start = find_start(&self.buffer, from);
            if start >= n {
                self.keep_from(from);
                return None;
            }
            let end = find_break(&self.buffer, start + 1);
            if end >= n || !(self.buffer[end] == 13 || self.buffer[end] == 10) {
                self.keep_from(from);
                return None;
            }
            let clear = end + 1;
            if is_rmc_at(&self.buffer, start, end) {
                let sentence = copy_range(&self.buffer, start, end);
                let fix = parse_sentence(sentence.as_slice());
                self.keep_from(clear);
                return Some(fix);
            }
            from = clear;
        }
    }

    /// One read attempt, numbered from 1, with the bytes it read: appends
    /// them and extracts one fix. When nothing is found at the last attempt,
    /// the request is answered with the empty fix, and an overlong buffer is
    /// discarded.
    pub fn next_fix(&mut self, bytes: &[u8], attempt: u32) -> (r: ReadStep)
        ensures
            (r, final(self)@) == read_step(old(self)@, bytes@, attempt as int),
            r matches ReadStep::Fix(f) ==> f.wf(),
    {
        self.feed(bytes);
        match self.try_extract_fix() {
            Some(f) => ReadStep::Fix(f),
            None => {
                if attempt >= MAX_ATTEMPTS {
                    if self.buffer.len() > MAX_BUFFER {
                        self.buffer.clear();
                        assert(self@ =~= Seq::<u8>::empty());
                    }
                    ReadStep::Fix(GNRMC::default())
                } else {
                    ReadStep::Retry
                }
            },
        }
    }

    /// The direction of travel from one point to the next.
    pub fn calculate_bearing(from: &Point, to: &Point) -> (r: Direction)
        ensures
            r.x == to.lon - from.lon,
            r.y == to.lat - from.lat,
    {
        displacement(from, to)
    }

    /// The direction of travel that a new reading shows after the previous
    /// position, where the reading is valid and a previous position is known.
    pub fn direction_since(previous: Option<Point>, reading: &GNRMC) -> (r: Option<Direction>)
        requires
            reading.wf(),
        ensures
            r == (if reading.status == 1 && previous is Some {
                Some(moved(previous->0, reading.point()))
            } else {
                None::<Direction>
            }),
    {
        if reading.is_valid() {
            match previous {
                Some(p) => {
                    let here = reading.google_coordinates();
                    Some(Gps::calculate_bearing(&p, &here))
                },
                None => None,
            }
        } else {
            None
        }
    }
}

/// The displacement from one point to another, as a direction.
pub open spec fn moved(from: Point, to: Point) -> Direction {
    Direction { x: (to.lon - from.lon) as i64, y: (to.lat - from.lat) as i64 }
}


/// How far a simulated reading moves along each axis per reading: a
/// hundred-thousandth of a degree.
pub const SIMULATOR_STEP: i32 = 100;

/// One simulated step of a coordinate toward its target, held within `i32`.
pub open spec fn step_toward(cur: int, target: int) -> int {
    if cur < target {
        if cur + SIMULATOR_STEP > i32::MAX { i32::MAX as int } else { cur + SIMULATOR_STEP }
    } else if cur > target {
        if cur - SIMULATOR_STEP < i32::MIN { i32::MIN as int } else { cur - SIMULATOR_STEP }
    } else {
        cur
    }
}

/// A coordinate is still more than one step from its target.
pub open spec fn far_from(cur: int, target: int) -> bool {
    cur - target > SIMULATOR_STEP || target - cur > SIMULATOR_STEP
}

/// A stand-in for the receiver that walks a straight line of readings from
/// a starting point to an ending point.
pub struct GpsSimulator {
    starting_point: Point,
    ending_point: Point,
    current_point: Point,
}

fn step_coordinate(cur: i32, target: i32) -> (r: i32)
    ensures
        r == step_toward(cur as int, target as int),
{
    let c = cur as i64;
    let next: i64 = if cur < target {
        c + SIMULATOR_STEP as i64
    } else if cur > target {
        c - SIMULATOR_STEP as i64
    } else {
        c
    };
    if next > i32::MAX as i64 {
        i32::MAX
    } else if next < i32::MIN as i64 {
        i32::MIN
    } else {
        next as i32
    }
}

impl GpsSimulator {
    pub closed spec fn start(&self) -> Point {
        self.starting_point
    }

    pub closed spec fn end(&self) -> Point {
        self.ending_point
    }

    pub closed spec fn current(&self) -> Point {
        self.current_point
    }

    pub fn new(starting_point: Point, ending_point: Point) -> (r: Self)
        ensures
            r.start() == starting_point,
            r.end() == ending_point,
            r.current() == starting_point,
    {
        Self { starting_point, ending_point, current_point: starting_point }
    }

    /// The next reading: one step toward the ending point on each axis, while
    /// either axis is more than a step away; `None` once both are within a step.
    pub fn get(&mut self) -> (r: Option<Point>)
        ensures
            final(self).start() == old(self).start(),
            final(self).end() == old(self).end(),
            far_from(old(self).current().lat as int, old(self).end().lat as int) || far_from(
                old(self).current().lon as int,
                old(self).end().lon as int,
            ) ==> {
                &&& r == Some(final(self).current())
                &&& final(self).current().lat == step_toward(
                    old(self).current().lat as int,
                    old(self).end().lat as int,
                )
                &&& final(self).current().lon == step_toward(
                    old(self).current().lon as int,
                    old(self).end().lon as int,
                )
            },
            !(far_from(old(self).current().lat as int, old(self).end().lat as int) || far_from(
                old(self).current().lon as int,
                old(self).end().lon as int,
            )) ==> r is None && final(self).current() == old(self).current(),
    {
        let cur = self.current_point;
        let end = self.ending_point;
        let dlat: i64 = cur.lat as i64 - end.lat as i64;
        let dlon: i64 = cur.lon as i64 - end.lon as i64;
        let step = SIMULATOR_STEP as i64;
        if dlat > step || -dlat > step || dlon > step || -dlon > step {
            self.current_point = Point {
                lat: step_coordinate(cur.lat, end.lat),
                lon: step_coordinate(cur.lon, end.lon),
            };
            Some(self.current_point)
        } else {
            None
        }
    }

    /// The next reading, with the direction of travel from `previous` where
    /// it is given; `(None, None)` once the walk is over.
    pub fn get_with_direction(&mut self, previous: Option<Point>) -> (r: (
        Option<Point>,
        Option<Direction>,
    ))
        ensures
            final(self).start() == old(self).start(),
            final(self).end() == old(self).end(),
            far_from(old(self).current().lat as int, old(self).end().lat as int) || far_from(
                old(self).current().lon as int,
                old(self).end().lon as int,
            ) ==> {
                &&& r.0 == Some(final(self).current())
                &&& final(self).current().lat == step_toward(
                    old(self).current().lat as int,
                    old(self).end().lat as int,
                )
                &&& final(self).current().lon == step_toward(
                    old(self).current().lon as int,
                    old(self).end().lon as int,
                )
                &&& r.1 == (match previous {
                    Some(p) => Some(moved(p, final(self).current())),
                    None => None::<Direction>,
                })
            },
            !(far_from(old(self).current().lat as int, old(self).end().lat as int) || far_from(
                old(self).current().lon as int,
                old(self).end().lon as int,
            )) ==> r == (None::<Point>, None::<Direction>) && final(self).current() == old(
                self,
            ).current(),
    {
        match self.get() {
            None => (None, None),
            Some(here) => match previous {
                Some(p) => (Some(here), Some(Gps::calculate_bearing(&p, &here))),
                None => (Some(here), None),
            },
        }
    }
}

} // verus!
