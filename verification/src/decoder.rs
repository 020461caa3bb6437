//! Deobfuscation of the schedule feed.
//!
//! The feed serves its JSON payload obfuscated at the level of 16-bit code
//! units. A header at fixed offsets selects one of three cipher variants;
//! each variant fixes a marker alphabet for the control characters, a
//! rotation window of ASCII code units, and the offset at which the cipher
//! body begins. A checksum over a 19-unit window right after the header
//! seeds the rotation. The body is stored back to front: scanning from the
//! end of the input towards the body start and emitting in scan order
//! reconstructs the plain text in its forward order.
//!
//! One reading is fixed here deliberately: the checksum can exceed a
//! window's span, and wrapping a rotated unit once by span-plus-one would
//! not return such a value to the window, so the rotation reduces the
//! whole shift modulo the span first. The two coincide whenever the shift
//! stays within one span.

use vstd::prelude::*;

verus! {

/// Why a payload could not be decoded.
#[derive(Debug, Clone, Copy, PartialEq, Eq, Structural)]
pub enum DecodeError {
    /// The payload has fewer than 16 code units, so the header read would
    /// go out of bounds.
    TooShort,
    /// The header units at offsets 12 to 15 match none of the three cipher
    /// variants.
    UnknownVariant,
}

/// The three cipher variants the header can select.
#[derive(Debug, Clone, Copy, PartialEq, Eq, Structural)]
pub enum CipherVariant {
    A,
    B,
    C,
}

/// Marker unit that decodes to a newline.
pub const MARK_NEWLINE: u16 = 33;

/// Marker unit that decodes to a carriage return.
pub const MARK_RETURN: u16 = 35;

/// Marker unit that decodes to a space.
pub const MARK_SPACE: u16 = 37;

impl CipherVariant {
    /// Number of leading code units consumed before the cipher body begins.
    pub open spec fn spec_n(self) -> int {
        match self {
            CipherVariant::A => 33,
            CipherVariant::B => 34,
            CipherVariant::C => 35,
        }
    }

    /// Length of every marker of this variant.
    pub open spec fn spec_marker_len(self) -> int {
        match self {
            CipherVariant::A => 1,
            CipherVariant::B => 2,
            CipherVariant::C => 3,
        }
    }

    /// Lower bound of the rotation window.
    pub open spec fn spec_window_low(self) -> int {
        match self {
            CipherVariant::A => 40,
            CipherVariant::B => 41,
            CipherVariant::C => 42,
        }
    }

    /// Upper bound of the rotation window.
    pub open spec fn spec_window_high(self) -> int {
        126
    }

    /// First offset of the checksum window, right after the header.
    pub open spec fn spec_checksum_start(self) -> int {
        match self {
            CipherVariant::A => 14,
            CipherVariant::B => 15,
            CipherVariant::C => 16,
        }
    }

    fn n(self) -> (r: usize)
        ensures
            r == self.spec_n(),
    {
        match self {
            CipherVariant::A => 33,
            CipherVariant::B => 34,
            CipherVariant::C => 35,
        }
    }

    fn marker_len(self) -> (r: usize)
        ensures
            r == self.spec_marker_len(),
    {
        match self {
            CipherVariant::A => 1,
            CipherVariant::B => 2,
            CipherVariant::C => 3,
        }
    }

    fn window_low(self) -> (r: u16)
        ensures
            r == self.spec_window_low(),
    {
        match self {
            CipherVariant::A => 40,
            CipherVariant::B => 41,
            CipherVariant::C => 42,
        }
    }

    fn window_high(self) -> (r: u16)
        ensures
            r == self.spec_window_high(),
    {
        126
    }

    fn checksum_start(self) -> (r: usize)
        ensures
            r == self.spec_checksum_start(),
    {
        match self {
            CipherVariant::A => 14,
            CipherVariant::B => 15,
            CipherVariant::C => 16,
        }
    }
}

/// Which variant, if any, the header units at offsets 12 to 15 select:
/// one, two or three colons followed by a space.
pub open spec fn spec_variant_of(s: Seq<u16>) -> Option<CipherVariant> {
    if s.len() < 16 {
        None
    } else if s[12] == 58 && s[13] == 58 && s[14] == 58 && s[15] == 32 {
        Some(CipherVariant::C)
    } else if s[12] == 58 && s[13] == 58 && s[14] == 32 {
        Some(CipherVariant::B)
    } else if s[12] == 58 && s[13] == 32 {
        Some(CipherVariant::A)
    } else {
        None
    }
}

/// Decimal digit carried by the code unit at `i`, if it is one.
pub open spec fn spec_digit_at(s: Seq<u16>, i: int) -> Option<int> {
    if 0 <= i < s.len() && 48 <= s[i] <= 57 {
        Some(s[i] - 48)
    } else {
        None
    }
}

/// Whether window offset `o` is one of the 14 digit positions of the
/// checksum window; the five excluded offsets are the separators of a
/// `YYYY-MM-DD HH:MM:SS` shaped window.
pub open spec fn spec_is_digit_offset(o: int) -> bool {
    0 <= o < 19 && o != 4 && o != 7 && o != 10 && o != 13 && o != 16
}

/// All 14 digit positions of the window at `ws` hold decimal digits.
pub open spec fn spec_window_all_digits(s: Seq<u16>, ws: int) -> bool {
    forall|o: int| spec_is_digit_offset(o) ==> #[trigger] spec_digit_at(s, ws + o) is Some
}

/// Sum of the digits at the digit offsets in `[o, 19)` of the window at
/// `ws`, counting a non-digit as zero.
pub open spec fn spec_digit_sum_from(s: Seq<u16>, ws: int, o: int) -> int
    decreases 19 - o,
{
    if o >= 19 {
        0
    } else {
        let rest = spec_digit_sum_from(s, ws, o + 1);
        if spec_is_digit_offset(o) {
            match spec_digit_at(s, ws + o) {
                Some(d) => d + rest,
                None => rest,
            }
        } else {
            rest
        }
    }
}

/// The checksum of the 19-unit window starting at `ws`: the sum of its 14
/// digits, plus the difference of the last two digits when the later one
/// is at least the earlier, else three times the successor of the digit at
/// offset 11. If any digit position fails to decode the whole checksum
/// falls back to 27.
pub open spec fn spec_checksum(s: Seq<u16>, ws: int) -> int {
    if !spec_window_all_digits(s, ws) {
        27
    } else {
        let base = spec_digit_sum_from(s, ws, 0);
        let d11 = spec_digit_at(s, ws + 11)->Some_0;
        let d17 = spec_digit_at(s, ws + 17)->Some_0;
        let d18 = spec_digit_at(s, ws + 18)->Some_0;
        if d18 >= d17 {
            base + (d18 - d17)
        } else {
            base + 3 * (d11 + 1)
        }
    }
}

/// Decoded control character of a marker unit.
pub open spec fn spec_mark_output(u: u16) -> u16 {
    if u == MARK_NEWLINE {
        10
    } else if u == MARK_RETURN {
        13
    } else {
        32
    }
}

pub open spec fn spec_is_mark(u: u16) -> bool {
    u == MARK_NEWLINE || u == MARK_RETURN || u == MARK_SPACE
}

/// The `len` units ending at `pos` (inclusive, towards lower positions)
/// all equal the marker unit `mark`.
pub open spec fn spec_marker_matches(s: Seq<u16>, pos: int, len: int, mark: u16) -> bool {
    forall|j: int| 0 <= j < len ==> #[trigger] s[pos - j] == mark
}

/// Rotation of an in-window unit: subtract the checksum plus the position
/// counter modulo ten, wrapping within the window. The checksum can exceed
/// the window's span, and a single wrap by span-plus-one would not return
/// such a value to the window; the rotation therefore reduces the whole
/// shift modulo the span first, which coincides with the single wrap
/// whenever the shift stays within one span.
pub open spec fn spec_rotate(u: int, low: int, high: int, m: int, g: int, h: int) -> int {
    let span = high - low + 1;
    let shift = (m + ((g - h + 1) % 10)) % span;
    low + ((u - low + span - shift) % span)
}

/// The decoded body for counter values `h` down to 1. Counter `h` stands
/// for the unit at absolute position `n + h - 1`; the scan starts at the
/// last unit (`h = g`) and walks back towards the body start, emitting in
/// scan order. A matched marker consumes its whole length in one step.
pub open spec fn spec_body(s: Seq<u16>, v: CipherVariant, m: int, g: int, h: int) -> Seq<u16>
    decreases h,
{
    if h < 1 {
        Seq::empty()
    } else {
        let n = v.spec_n();
        let pos = n + h - 1;
        let u = s[pos];
        if v.spec_window_low() <= u <= v.spec_window_high() {
            seq![
                spec_rotate(u as int, v.spec_window_low(), v.spec_window_high(), m, g, h) as u16,
            ] + spec_body(s, v, m, g, h - 1)
        } else if spec_is_mark(u) && h >= v.spec_marker_len() && spec_marker_matches(
            s,
            pos,
            v.spec_marker_len(),
            u,
        ) {
            seq![spec_mark_output(u)] + spec_body(s, v, m, g, h - v.spec_marker_len())
        } else {
            seq![u] + spec_body(s, v, m, g, h - 1)
        }
    }
}

/// The full decode of a payload that selects variant `v`.
pub open spec fn spec_decoded(s: Seq<u16>, v: CipherVariant) -> Seq<u16> {
    let m = spec_checksum(s, v.spec_checksum_start());
    let g = s.len() - v.spec_n();
    spec_body(s, v, m, g, g)
}

/// Reads the header and classifies the payload.
///
/// Returns exactly the variant that `spec_variant_of` assigns.
pub fn classify_variant(units: &[u16]) -> (r: Option<CipherVariant>)
    ensures
        r == spec_variant_of(units@),
{
    if units.len() < 16 {
        None
    } else if units[12] == 58 && units[13] == 58 && units[14] == 58 && units[15] == 32 {
        Some(CipherVariant::C)
    } else if units[12] == 58 && units[13] == 58 && units[14] == 32 {
        Some(CipherVariant::B)
    } else if units[12] == 58 && units[13] == 32 {
        Some(CipherVariant::A)
    } else {
        None
    }
}

/// Checksum of the 19-unit window starting at `start`.
pub fn checksum_at(units: &[u16], start: usize) -> (r: u32)
    ensures
        r == spec_checksum(units@, start as int),
{
    let total = units.len();
    if start >= total || total - start <= 18 {
        // the last digit offset lies out of bounds, so the window cannot be
        // all digits
        assert(spec_digit_at(units@, start + 18) is None);
        return 27;
    }
    let mut sum: u32 = 0;
    let mut o: usize = 0;
    while o < 19
        invariant
            o <= 19,
            total == units@.len(),
            start + 18 < total,
            spec_digit_sum_from(units@, start as int, 0) == sum + spec_digit_sum_from(
                units@,
                start as int,
                o as int,
            ),
            sum <= 9 * o,
            forall|k: int|
                spec_is_digit_offset(k) && k < o ==> #[trigger] spec_digit_at(
                    units@,
                    start + k,
                ) is Some,
        decreases 19 - o,
    {
        if o != 4 && o != 7 && o != 10 && o != 13 && o != 16 {
            let u = units[start + o];
            if u < 48 || u > 57 {
                return 27;
            }
            sum = sum + (u as u32 - 48);
        }
        o = o + 1;
    }
    // every digit offset decoded, so the window is all digits
    assert(spec_window_all_digits(units@, start as int));
    assert(spec_digit_at(units@, start + 11) is Some);
    assert(spec_digit_at(units@, start + 17) is Some);
    assert(spec_digit_at(units@, start + 18) is Some);
    let d11 = (units[start + 11] - 48) as u32;
    let d17 = (units[start + 17] - 48) as u32;
    let d18 = (units[start + 18] - 48) as u32;
    if d18 >= d17 {
        sum + (d18 - d17)
    } else {
        sum + 3 * (d11 + 1)
    }
}

/// Checksum of a window given as a slice of exactly its own units.
///
/// The checksum of a window is its digit sum with the trailing-digit
/// correction, or 27 when a digit position fails to decode.
pub fn checksum(window: &[u16]) -> (r: u32)
    ensures
        r == spec_checksum(window@, 0),
{
    checksum_at(window, 0)
}

/// Whether the `len` units ending at `pos` all equal `mark`.
fn marker_matches(units: &[u16], pos: usize, len: usize, mark: u16) -> (r: bool)
    requires
        len >= 1,
        len - 1 <= pos < units@.len(),
    ensures
        r == spec_marker_matches(units@, pos as int, len as int, mark),
{
    let mut j: usize = 0;
    while j < len
        invariant
            j <= len,
            len - 1 <= pos < units@.len(),
            forall|k: int| 0 <= k < j ==> #[trigger] units@[pos - k] == mark,
        decreases len - j,
    {
        if units[pos - j] != mark {
            return false;
        }
        j = j + 1;
    }
    true
}

/// Decodes an obfuscated payload of 16-bit code units.
///
/// Fails with `TooShort` when fewer than 16 units are present, and with
/// `UnknownVariant` when the header at offsets 12 to 15 selects no cipher
/// variant; otherwise the result is exactly the decode that `spec_decoded`
/// defines for the selected variant.
pub fn decode(units: &[u16]) -> (r: Result<Vec<u16>, DecodeError>)
    ensures
        units@.len() < 16 ==> r == Err::<Vec<u16>, DecodeError>(DecodeError::TooShort),
        units@.len() >= 16 && spec_variant_of(units@) is None ==> r == Err::<
            Vec<u16>,
            DecodeError,
        >(DecodeError::UnknownVariant),
        r is Ok <==> spec_variant_of(units@) is Some,
        r matches Ok(out) ==> out@ == spec_decoded(units@, spec_variant_of(units@)->Some_0),
{
    if units.len() < 16 {
        return Err(DecodeError::TooShort);
    }
    let v = match classify_variant(units) {
        Some(v) => v,
        None => {
            return Err(DecodeError::UnknownVariant);
        },
    };
    let m = checksum_at(units, v.checksum_start());
    let n = v.n();
    let low = v.window_low();
    let high = v.window_high();
    let mlen = v.marker_len();
    let total = units.len();
    let g: usize = if total > n {
        total - n
    } else {
        0
    };
    let mut out: Vec<u16> = Vec::new();
    let mut h: usize = g;
    while h >= 1
        invariant
            h <= g,
            total == units@.len(),
            g > 0 ==> g + n == total,
            n == v.spec_n(),
            low == v.spec_window_low(),
            high == v.spec_window_high(),
            mlen == v.spec_marker_len(),
            m == spec_checksum(units@, v.spec_checksum_start()),
            out@ + spec_body(units@, v, m as int, g as int, h as int) == spec_body(
                units@,
                v,
                m as int,
                g as int,
                g as int,
            ),
        decreases h,
    {
        let pos = n + h - 1;
        let u = units[pos];
        if low <= u && u <= high {
            let span: u64 = (high - low) as u64 + 1;
            let shift: u64 = ((m as u64) + ((g - h) as u64 + 1) % 10) % span;
            let off: u64 = (u - low) as u64;
            let e: u16 = low + ((off + span - shift) % span) as u16;
            assert(e == spec_rotate(
                u as int,
                v.spec_window_low(),
                v.spec_window_high(),
                m as int,
                g as int,
                h as int,
            ));
            out.push(e);
            h = h - 1;
        } else if (u == MARK_NEWLINE || u == MARK_RETURN || u == MARK_SPACE) && h >= mlen
            && marker_matches(units, pos, mlen, u) {
            let e: u16 = if u == MARK_NEWLINE {
                10
            } else if u == MARK_RETURN {
                13
            } else {
                32
            };
            out.push(e);
            h = h - mlen;
        } else {
            out.push(u);
            h = h - 1;
        }
        proof {
            assert(out@ + spec_body(units@, v, m as int, g as int, h as int) =~= spec_body(
                units@,
                v,
                m as int,
                g as int,
                g as int,
            ));
        }
    }
    proof {
        assert(out@ =~= spec_decoded(units@, v));
    }
    Ok(out)
}

} // verus!
