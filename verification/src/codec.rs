//! Byte-level codecs for the EXIF metadata edge: UCS-2 (UTF-16) text in
//! little-endian byte order, and the six 32-bit rational components of a
//! GPS coordinate. The floating-point combination of the coordinate parts
//! is left to the caller; everything byte-level is verified here.

use vstd::prelude::*;

verus! {

/// Relies on `char::from_u32`: returns `Some` exactly for Unicode scalar
/// values, and the returned character has the given code.
pub assume_specification[ char::from_u32 ](u: u32) -> (r: Option<char>)
    ensures
        r is Some <==> vstd::utf8::is_scalar(u),
        r is Some ==> r->0 as u32 == u,
;

/// Relies on `String::push`: appends the character to the string.
pub assume_specification[ String::push ](s: &mut String, c: char)
    ensures
        final(s)@ == old(s)@.push(c),
;

/// The 16-bit code units of a little-endian byte sequence of even length.
pub open spec fn ucs2_units(bytes: Seq<u8>) -> Seq<u16> {
    Seq::new((bytes.len() / 2) as nat, |i: int| (bytes[2 * i] + 256 * bytes[2 * i + 1]) as u16)
}

pub open spec fn is_high_surrogate(u: u16) -> bool {
    0xD800 <= u < 0xDC00
}

pub open spec fn is_low_surrogate(u: u16) -> bool {
    0xDC00 <= u < 0xE000
}

/// UTF-16 decoding of a sequence of code units: a unit outside the
/// surrogate range stands for itself, a high surrogate must be followed by
/// a low surrogate, and anything else is an error.
pub open spec fn decode_utf16(units: Seq<u16>) -> Option<Seq<char>>
    decreases units.len(),
{
    if units.len() == 0 {
        Some(Seq::empty())
    } else if !is_high_surrogate(units[0]) && !is_low_surrogate(units[0]) {
        match decode_utf16(units.drop_first()) {
            Some(t) => Some(seq![(units[0] as u32) as char] + t),
            None => None,
        }
    } else if is_high_surrogate(units[0]) && units.len() >= 2 && is_low_surrogate(units[1]) {
        let cp = ((0x10000 + (units[0] - 0xD800) * 0x400 + (units[1] - 0xDC00)) as u32);
        match decode_utf16(units.skip(2)) {
            Some(t) => Some(seq![cp as char] + t),
            None => None,
        }
    } else {
        None
    }
}

/// Why a UCS-2 byte sequence failed to decode.
#[derive(Clone, Copy, PartialEq, Eq, Structural, Debug)]
pub enum Ucs2Error {
    /// The byte sequence has odd length.
    OddLength,
    /// The code units are not a valid UTF-16 sequence.
    InvalidCodeUnit,
}

/// Decodes a little-endian UCS-2 byte sequence into a string; rejects odd
/// lengths and invalid UTF-16 code unit sequences.
pub fn ucs2_little_endian_to_string(bytes: &Vec<u8>) -> (r: Result<String, Ucs2Error>)
    ensures
        match r {
            Ok(s) => bytes@.len() % 2 == 0 && decode_utf16(ucs2_units(bytes@)) == Some(s@),
            Err(e) => match e {
                Ucs2Error::OddLength => bytes@.len() % 2 != 0,
                Ucs2Error::InvalidCodeUnit => bytes@.len() % 2 == 0 && decode_utf16(
                    ucs2_units(bytes@),
                ) is None,
            },
        },
{
    let n = bytes.len();
    if n % 2 != 0 {
        return Err(Ucs2Error::OddLength);
    }
    let units: Vec<u16> = {
        let mut v: Vec<u16> = Vec::new();
        let mut i: usize = 0;
        while i < n / 2
            invariant
                n == bytes@.len(),
                n % 2 == 0,
                i <= n / 2,
                v@.len() == i,
                forall|k: int| 0 <= k < i ==> v@[k] == ucs2_units(bytes@)[k],
        decreases n / 2 - i,
        {
            let lo = bytes[2 * i];
            let hi = bytes[2 * i + 1];
            let u: u16 = lo as u16 + 256 * (hi as u16);
            v.push(u);
            i = i + 1;
        }
        v
    };
    proof {
        assert(units@ =~= ucs2_units(bytes@));
    }
    let m = units.len();
    let mut s = String::new();
    let mut j: usize = 0;
    proof {
        assert(units@.skip(0) =~= units@);
        if decode_utf16(units@) is Some {
            assert(Seq::<char>::empty() + decode_utf16(units@)->0 =~= decode_utf16(units@)->0);
        }
    }
    while j < m
        invariant
            m == units@.len(),
            units@ == ucs2_units(bytes@),
            bytes@.len() % 2 == 0,
            j <= m,
            decode_utf16(units@) == (match decode_utf16(units@.skip(j as int)) {
                Some(t) => Some(s@ + t),
                None => None::<Seq<char>>,
            }),
        decreases m - j,
    {
        let ghost rest = units@.skip(j as int);
        let u = units[j];
        if !(0xD800 <= u && u < 0xE000) {
            let c = match char::from_u32(u as u32) {
                Some(c) => c,
                None => {
                    return Err(Ucs2Error::InvalidCodeUnit);
                },
            };
            let ghost spre = s@;
            s.push(c);
            proof {
                assert(rest[0] == u);
                assert(rest.drop_first() =~= units@.skip(j + 1));
                vstd::utf8::char_u32_cast(c, u as u32);
                assert(c == ((u as u32) as char));
                if decode_utf16(units@.skip(j + 1)) is Some {
                    let t = decode_utf16(units@.skip(j + 1))->0;
                    assert(decode_utf16(rest) == Some(seq![(u as u32) as char] + t));
                    assert(spre + (seq![c] + t) =~= s@ + t);
                }
            }
            j = j + 1;
        } else if u < 0xDC00 {
            if j + 1 >= m {
                proof {
                    assert(rest[0] == u);
                    assert(decode_utf16(rest) is None);
                }
                return Err(Ucs2Error::InvalidCodeUnit);
            }
            let u2 = units[j + 1];
            if !(0xDC00 <= u2 && u2 < 0xE000) {
                proof {
                    assert(rest[0] == u);
                    assert(rest[1] == u2);
                    assert(decode_utf16(rest) is None);
                }
                return Err(Ucs2Error::InvalidCodeUnit);
            }
            let cp: u32 = 0x10000 + (u as u32 - 0xD800) * 0x400 + (u2 as u32 - 0xDC00);
            let c = match char::from_u32(cp) {
                Some(c) => c,
                None => {
                    proof {
                        assert(false);
                    }
                    return Err(Ucs2Error::InvalidCodeUnit);
                },
            };
            let ghost spre = s@;
            s.push(c);
            proof {
                assert(rest[0] == u);
                assert(rest[1] == u2);
                assert(rest.skip(2) =~= units@.skip(j + 2));
                vstd::utf8::char_u32_cast(c, cp);
                assert(c == (cp as char));
                assert(cp == ((0x10000 + (rest[0] - 0xD800) * 0x400 + (rest[1] - 0xDC00)) as u32));
                if decode_utf16(units@.skip(j + 2)) is Some {
                    let t = decode_utf16(units@.skip(j + 2))->0;
                    assert(decode_utf16(rest) == Some(seq![cp as char] + t));
                    assert(spre + (seq![c] + t) =~= s@ + t);
                }
            }
            j = j + 2;
        } else {
            proof {
                assert(rest[0] == u);
                assert(decode_utf16(rest) is None);
            }
            return Err(Ucs2Error::InvalidCodeUnit);
        }
    }
    proof {
        assert(units@.skip(m as int) =~= Seq::<u16>::empty());
        assert(decode_utf16(units@.skip(m as int)) == Some(Seq::<char>::empty()));
        assert(s@ + Seq::<char>::empty() =~= s@);
    }
    Ok(s)
}

/// The little-endian UCS-2 (UTF-16) bytes of one character: two bytes for
/// a character below `0x10000`, else a surrogate pair's four bytes.
pub open spec fn char_ucs2_bytes(c: char) -> Seq<u8> {
    let v = c as u32;
    if v < 0x10000 {
        seq![(v % 256) as u8, ((v / 256) % 256) as u8]
    } else {
        let high = (0xD800 + (v - 0x10000) / 0x400) as u32;
        let low = (0xDC00 + (v - 0x10000) % 0x400) as u32;
        seq![
            (high % 256) as u8,
            (high / 256) as u8,
            (low % 256) as u8,
            (low / 256) as u8,
        ]
    }
}

/// The little-endian UCS-2 bytes of a character sequence.
pub open spec fn ucs2_bytes_of(s: Seq<char>) -> Seq<u8>
    decreases s.len(),
{
    if s.len() == 0 {
        Seq::empty()
    } else {
        char_ucs2_bytes(s[0]) + ucs2_bytes_of(s.drop_first())
    }
}

/// Encodes a string as little-endian UCS-2 (UTF-16) bytes.
pub fn string_to_ucs2_little_endian(input: &str) -> (r: Vec<u8>)
    ensures
        r@ == ucs2_bytes_of(input@),
{
    let cs = crate::text::to_chars(input);
    let n = cs.len();
    let mut out: Vec<u8> = Vec::new();
    let mut i: usize = 0;
    proof {
        assert(cs@.skip(0) =~= cs@);
    }
    while i < n
        invariant
            n == cs@.len(),
            i <= n,
            out@ + ucs2_bytes_of(cs@.skip(i as int)) == ucs2_bytes_of(cs@),
        decreases n - i,
    {
        let ghost rest = cs@.skip(i as int);
        let ghost opre = out@;
        let v: u32 = cs[i] as u32;
        if v < 0x10000 {
            out.push((v % 256) as u8);
            out.push(((v / 256) % 256) as u8);
        } else {
            let high: u32 = 0xD800 + (v - 0x10000) / 0x400;
            let low: u32 = 0xDC00 + (v - 0x10000) % 0x400;
            out.push((high % 256) as u8);
            out.push((high / 256) as u8);
            out.push((low % 256) as u8);
            out.push((low / 256) as u8);
        }
        proof {
            assert(rest[0] == cs@[i as int]);
            assert(rest.drop_first() =~= cs@.skip(i + 1));
            assert(out@ =~= opre + char_ucs2_bytes(rest[0]));
            assert(out@ + ucs2_bytes_of(cs@.skip(i + 1)) =~= opre + ucs2_bytes_of(rest));
        }
        i = i + 1;
    }
    proof {
        assert(cs@.skip(n as int) =~= Seq::<char>::empty());
        assert(out@ + Seq::<u8>::empty() =~= out@);
    }
    out
}

/// The 32-bit little-endian value at position `k` (in units of four bytes).
pub open spec fn le_u32_at(bytes: Seq<u8>, k: int) -> u32 {
    ((bytes[4 * k] + 256 * bytes[4 * k + 1] + 65536 * bytes[4 * k + 2] + 16777216 * bytes[4 * k
        + 3]) as u32)
}

/// The six rational components of a GPS coordinate: three numerator /
/// denominator pairs for degrees, minutes and seconds.
#[derive(Clone, Copy, PartialEq, Eq, Structural, Debug)]
pub struct GeoParts {
    pub degrees_num: u32,
    pub degrees_den: u32,
    pub minutes_num: u32,
    pub minutes_den: u32,
    pub seconds_num: u32,
    pub seconds_den: u32,
}

/// Why a coordinate byte sequence was rejected.
#[derive(Clone, Copy, PartialEq, Eq, Structural, Debug)]
pub enum GeoError {
    /// The byte sequence is not exactly 24 bytes long.
    WrongLength,
}

/// Parses the 24 bytes of an EXIF GPS coordinate into its six 32-bit
/// little-endian rational components; any other length is rejected.
pub fn bytes_to_geolocation_parts(bytes: &Vec<u8>) -> (r: Result<GeoParts, GeoError>)
    ensures
        match r {
            Ok(g) => {
                &&& bytes@.len() == 24
                &&& g.degrees_num == le_u32_at(bytes@, 0)
                &&& g.degrees_den == le_u32_at(bytes@, 1)
                &&& g.minutes_num == le_u32_at(bytes@, 2)
                &&& g.minutes_den == le_u32_at(bytes@, 3)
                &&& g.seconds_num == le_u32_at(bytes@, 4)
                &&& g.seconds_den == le_u32_at(bytes@, 5)
            },
            Err(e) => bytes@.len() != 24,
        },
{
    if bytes.len() != 24 {
        return Err(GeoError::WrongLength);
    }
    let mut vals: Vec<u32> = Vec::new();
    let mut k: usize = 0;
    while k < 6
        invariant
            bytes@.len() == 24,
            k <= 6,
            vals@.len() == k,
            forall|m: int| 0 <= m < k ==> vals@[m] == le_u32_at(bytes@, m),
        decreases 6 - k,
    {
        let b0 = bytes[4 * k] as u32;
        let b1 = bytes[4 * k + 1] as u32;
        let b2 = bytes[4 * k + 2] as u32;
        let b3 = bytes[4 * k + 3] as u32;
        let v: u32 = b0 + 256 * b1 + 65536 * b2 + 16777216 * b3;
        vals.push(v);
        k = k + 1;
    }
    Ok(
        GeoParts {
            degrees_num: vals[0],
            degrees_den: vals[1],
            minutes_num: vals[2],
            minutes_den: vals[3],
            seconds_num: vals[4],
            seconds_den: vals[5],
        },
    )
}

} // verus!

verus! {

proof fn lemma_units_concat(a: Seq<u8>, b: Seq<u8>)
    requires
        a.len() % 2 == 0,
    ensures
        ucs2_units(a + b) =~= ucs2_units(a) + ucs2_units(b),
{
    assert(forall|i: int| 0 <= i < a.len() ==> (a + b)[i] == a[i]);
    assert(forall|i: int| 0 <= i < b.len() ==> (a + b)[a.len() + i] == b[i]);
    assert forall|i: int|
        0 <= i < ((a.len() + b.len()) / 2) implies ucs2_units(a + b)[i] == (ucs2_units(a)
        + ucs2_units(b))[i] by {
        if i < a.len() / 2 {
            assert((a + b)[2 * i] == a[2 * i]);
            assert((a + b)[2 * i + 1] == a[2 * i + 1]);
        } else {
            let j = i - a.len() / 2;
            assert((a + b)[2 * i] == b[2 * j]);
            assert((a + b)[2 * i + 1] == b[2 * j + 1]);
        }
    }
}

/// One character's encoding, prefixed to already-decodable bytes, decodes
/// to that character followed by the rest.
#[verifier::rlimit(100)]
proof fn lemma_char_round_trip(c: char, rb: Seq<u8>, t: Seq<char>)
    requires
        rb.len() % 2 == 0,
        decode_utf16(ucs2_units(rb)) == Some(t),
    ensures
        (char_ucs2_bytes(c) + rb).len() % 2 == 0,
        decode_utf16(ucs2_units(char_ucs2_bytes(c) + rb)) == Some(seq![c] + t),
{
    vstd::utf8::char_is_scalar(c);
    let cb = char_ucs2_bytes(c);
    let v = c as u32;
    lemma_units_concat(cb, rb);
    if v < 0x10000 {
        let u = ucs2_units(cb)[0];
        assert(u == ((cb[0] + 256 * cb[1]) as u16));
        assert(cb[0] == (v % 256) as u8);
        assert(cb[1] == ((v / 256) % 256) as u8);
        assert(u == v as u16);
        assert((u as u32) == v);
        assert(!is_high_surrogate(u) && !is_low_surrogate(u));
        let units = ucs2_units(cb + rb);
        assert(units =~= seq![u] + ucs2_units(rb));
        assert(units[0] == u);
        assert(units.drop_first() =~= ucs2_units(rb));
        vstd::utf8::char_u32_cast(c, u as u32);
        assert(((u as u32) as char) == c);
        assert(decode_utf16(units) == Some(seq![c] + t));
    } else {
        let high = ((0xD800 + (v - 0x10000) / 0x400) as u32);
        let low = ((0xDC00 + (v - 0x10000) % 0x400) as u32);
        assert((v - 0x10000) / 0x400 <= 0x3FF);
        assert(high < 0xDC00);
        assert(low < 0xE000);
        let u0 = ucs2_units(cb)[0];
        let u1 = ucs2_units(cb)[1];
        assert(u0 == ((cb[0] + 256 * cb[1]) as u16));
        assert(u1 == ((cb[2] + 256 * cb[3]) as u16));
        assert(cb[0] == (high % 256) as u8);
        assert(cb[1] == (high / 256) as u8);
        assert(cb[2] == (low % 256) as u8);
        assert(cb[3] == (low / 256) as u8);
        assert(u0 == high as u16);
        assert(u1 == low as u16);
        assert((u0 as u32) == high);
        assert((u1 as u32) == low);
        assert(is_high_surrogate(u0));
        assert(is_low_surrogate(u1));
        let units = ucs2_units(cb + rb);
        assert(units =~= seq![u0, u1] + ucs2_units(rb));
        assert(units[0] == u0);
        assert(units[1] == u1);
        assert(units.skip(2) =~= ucs2_units(rb));
        let cp = ((0x10000 + (u0 - 0xD800) * 0x400 + (u1 - 0xDC00)) as u32);
        assert(cp == v);
        vstd::utf8::char_u32_cast(c, cp);
        assert((cp as char) == c);
        assert(decode_utf16(units) == Some(seq![c] + t));
    }
}

/// Round trip of the UCS-2 codecs: decoding the encoding of any character
/// sequence gives back exactly that sequence.
pub proof fn lemma_ucs2_round_trip(s: Seq<char>)
    ensures
        ucs2_bytes_of(s).len() % 2 == 0,
        decode_utf16(ucs2_units(ucs2_bytes_of(s))) == Some(s),
    decreases s.len(),
{
    if s.len() == 0 {
        assert(ucs2_bytes_of(s) =~= Seq::<u8>::empty());
        assert(ucs2_units(ucs2_bytes_of(s)) =~= Seq::<u16>::empty());
        assert(Seq::<char>::empty() =~= s);
    } else {
        let c = s[0];
        let rest = s.drop_first();
        lemma_ucs2_round_trip(rest);
        let rb = ucs2_bytes_of(rest);
        let t = decode_utf16(ucs2_units(rb))->0;
        lemma_char_round_trip(c, rb, t);
        assert(ucs2_bytes_of(s) == char_ucs2_bytes(c) + rb);
        assert(seq![c] + t =~= s);
    }
}

} // verus!
