//! Where on the earth a node is.

use crate::error::{Error, ErrorView};
use crate::text::{
    find_char, slice, split_once, texts_are_split_at_the_first_separator, to_chars, to_text,
};
use vstd::prelude::*;

verus! {

/// A single-precision number, held as its IEEE 754 bit pattern.
#[derive(Clone, Copy, Debug)]
pub struct Single {
    pub bits: u32,
}

impl Single {
    /// The bit pattern without the sign.
    pub open spec fn magnitude(self) -> int {
        self.bits as int % 0x8000_0000
    }

    /// Whether this is no number.
    pub open spec fn is_nan(self) -> bool {
        self.magnitude() > 0x7f80_0000
    }

    /// Whether the numbers compare equal: neither is NaN, and they are the
    /// same or both zero, of whatever sign.
    pub open spec fn equals(self, other: Single) -> bool {
        &&& !self.is_nan()
        &&& !other.is_nan()
        &&& self.bits == other.bits || self.magnitude() == 0 && other.magnitude() == 0
    }
}

impl PartialEq for Single {
    fn eq(&self, other: &Single) -> (equal: bool) {
        let a: u32 = self.bits % 0x8000_0000;
        let b: u32 = other.bits % 0x8000_0000;
        a <= 0x7f80_0000 && b <= 0x7f80_0000 && (self.bits == other.bits || a == 0 && b == 0)
    }
}

impl vstd::std_specs::cmp::PartialEqSpecImpl for Single {
    open spec fn obeys_eq_spec() -> bool {
        true
    }

    open spec fn eq_spec(&self, other: &Single) -> bool {
        self.equals(*other)
    }
}

/// A place on the earth, in degrees.
#[derive(Clone, Copy, Debug)]
pub struct Coordinates {
    pub latitude: Single,
    pub longitude: Single,
}

impl Coordinates {
    /// Whether the coordinates compare equal.
    pub open spec fn equals(self, other: Coordinates) -> bool {
        self.latitude.equals(other.latitude) && self.longitude.equals(other.longitude)
    }

    /// Whether neither coordinate is NaN.
    pub open spec fn are_numbers(self) -> bool {
        !self.latitude.is_nan() && !self.longitude.is_nan()
    }
}

impl PartialEq for Coordinates {
    fn eq(&self, other: &Coordinates) -> (equal: bool) {
        self.latitude == other.latitude && self.longitude == other.longitude
    }
}

impl vstd::std_specs::cmp::PartialEqSpecImpl for Coordinates {
    open spec fn obeys_eq_spec() -> bool {
        true
    }

    open spec fn eq_spec(&self, other: &Coordinates) -> bool {
        self.equals(*other)
    }
}

/// What the two texts around the first comma of written coordinates are as
/// single-precision numbers; nothing for a text that is no number.
#[derive(Clone, Copy, Debug)]
pub struct CoordinateNumbers {
    pub latitude: Option<Single>,
    pub longitude: Option<Single>,
}

/// The coordinates that a text writes as `<lat>,<lon>`, if it has a comma and
/// the texts around the first one are numbers.
pub open spec fn coordinates_of(text: Seq<char>, numbers: CoordinateNumbers) -> Option<
    Coordinates,
> {
    match (split_once(text, ','), numbers.latitude, numbers.longitude) {
        (Some(_), Some(latitude), Some(longitude)) => Some(Coordinates { latitude, longitude }),
        _ => None,
    }
}

/// Coordinates that are read are the two numbers, bit for bit, the latitude
/// first. They are read just if the text has a comma and both numbers are
/// there.
pub proof fn coordinates_are_the_numbers_that_were_read(
    text: Seq<char>,
    numbers: CoordinateNumbers,
)
    ensures
        coordinates_of(text, numbers) matches Some(c) ==> numbers.latitude == Some(c.latitude)
            && numbers.longitude == Some(c.longitude),
        coordinates_of(text, numbers) is Some <==> text.contains(',') && numbers.latitude is Some
            && numbers.longitude is Some,
{
    texts_are_split_at_the_first_separator(text, ',');
}

/// Numbers compare equal just if they are of the same bits or both zero, and
/// none of them is one of the bit patterns of NaN.
pub proof fn numbers_are_compared_by_their_bits(a: Single, b: Single)
    ensures
        a.is_nan() <==> 0x7f80_0000 < a.bits < 0x8000_0000 || 0xff80_0000 < a.bits,
        a.equals(b) ==> a.bits == b.bits || (a.bits == 0 || a.bits == 0x8000_0000) && (b.bits == 0
            || b.bits == 0x8000_0000),
        a.equals(b) ==> !(0x7f80_0000 < a.bits < 0x8000_0000) && a.bits <= 0xff80_0000,
        a.bits == b.bits && !(0x7f80_0000 < a.bits < 0x8000_0000) && a.bits <= 0xff80_0000
            ==> a.equals(b),
        (a.bits == 0 || a.bits == 0x8000_0000) && (b.bits == 0 || b.bits == 0x8000_0000)
            ==> a.equals(b),
        a.equals(b) == b.equals(a),
{
}

/// Coordinates compare equal just if both their numbers do.
pub proof fn coordinates_are_compared_by_their_numbers(a: Coordinates, b: Coordinates)
    ensures
        a.equals(b) <==> a.latitude.equals(b.latitude) && a.longitude.equals(b.longitude),
        a.are_numbers() <==> !a.latitude.is_nan() && !a.longitude.is_nan(),
{
}

/// The texts around the first comma: the two that are to be read as numbers.
pub fn coordinate_texts(text: &str) -> (parts: Option<(String, String)>)
    ensures
        match parts {
            Some(p) => split_once(text@, ',') == Some((p.0@, p.1@)),
            None => split_once(text@, ',') is None,
        },
        parts matches Some(p) ==> p.0@ + seq![','] + p.1@ == text@ && !p.0@.contains(','),
        parts is None <==> !text@.contains(','),
{
    proof {
        texts_are_split_at_the_first_separator(text@, ',');
    }
    let chars = to_chars(text);
    let at = find_char(chars.as_slice(), ',');
    if at < chars.len() {
        let before = slice(chars.as_slice(), 0, at);
        let after = slice(chars.as_slice(), at + 1, chars.len());
        assert(before@ == text@.take(at as int));
        assert(after@ == text@.skip(at + 1));
        Some((to_text(before.as_slice()), to_text(after.as_slice())))
    } else {
        None
    }
}

impl Coordinates {
    /// Reads coordinates, given what the texts around the first comma are as
    /// numbers.
    pub fn from_str(text: &str, numbers: CoordinateNumbers) -> (read: Result<Coordinates, Error>)
        ensures
            match read {
                Ok(c) => coordinates_of(text@, numbers) == Some(c),
                Err(e) => coordinates_of(text@, numbers) is None && e@ == (
                ErrorView::InvalidCoordinates { text: text@ }),
            },
            read matches Ok(c) ==> numbers.latitude == Some(c.latitude) && numbers.longitude
                == Some(c.longitude),
            read is Ok <==> text@.contains(',') && numbers.latitude is Some
                && numbers.longitude is Some,
            read matches Err(e) ==> e matches Error::InvalidCoordinates { text: bad } && bad@
                == text@,
    {
        proof {
            texts_are_split_at_the_first_separator(text@, ',');
        }
        match (coordinate_texts(text), numbers.latitude, numbers.longitude) {
            (Some(_), Some(latitude), Some(longitude)) => Ok(Coordinates { latitude, longitude }),
            _ => Err(Error::InvalidCoordinates { text: text.to_owned() }),
        }
    }
}

} // verus!
