//! The two-byte markers that open each segment.
//!
//! Every marker is the byte `0xFF` followed by one byte that tells the kind
//! of segment. [`Marker::code`] is the table of known kinds, and
//! [`Marker::decode`] says what [`Marker::from_bytes`] makes of any buffer.

use crate::text::{append_hex_pair, hex_pair};
use vstd::prelude::*;

verus! {

/// The first byte of every marker.
pub const MARKER_PREFIX: u8 = 0xFF;

/// The kind of a segment.
#[derive(Debug, Clone, Copy, PartialEq, Eq, Structural)]
pub enum Marker {
    DefineHuffmanTable,
    StartOfImage,
    EndOfImage,
    StartOfScan,
    DefineQuantizationTable,
    Comment,
}

/// Why a buffer is not a marker.
#[derive(Debug, Clone, Copy, PartialEq, Eq, Structural)]
pub enum InvalidMarkerError {
    /// The buffer holds fewer than two bytes.
    TooFewBytes,
    /// The buffer holds more than two bytes.
    TooManyBytes,
    /// The buffer holds these two bytes, and no marker is written so.
    UnknownCode(u8, u8),
}

impl Marker {
    /// The second byte of the marker.
    pub open spec fn code(self) -> u8 {
        match self {
            Marker::DefineHuffmanTable => 0xC4,
            Marker::StartOfImage => 0xD8,
            Marker::EndOfImage => 0xD9,
            Marker::StartOfScan => 0xDA,
            Marker::DefineQuantizationTable => 0xDB,
            Marker::Comment => 0xFE,
        }
    }

    /// The marker whose second byte is `code`, if there is one.
    pub open spec fn with_code(code: u8) -> Option<Marker> {
        if code == 0xC4 {
            Some(Marker::DefineHuffmanTable)
        } else if code == 0xD8 {
            Some(Marker::StartOfImage)
        } else if code == 0xD9 {
            Some(Marker::EndOfImage)
        } else if code == 0xDA {
            Some(Marker::StartOfScan)
        } else if code == 0xDB {
            Some(Marker::DefineQuantizationTable)
        } else if code == 0xFE {
            Some(Marker::Comment)
        } else {
            None
        }
    }

    /// The two bytes that the marker is written as.
    pub open spec fn encoding(self) -> Seq<u8> {
        seq![MARKER_PREFIX, self.code()]
    }

    /// True of the markers that are a whole segment by themselves: neither a
    /// length nor a payload follows them.
    pub open spec fn is_standalone(self) -> bool {
        self == Marker::StartOfImage || self == Marker::EndOfImage
    }

    /// What a buffer decodes to: the marker that is written as exactly these
    /// bytes, or the reason why there is none.
    pub open spec fn decode(bytes: Seq<u8>) -> Result<Marker, InvalidMarkerError> {
        if bytes.len() < 2 {
            Err(InvalidMarkerError::TooFewBytes)
        } else if bytes.len() > 2 {
            Err(InvalidMarkerError::TooManyBytes)
        } else if bytes[0] == MARKER_PREFIX && Marker::with_code(bytes[1]) is Some {
            Ok(Marker::with_code(bytes[1])->Some_0)
        } else {
            Err(InvalidMarkerError::UnknownCode(bytes[0], bytes[1]))
        }
    }

    /// The marker that `bytes` starts with, if it starts with one.
    pub open spec fn leading(bytes: Seq<u8>) -> Option<Marker> {
        if bytes.len() < 2 {
            None
        } else {
            match Marker::decode(bytes.subrange(0, 2)) {
                Ok(marker) => Some(marker),
                Err(_) => None,
            }
        }
    }

    /// The marker's name.
    pub open spec fn name(self) -> Seq<char> {
        match self {
            Marker::DefineHuffmanTable => "DefineHuffmanTable"@,
            Marker::StartOfImage => "StartOfImage"@,
            Marker::EndOfImage => "EndOfImage"@,
            Marker::StartOfScan => "StartOfScan"@,
            Marker::DefineQuantizationTable => "DefineQuantizationTable"@,
            Marker::Comment => "Comment"@,
        }
    }

    /// Decodes a buffer of exactly two bytes into the marker that it spells.
    ///
    /// A buffer of any other length is refused whatever it holds, and so is a
    /// pair of bytes that spells no marker; the error then carries the pair.
    pub fn from_bytes(bytes: &[u8]) -> (r: Result<Marker, InvalidMarkerError>)
        ensures
            r == Marker::decode(bytes@),
            bytes@.len() < 2 ==> r == Err::<Marker, _>(InvalidMarkerError::TooFewBytes),
            bytes@.len() > 2 ==> r == Err::<Marker, _>(InvalidMarkerError::TooManyBytes),
            forall|marker: Marker|
                bytes@ == #[trigger] marker.encoding() ==> r == Ok::<_, InvalidMarkerError>(marker),
            bytes@.len() == 2 && (forall|marker: Marker| bytes@ != #[trigger] marker.encoding())
                ==> r == Err::<Marker, _>(InvalidMarkerError::UnknownCode(bytes@[0], bytes@[1])),
    {
        if bytes.len() != 2 {
            return Err(InvalidMarkerError::new(bytes));
        }
        let r = match (bytes[0], bytes[1]) {
            (0xFF, 0xC4) => Ok(Marker::DefineHuffmanTable),
            (0xFF, 0xD8) => Ok(Marker::StartOfImage),
            (0xFF, 0xD9) => Ok(Marker::EndOfImage),
            (0xFF, 0xDA) => Ok(Marker::StartOfScan),
            (0xFF, 0xDB) => Ok(Marker::DefineQuantizationTable),
            (0xFF, 0xFE) => Ok(Marker::Comment),
            _ => Err(InvalidMarkerError::new(bytes)),
        };
        proof {
            assert forall|marker: Marker| bytes@ == #[trigger] marker.encoding() implies r == Ok::<
                _,
                InvalidMarkerError,
            >(marker) by {
                lemma_decode_inverts_encoding(marker, bytes@);
            }
            if let Ok(marker) = r {
                assert(bytes@ =~= marker.encoding());
            }
        }
        r
    }

    /// The marker's name, as it is written in this enum.
    pub fn print_name(&self) -> (s: String)
        ensures
            s@ == self.name(),
    {
        match self {
            Marker::DefineHuffmanTable => String::from_str("DefineHuffmanTable"),
            Marker::StartOfImage => String::from_str("StartOfImage"),
            Marker::EndOfImage => String::from_str("EndOfImage"),
            Marker::StartOfScan => String::from_str("StartOfScan"),
            Marker::DefineQuantizationTable => String::from_str("DefineQuantizationTable"),
            Marker::Comment => String::from_str("Comment"),
        }
    }
}

impl InvalidMarkerError {
    /// The sentence that describes the error.
    pub open spec fn description_text(self) -> Seq<char> {
        match self {
            InvalidMarkerError::TooFewBytes => "Too few bytes to be a valid marker."@,
            InvalidMarkerError::TooManyBytes => "Too many bytes to be a valid marker."@,
            InvalidMarkerError::UnknownCode(b0, b1) => hex_pair(b0) + " "@ + hex_pair(b1)
                + " is not a valid marker."@,
        }
    }

    /// The error for a buffer that is known not to be a marker: by its length
    /// where that is not two, and else by the two bytes it holds.
    pub fn new(bytes: &[u8]) -> (e: InvalidMarkerError)
        ensures
            bytes@.len() < 2 ==> e == InvalidMarkerError::TooFewBytes,
            bytes@.len() > 2 ==> e == InvalidMarkerError::TooManyBytes,
            bytes@.len() == 2 ==> e == InvalidMarkerError::UnknownCode(bytes@[0], bytes@[1]),
    {
        if bytes.len() > 2 {
            InvalidMarkerError::TooManyBytes
        } else if bytes.len() < 2 {
            InvalidMarkerError::TooFewBytes
        } else {
            InvalidMarkerError::UnknownCode(bytes[0], bytes[1])
        }
    }

    /// Describes the error in a sentence.
    pub fn description(&self) -> (s: String)
        ensures
            s@ == self.description_text(),
    {
        match self {
            InvalidMarkerError::TooFewBytes => String::from_str(
                "Too few bytes to be a valid marker.",
            ),
            InvalidMarkerError::TooManyBytes => String::from_str(
                "Too many bytes to be a valid marker.",
            ),
            InvalidMarkerError::UnknownCode(b0, b1) => {
                let mut s = String::new();
                append_hex_pair(&mut s, *b0);
                s.append(" ");
                append_hex_pair(&mut s, *b1);
                s.append(" is not a valid marker.");
                s
            },
        }
    }
}

/// The marker that a buffer starts with, if it starts with one.
pub fn get_marker_from_bytes(bytes: &[u8]) -> (r: Option<Marker>)
    ensures
        r == Marker::leading(bytes@),
        match r {
            Some(marker) => bytes@.len() >= 2 && bytes@.subrange(0, 2) == marker.encoding(),
            None => forall|marker: Marker|
                bytes@.len() >= 2 ==> bytes@.subrange(0, 2) != #[trigger] marker.encoding(),
        },
{
    if bytes.len() < 2 {
        None
    } else {
        match Marker::from_bytes(&bytes[0..2]) {
            Ok(marker) => Some(marker),
            Err(_) => None,
        }
    }
}

/// Decoding undoes encoding, and nothing else decodes to a marker: each
/// marker is written in exactly one way.
pub proof fn lemma_decode_inverts_encoding(marker: Marker, bytes: Seq<u8>)
    ensures
        Marker::decode(marker.encoding()) == Ok::<_, InvalidMarkerError>(marker),
        Marker::decode(bytes) == Ok::<_, InvalidMarkerError>(marker) <==> bytes
            == marker.encoding(),
{
    if Marker::decode(bytes) == Ok::<_, InvalidMarkerError>(marker) {
        assert(bytes =~= marker.encoding());
    }
}

/// No two markers are written alike.
pub proof fn lemma_encoding_is_injective(marker: Marker, other: Marker)
    ensures
        marker.encoding() == other.encoding() <==> marker == other,
{
}

} // verus!
