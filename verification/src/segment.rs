//! One segment: a marker and, for most markers, a length-delimited payload.
//!
//! [`SegmentView::read`] says what the front of any buffer holds, and
//! [`SegmentView::encoding`] says how a segment is written. The two undo each
//! other, which [`lemma_read_inverts_encoding`] and
//! [`lemma_read_yields_a_prefix`] state.

use crate::marker::{InvalidMarkerError, Marker};
use crate::text::{append_decimal, decimal};
use vstd::prelude::*;
use vstd::slice::slice_to_vec;

verus! {

/// The largest payload that a length field can announce.
pub const MAX_PAYLOAD_LEN: usize = 0xFFFD;

/// A decoded segment. `data` is `None` for a marker that stands alone, and
/// the payload, which may be empty, for every other marker.
#[derive(Debug, PartialEq, Eq)]
pub struct Segment {
    pub marker: Marker,
    pub data: Option<Vec<u8>>,
}

/// A segment as a mathematical value.
pub struct SegmentView {
    pub marker: Marker,
    pub data: Option<Seq<u8>>,
}

/// Why the front of a buffer is not a segment.
#[derive(Debug, Clone, Copy, PartialEq, Eq, Structural)]
pub enum InvalidSegmentError {
    /// The buffer holds this many bytes, which is fewer than a marker takes.
    TooFewBytes(usize),
    /// The first two bytes are no marker, for the reason given.
    InvalidMarker(InvalidMarkerError),
    /// The marker calls for a length, and fewer than two bytes follow it.
    NoLengthBytes,
    /// The length field holds this value, which does not even cover the field
    /// itself.
    LengthLessThanTwo(usize),
    /// The length field announces `expected` payload bytes, and only `actual`
    /// bytes follow it.
    TooFewDataBytes { expected: usize, actual: usize },
}

impl View for Segment {
    type V = SegmentView;

    open spec fn view(&self) -> SegmentView {
        SegmentView {
            marker: self.marker,
            data: match self.data {
                Some(payload) => Some(payload@),
                None => None,
            },
        }
    }
}

impl DeepView for Segment {
    type V = SegmentView;

    open spec fn deep_view(&self) -> SegmentView {
        self@
    }
}

/// The value of a length field: two bytes, the high one first.
pub open spec fn length_field(high: u8, low: u8) -> int {
    (high as int) * 256 + (low as int)
}

/// The two bytes of a length field that holds `length`.
pub open spec fn length_bytes(length: int) -> Seq<u8>
    recommends
        0 <= length <= 0xFFFF,
{
    seq![(length / 256) as u8, (length % 256) as u8]
}

impl SegmentView {
    /// A segment is well formed when it has a payload exactly if its marker
    /// calls for one, and the payload is short enough for the length field.
    pub open spec fn wf(self) -> bool {
        &&& self.data is None <==> self.marker.is_standalone()
        &&& self.data matches Some(payload) ==> payload.len() <= MAX_PAYLOAD_LEN
    }

    /// The number of bytes that the segment is written in.
    pub open spec fn encoded_len(self) -> nat {
        match self.data {
            None => 2,
            Some(payload) => 4 + payload.len(),
        }
    }

    /// The bytes that the segment is written as: the marker, and for a
    /// segment with a payload the length field and the payload.
    pub open spec fn encoding(self) -> Seq<u8> {
        match self.data {
            None => self.marker.encoding(),
            Some(payload) => self.marker.encoding() + length_bytes(payload.len() as int + 2) + payload,
        }
    }

    /// What the front of `bytes` holds: a segment and the number of bytes it
    /// takes, or the first reason why it is none. Bytes behind the segment
    /// play no part.
    pub open spec fn read(bytes: Seq<u8>) -> Result<(SegmentView, nat), InvalidSegmentError> {
        if bytes.len() < 2 {
            Err(InvalidSegmentError::TooFewBytes(bytes.len() as usize))
        } else {
            match Marker::decode(bytes.subrange(0, 2)) {
                Err(cause) => Err(InvalidSegmentError::InvalidMarker(cause)),
                Ok(marker) => {
                    if marker.is_standalone() {
                        Ok((SegmentView { marker, data: None }, 2))
                    } else if bytes.len() < 4 {
                        Err(InvalidSegmentError::NoLengthBytes)
                    } else {
                        let length = length_field(bytes[2], bytes[3]);
                        if length < 2 {
                            Err(InvalidSegmentError::LengthLessThanTwo(length as usize))
                        } else if bytes.len() < length + 2 {
                            Err(
                                InvalidSegmentError::TooFewDataBytes {
                                    expected: (length - 2) as usize,
                                    actual: (bytes.len() - 4) as usize,
                                },
                            )
                        } else {
                            Ok(
                                (
                                    SegmentView {
                                        marker,
                                        data: Some(bytes.subrange(4, length + 2)),
                                    },
                                    (length + 2) as nat,
                                ),
                            )
                        }
                    }
                },
            }
        }
    }
}

impl Segment {
    /// Reads the segment at the front of `bytes` and says how many bytes it
    /// takes. Whatever follows those bytes is neither read nor counted.
    ///
    /// A segment needs, in this order: two bytes for the marker; a known
    /// marker; for a marker with a payload, two bytes for the length; a length
    /// of at least two; as many payload bytes as the length announces. The
    /// first of these that is missing is the error.
    pub fn read_from_start_of_bytes(bytes: &[u8]) -> (r: Result<
        (Segment, usize),
        InvalidSegmentError,
    >)
        ensures
            match r {
                Ok((segment, used)) => SegmentView::read(bytes@) == Ok::<_, InvalidSegmentError>(
                    (segment@, used as nat),
                ),
                Err(e) => SegmentView::read(bytes@) == Err::<(SegmentView, nat), _>(e),
            },
            // A segment that is read is well formed, and the bytes that it
            // takes are its encoding: none of them is skipped, and none behind
            // them is read.
            r matches Ok((segment, used)) ==> {
                &&& segment@.wf()
                &&& used == segment@.encoded_len()
                &&& used <= bytes@.len()
                &&& bytes@.subrange(0, used as int) == segment@.encoding()
            },
            // Fewer than two bytes hold no marker.
            bytes@.len() < 2 ==> (r matches Err(e) && e == InvalidSegmentError::TooFewBytes(
                bytes@.len() as usize,
            )),
            // Two bytes that are no marker: the marker's error is kept.
            bytes@.len() >= 2 ==> (Marker::decode(bytes@.subrange(0, 2)) matches Err(cause) ==> (r
                matches Err(e) && e == InvalidSegmentError::InvalidMarker(cause))),
            Marker::leading(bytes@) matches Some(marker) ==> {
                let has_length = !marker.is_standalone() && bytes@.len() >= 4;
                let length = length_field(bytes@[2], bytes@[3]);
                // A marker that stands alone is a segment of two bytes,
                // whatever follows it.
                &&& marker.is_standalone() ==> (r matches Ok((segment, used)) && used == 2
                    && segment.marker == marker && segment.data is None)
                // Any other marker needs two bytes for its length,
                &&& !marker.is_standalone() && bytes@.len() < 4 ==> (r matches Err(e) && e
                    == InvalidSegmentError::NoLengthBytes)
                // a length that covers at least the length field,
                &&& has_length && length < 2 ==> (r matches Err(e) && e
                    == InvalidSegmentError::LengthLessThanTwo(length as usize))
                // and as many bytes behind the length field as the length
                // announces.
                &&& has_length && 2 <= length && bytes@.len() < 2 + length ==> (r matches Err(e)
                    && e == (InvalidSegmentError::TooFewDataBytes {
                    expected: (length - 2) as usize,
                    actual: (bytes@.len() - 4) as usize,
                }))
                // Then the segment takes the marker and what the length
                // counts, and its payload is what the length field leaves of
                // that.
                &&& has_length && 2 <= length && 2 + length <= bytes@.len() ==> (r matches Ok(
                    (segment, used),
                ) && used == 2 + length && segment.marker == marker && (segment.data matches Some(
                    payload,
                ) && payload@.len() == length - 2 && payload@ == bytes@.subrange(4, 2 + length)))
            },
    {
        let bytes_len = bytes.len();
        if bytes_len < 2 {
            Err(InvalidSegmentError::too_few_bytes(bytes_len))
        } else {
            match Marker::from_bytes(&bytes[0..2]) {
                Err(error) => Err(InvalidSegmentError::invalid_marker(error)),
                Ok(marker) => {
                    if marker == Marker::StartOfImage || marker == Marker::EndOfImage {
                        let segment = Segment { marker, data: None };
                        Ok((segment, 2))
                    } else if bytes_len < 4 {
                        Err(InvalidSegmentError::no_length_bytes())
                    } else {
                        let length = (bytes[2] as usize) * 256 + (bytes[3] as usize);
                        if length < 2 {
                            Err(InvalidSegmentError::length_less_than_two(length))
                        } else if bytes_len < length + 2 {
                            Err(InvalidSegmentError::too_few_data_bytes(length - 2, bytes_len - 4))
                        } else {
                            let payload = slice_to_vec(&bytes[4..length + 2]);
                            let segment = Segment { marker, data: Some(payload) };
                            proof {
                                lemma_read_yields_a_prefix(bytes@);
                            }
                            Ok((segment, length + 2))
                        }
                    }
                },
            }
        }
    }

    /// A one-line summary: the marker's name and the size of the payload.
    pub open spec fn summary_text(self) -> Seq<char> {
        "{ marker : "@ + self.marker.name() + ", data : "@ + match self.data {
            None => "None"@,
            Some(payload) => decimal(payload@.len()) + " bytes"@,
        } + " }"@
    }

    /// Summarises the segment in one line: its marker's name, and the size of
    /// its payload or `None`.
    pub fn summary_string(&self) -> (s: String)
        ensures
            s@ == self.summary_text(),
    {
        let mut s = String::from_str("{ marker : ");
        let name = self.marker.print_name();
        s.append(name.as_str());
        s.append(", data : ");
        match &self.data {
            None => {
                s.append("None");
            },
            Some(payload) => {
                append_decimal(&mut s, payload.len());
                s.append(" bytes");
            },
        }
        s.append(" }");
        s
    }
}

impl InvalidSegmentError {
    /// The sentence that describes the error.
    pub open spec fn description_text(self) -> Seq<char> {
        match self {
            InvalidSegmentError::TooFewBytes(n) => if n == 0 {
                "Attempted to read segment from an empty byte slice."@
            } else {
                "Attempted to read segment from a slice containing only "@ + decimal(n as nat)
                    + " bytes."@
            },
            InvalidSegmentError::InvalidMarker(_) => "Segment began with an invalid marker."@,
            InvalidSegmentError::NoLengthBytes =>
                "Marker requires length bytes, but have fewer than two byes left in the input."@,
            InvalidSegmentError::LengthLessThanTwo(n) => "Length of segment, "@ + decimal(n as nat)
                + ", was less than two. This doesn't even cover the two data bytes!"@,
            InvalidSegmentError::TooFewDataBytes { expected, actual } => "Segment wants "@
                + decimal(expected as nat) + " data bytes, but there are only "@ + decimal(
                actual as nat,
            ) + " bytes remaining in the slice."@,
        }
    }

    /// The error for a buffer of `n` bytes, too short to hold a marker.
    pub fn too_few_bytes(n: usize) -> (e: InvalidSegmentError)
        ensures
            e == InvalidSegmentError::TooFewBytes(n),
    {
        InvalidSegmentError::TooFewBytes(n)
    }

    /// The error for a buffer whose first two bytes are no marker.
    pub fn invalid_marker(error: InvalidMarkerError) -> (e: InvalidSegmentError)
        ensures
            e == InvalidSegmentError::InvalidMarker(error),
    {
        InvalidSegmentError::InvalidMarker(error)
    }

    /// The error for a marker that is not followed by a whole length field.
    pub fn no_length_bytes() -> (e: InvalidSegmentError)
        ensures
            e == InvalidSegmentError::NoLengthBytes,
    {
        InvalidSegmentError::NoLengthBytes
    }

    /// The error for a length field that holds `n`, less than two.
    pub fn length_less_than_two(n: usize) -> (e: InvalidSegmentError)
        ensures
            e == InvalidSegmentError::LengthLessThanTwo(n),
    {
        InvalidSegmentError::LengthLessThanTwo(n)
    }

    /// The error for a payload of `n_expected` bytes of which only `n_actual`
    /// are there.
    pub fn too_few_data_bytes(n_expected: usize, n_actual: usize) -> (e: InvalidSegmentError)
        ensures
            e == (InvalidSegmentError::TooFewDataBytes { expected: n_expected, actual: n_actual }),
    {
        InvalidSegmentError::TooFewDataBytes { expected: n_expected, actual: n_actual }
    }

    /// The marker error behind this error, where there is one.
    pub fn cause(&self) -> (c: Option<InvalidMarkerError>)
        ensures
            c == match *self {
                InvalidSegmentError::InvalidMarker(cause) => Some(cause),
                _ => None,
            },
    {
        match self {
            InvalidSegmentError::InvalidMarker(cause) => Some(*cause),
            _ => None,
        }
    }

    /// Describes the error in a sentence.
    pub fn description(&self) -> (s: String)
        ensures
            s@ == self.description_text(),
    {
        match self {
            InvalidSegmentError::TooFewBytes(n) => {
                if *n == 0 {
                    String::from_str("Attempted to read segment from an empty byte slice.")
                } else {
                    let mut s = String::from_str(
                        "Attempted to read segment from a slice containing only ",
                    );
                    append_decimal(&mut s, *n);
                    s.append(" bytes.");
                    s
                }
            },
            InvalidSegmentError::InvalidMarker(_) => String::from_str(
                "Segment began with an invalid marker.",
            ),
            InvalidSegmentError::NoLengthBytes => String::from_str(
                "Marker requires length bytes, but have fewer than two byes left in the input.",
            ),
            InvalidSegmentError::LengthLessThanTwo(n) => {
                let mut s = String::from_str("Length of segment, ");
                append_decimal(&mut s, *n);
                s.append(", was less than two. This doesn't even cover the two data bytes!");
                s
            },
            InvalidSegmentError::TooFewDataBytes { expected, actual } => {
                let mut s = String::from_str("Segment wants ");
                append_decimal(&mut s, *expected);
                s.append(" data bytes, but there are only ");
                append_decimal(&mut s, *actual);
                s.append(" bytes remaining in the slice.");
                s
            },
        }
    }
}

/// Reading undoes writing: from the encoding of a well-formed segment, with
/// anything at all behind it, exactly that segment is read, and exactly the
/// bytes of its encoding are taken.
pub proof fn lemma_read_inverts_encoding(segment: SegmentView, rest: Seq<u8>)
    requires
        segment.wf(),
    ensures
        segment.encoding().len() == segment.encoded_len(),
        SegmentView::read(segment.encoding() + rest) == Ok::<_, InvalidSegmentError>(
            (segment, segment.encoded_len()),
        ),
{
    let bytes = segment.encoding() + rest;
    let code = segment.marker.encoding();
    assert(code.len() == 2 && code[0] == crate::marker::MARKER_PREFIX && code[1]
        == segment.marker.code());
    crate::marker::lemma_decode_inverts_encoding(segment.marker, code);
    if let Some(payload) = segment.data {
        assert(bytes.subrange(4, payload.len() as int + 4) =~= payload);
    }
}

/// Writing undoes reading: whatever is read from a buffer is a well-formed
/// segment, and its encoding is the very bytes that were taken from the front
/// of the buffer.
pub proof fn lemma_read_yields_a_prefix(bytes: Seq<u8>)
    ensures
        SegmentView::read(bytes) matches Ok((segment, used)) ==> {
            &&& segment.wf()
            &&& 2 <= used <= bytes.len()
            &&& used == segment.encoded_len()
            &&& bytes.subrange(0, used as int) == segment.encoding()
        },
{
    if let Ok((segment, _)) = SegmentView::read(bytes) {
        crate::marker::lemma_decode_inverts_encoding(segment.marker, bytes.subrange(0, 2));
    }
}

} // verus!
