//! A whole buffer, read segment after segment.
//!
//! [`leading_segments`] is the run of segments that can be read from the
//! front of a buffer, one behind the other. A buffer is a stream when that run
//! covers it to the last byte; [`parse`] says so, and says where and why the
//! run ends otherwise. [`encode_all`] writes a run of segments back.

use crate::segment::{
    lemma_read_inverts_encoding,
    lemma_read_yields_a_prefix,
    InvalidSegmentError,
    Segment,
    SegmentView,
};
use crate::text::{append_decimal, decimal};
use vstd::prelude::*;

verus! {

/// The longest buffer whose segments can be counted in 32 bits whatever it
/// holds: no segment takes fewer than two bytes.
pub const MAX_STREAM_LEN: u64 = 0x1_FFFF_FFFE;

/// Where and why reading a buffer stopped before its end.
#[derive(Debug, Clone, Copy, PartialEq, Eq, Structural)]
pub struct ParseToSegmentsError {
    /// The number of bytes in the segments that were read before the failure.
    /// The failed read started at this offset.
    pub bytes_parsed: usize,
    /// The number of segments that were read before the failure.
    pub segments_parsed: u32,
    /// Why no segment could be read at that offset.
    pub cause: InvalidSegmentError,
}

/// True when every segment of the run is well formed.
pub open spec fn all_wf(segments: Seq<SegmentView>) -> bool {
    forall|i: int| 0 <= i < segments.len() ==> (#[trigger] segments[i]).wf()
}

/// The bytes that a run of segments is written as: the segments' encodings,
/// one behind the other, with nothing between them.
pub open spec fn encode_all(segments: Seq<SegmentView>) -> Seq<u8>
    decreases segments.len(),
{
    if segments.len() == 0 {
        Seq::empty()
    } else {
        segments[0].encoding() + encode_all(segments.skip(1))
    }
}

/// The segments that can be read from the front of `bytes`, each starting
/// where the one before it ends, up to the end of the buffer or to the first
/// place where no segment can be read.
pub open spec fn leading_segments(bytes: Seq<u8>) -> Seq<SegmentView>
    decreases bytes.len(),
    via leading_segments_decreases
{
    match SegmentView::read(bytes) {
        Ok((first, used)) => seq![first] + leading_segments(bytes.skip(used as int)),
        Err(_) => Seq::empty(),
    }
}

#[via_fn]
proof fn leading_segments_decreases(bytes: Seq<u8>) {
    lemma_read_yields_a_prefix(bytes);
}

/// What a buffer parses to. It is a stream when its leading segments cover
/// it exactly, and then it parses to them. Otherwise the error tells how many
/// bytes and segments the leading segments make up, and why no segment can be
/// read behind them.
pub open spec fn parse(bytes: Seq<u8>) -> Result<Seq<SegmentView>, ParseToSegmentsError> {
    let segments = leading_segments(bytes);
    let parsed = encode_all(segments).len();
    if parsed == bytes.len() {
        Ok(segments)
    } else {
        Err(
            ParseToSegmentsError {
                bytes_parsed: parsed as usize,
                segments_parsed: segments.len() as u32,
                cause: SegmentView::read(bytes.skip(parsed as int))->Err_0,
            },
        )
    }
}

impl Segment {
    /// Reads `bytes` as a stream of segments.
    ///
    /// Succeeds exactly when the segments, read one behind the other from the
    /// first byte on, end with the last byte; the result holds them in the
    /// order in which they stand in `bytes`. An empty buffer is a stream of
    /// no segments. Reading stops at the first place where no segment can be
    /// read, and nothing behind that place is looked at.
    ///
    /// The error counts the segments in 32 bits, so their number has to fit.
    /// It does in every buffer of at most [`MAX_STREAM_LEN`] bytes.
    pub fn parse_bytes_to_segments(bytes: &[u8]) -> (r: Result<
        Vec<Segment>,
        ParseToSegmentsError,
    >)
        requires
            bytes@.len() <= MAX_STREAM_LEN || leading_segments(bytes@).len() <= u32::MAX,
        ensures
            match r {
                Ok(segments) => parse(bytes@) == Ok::<_, ParseToSegmentsError>(
                    segments.deep_view(),
                ),
                Err(e) => parse(bytes@) == Err::<Seq<SegmentView>, _>(e),
            },
            r matches Ok(segments) ==> {
                &&& all_wf(segments.deep_view())
                &&& encode_all(segments.deep_view()) == bytes@
            },
            r matches Err(e) ==> {
                &&& e.bytes_parsed < bytes@.len()
                &&& e.segments_parsed == leading_segments(bytes@).len()
                &&& all_wf(leading_segments(bytes@))
                &&& encode_all(leading_segments(bytes@)) == bytes@.subrange(
                    0,
                    e.bytes_parsed as int,
                )
                &&& SegmentView::read(bytes@.skip(e.bytes_parsed as int)) == Err::<
                    (SegmentView, nat),
                    _,
                >(e.cause)
            },
            // An empty buffer is a stream of no segments.
            bytes@.len() == 0 ==> (r matches Ok(segments) && segments@.len() == 0),
            // The encoding of well-formed segments parses to those segments,
            // in their order.
            forall|segments: Seq<SegmentView>|
                all_wf(segments) && bytes@ == #[trigger] encode_all(segments) ==> (r matches Ok(
                    parsed,
                ) && parsed.deep_view() == segments),
            // Where well-formed segments are followed by bytes from which no
            // segment can be read, the error counts those segments and their
            // bytes, and tells why no segment can be read behind them.
            forall|segments: Seq<SegmentView>, rest: Seq<u8>|
                #![trigger encode_all(segments), SegmentView::read(rest)]
                all_wf(segments) && rest.len() > 0 && SegmentView::read(rest) is Err && bytes@
                    == encode_all(segments) + rest ==> (r matches Err(e) && e.bytes_parsed
                    == encode_all(segments).len() && e.segments_parsed == segments.len()
                    && SegmentView::read(rest) == Err::<(SegmentView, nat), _>(e.cause)),
    {
        let mut parsed_segments: Vec<Segment> = Vec::new();
        let mut bytes_parsed: usize = 0;
        let mut segments_parsed: u32 = 0;
        let bytes_len = bytes.len();
        assert(bytes@.skip(0) =~= bytes@);
        while bytes_parsed < bytes_len
            invariant
                bytes_len == bytes@.len(),
                bytes@.len() <= MAX_STREAM_LEN || leading_segments(bytes@).len() <= u32::MAX,
                bytes_parsed <= bytes_len,
                segments_parsed == parsed_segments@.len(),
                2 * segments_parsed <= bytes_parsed,
                all_wf(parsed_segments.deep_view()),
                encode_all(parsed_segments.deep_view()) == bytes@.subrange(0, bytes_parsed as int),
                leading_segments(bytes@) == parsed_segments.deep_view() + leading_segments(
                    bytes@.skip(bytes_parsed as int),
                ),
            decreases bytes_len - bytes_parsed,
        {
            let ghost before = parsed_segments.deep_view();
            let ghost tail = bytes@.skip(bytes_parsed as int);
            match Segment::read_from_start_of_bytes(&bytes[bytes_parsed..bytes_len]) {
                Ok((segment, used)) => {
                    parsed_segments.push(segment);
                    proof {
                        let after = parsed_segments.deep_view();
                        let next = bytes_parsed + used;
                        assert(after =~= before.push(segment@));
                        assert(tail.skip(used as int) =~= bytes@.skip(next));
                        assert(before + (seq![segment@] + leading_segments(bytes@.skip(next)))
                            =~= after + leading_segments(bytes@.skip(next)));
                        lemma_encode_all_push(before, segment@);
                        assert(bytes@.subrange(0, bytes_parsed as int) + tail.subrange(
                            0,
                            used as int,
                        ) =~= bytes@.subrange(0, next));
                    }
                    bytes_parsed = bytes_parsed + used;
                    segments_parsed = segments_parsed + 1;
                },
                Err(error) => {
                    proof {
                        lemma_leading_segments_of_any_split(bytes@);
                    }
                    return Err(ParseToSegmentsError::new(bytes_parsed, segments_parsed, error));
                },
            }
        }
        proof {
            lemma_leading_segments_of_any_split(bytes@);
        }
        Ok(parsed_segments)
    }
}

impl ParseToSegmentsError {
    /// The sentence that describes the error.
    pub open spec fn description_text(self) -> Seq<char> {
        "After successfully parsing "@ + decimal(self.bytes_parsed as nat) + " bytes into "@
            + decimal(self.segments_parsed as nat) + " segments, got error: "@
            + self.cause.description_text()
    }

    /// The error for a read that failed for `cause` after `segments_parsed`
    /// segments, which took `bytes_parsed` bytes, had been read.
    pub fn new(bytes_parsed: usize, segments_parsed: u32, cause: InvalidSegmentError) -> (e:
        ParseToSegmentsError)
        ensures
            e == (ParseToSegmentsError { bytes_parsed, segments_parsed, cause }),
    {
        ParseToSegmentsError { bytes_parsed, segments_parsed, cause }
    }

    /// Describes the error in a sentence: how far reading got, and what
    /// stopped it.
    pub fn description(&self) -> (s: String)
        ensures
            s@ == self.description_text(),
    {
        let mut s = String::from_str("After successfully parsing ");
        append_decimal(&mut s, self.bytes_parsed);
        s.append(" bytes into ");
        append_decimal(&mut s, self.segments_parsed as usize);
        s.append(" segments, got error: ");
        let cause = self.cause.description();
        s.append(cause.as_str());
        s
    }
}

/// Two runs of segments written one behind the other are the two runs'
/// encodings one behind the other.
pub proof fn lemma_encode_all_concat(front: Seq<SegmentView>, back: Seq<SegmentView>)
    ensures
        encode_all(front + back) == encode_all(front) + encode_all(back),
    decreases front.len(),
{
    if front.len() > 0 {
        assert((front + back).skip(1) =~= front.skip(1) + back);
        lemma_encode_all_concat(front.skip(1), back);
    }
}

/// A run of segments with one more segment behind it is written as the run
/// with that segment's encoding behind it.
pub proof fn lemma_encode_all_push(segments: Seq<SegmentView>, last: SegmentView)
    ensures
        encode_all(segments.push(last)) == encode_all(segments) + last.encoding(),
{
    let single = seq![last];
    assert(encode_all(single.skip(1)) =~= Seq::<u8>::empty());
    assert(segments.push(last) =~= segments + single);
    lemma_encode_all_concat(segments, single);
}

/// A run of `n` segments is written in at least `2 * n` bytes.
pub proof fn lemma_encode_all_len(segments: Seq<SegmentView>)
    requires
        all_wf(segments),
    ensures
        encode_all(segments).len() >= 2 * segments.len(),
    decreases segments.len(),
{
    if segments.len() > 0 {
        lemma_read_inverts_encoding(segments[0], Seq::empty());
        lemma_encode_all_len(segments.skip(1));
    }
}

/// The segments of a buffer of at most [`MAX_STREAM_LEN`] bytes can be
/// counted in 32 bits.
pub proof fn lemma_segments_can_be_counted(bytes: Seq<u8>)
    requires
        bytes.len() <= MAX_STREAM_LEN,
    ensures
        leading_segments(bytes).len() <= u32::MAX,
{
    lemma_leading_segments_are_a_prefix(bytes);
    lemma_encode_all_len(leading_segments(bytes));
}

/// The leading segments of any buffer are well formed, and written back
/// they are the front of the buffer, byte for byte.
pub proof fn lemma_leading_segments_are_a_prefix(bytes: Seq<u8>)
    ensures
        all_wf(leading_segments(bytes)),
        encode_all(leading_segments(bytes)).len() <= bytes.len(),
        encode_all(leading_segments(bytes)) == bytes.subrange(
            0,
            encode_all(leading_segments(bytes)).len() as int,
        ),
    decreases bytes.len(),
{
    lemma_read_yields_a_prefix(bytes);
    if let Ok((first, used)) = SegmentView::read(bytes) {
        let tail = bytes.skip(used as int);
        let others = leading_segments(tail);
        lemma_leading_segments_are_a_prefix(tail);
        assert((seq![first] + others).skip(1) =~= others);
        let n = encode_all(others).len();
        assert(first.encoding() + tail.subrange(0, n as int) =~= bytes.subrange(
            0,
            (used + n) as int,
        ));
    }
}

/// From the encoding of well-formed segments, with anything at all behind
/// it, exactly those segments are read first, and reading goes on behind them
/// as if the rest stood alone.
pub proof fn lemma_leading_segments_of_encoding(segments: Seq<SegmentView>, rest: Seq<u8>)
    requires
        all_wf(segments),
    ensures
        leading_segments(encode_all(segments) + rest) == segments + leading_segments(rest),
    decreases segments.len(),
{
    if segments.len() > 0 {
        let first = segments[0];
        let others = segments.skip(1);
        let tail = encode_all(others) + rest;
        let bytes = encode_all(segments) + rest;
        assert(bytes =~= first.encoding() + tail);
        lemma_read_inverts_encoding(first, tail);
        assert(bytes.skip(first.encoded_len() as int) =~= tail);
        lemma_leading_segments_of_encoding(others, rest);
        assert(seq![first] + (others + leading_segments(rest)) =~= segments + leading_segments(
            rest,
        ));
    }
}

/// However a buffer is split into the encoding of well-formed segments and
/// a rest from which no segment can be read, its leading segments are those
/// segments, and the rest is what stands behind them.
proof fn lemma_leading_segments_of_any_split(bytes: Seq<u8>)
    ensures
        forall|segments: Seq<SegmentView>|
            all_wf(segments) && bytes == #[trigger] encode_all(segments) ==> leading_segments(
                bytes,
            ) == segments,
        forall|segments: Seq<SegmentView>, rest: Seq<u8>|
            #![trigger encode_all(segments), SegmentView::read(rest)]
            all_wf(segments) && SegmentView::read(rest) is Err && bytes == encode_all(segments)
                + rest ==> leading_segments(bytes) == segments && bytes.skip(
                encode_all(segments).len() as int,
            ) == rest,
{
    assert forall|segments: Seq<SegmentView>|
        all_wf(segments) && bytes == #[trigger] encode_all(segments) implies leading_segments(
        bytes,
    ) == segments by {
        lemma_leading_segments_of_encoding(segments, Seq::empty());
        assert(bytes + Seq::<u8>::empty() =~= bytes);
    }
    assert forall|segments: Seq<SegmentView>, rest: Seq<u8>|
        #![trigger encode_all(segments), SegmentView::read(rest)]
        all_wf(segments) && SegmentView::read(rest) is Err && bytes == encode_all(segments)
            + rest implies leading_segments(bytes) == segments && bytes.skip(
        encode_all(segments).len() as int,
    ) == rest by {
        lemma_leading_segments_of_encoding(segments, rest);
        assert(bytes.skip(encode_all(segments).len() as int) =~= rest);
    }
}

/// Parsing undoes writing: the encoding of any run of well-formed segments
/// is a stream, and parses to those segments in their order.
pub proof fn lemma_parse_inverts_encode_all(segments: Seq<SegmentView>)
    requires
        all_wf(segments),
    ensures
        parse(encode_all(segments)) == Ok::<_, ParseToSegmentsError>(segments),
{
    lemma_leading_segments_of_encoding(segments, Seq::empty());
}

/// Writing undoes parsing: a buffer that parses is the encoding of the
/// well-formed segments that it parses to, to the last byte.
pub proof fn lemma_encode_all_inverts_parse(bytes: Seq<u8>)
    ensures
        parse(bytes) matches Ok(segments) ==> all_wf(segments) && encode_all(segments) == bytes,
{
    lemma_leading_segments_are_a_prefix(bytes);
}

/// Parsing stops at the first failure: where well-formed segments are
/// followed by bytes from which no segment can be read, the error counts the
/// bytes and the segments before those bytes, and gives the reason why no
/// segment can be read from them.
pub proof fn lemma_parse_stops_at_first_failure(segments: Seq<SegmentView>, rest: Seq<u8>)
    requires
        all_wf(segments),
        rest.len() > 0,
        SegmentView::read(rest) is Err,
        encode_all(segments).len() <= usize::MAX,
        segments.len() <= u32::MAX,
    ensures
        parse(encode_all(segments) + rest) == Err::<Seq<SegmentView>, _>(
            ParseToSegmentsError {
                bytes_parsed: encode_all(segments).len() as usize,
                segments_parsed: segments.len() as u32,
                cause: SegmentView::read(rest)->Err_0,
            },
        ),
{
    let front = encode_all(segments);
    lemma_leading_segments_of_encoding(segments, rest);
    assert((front + rest).skip(front.len() as int) =~= rest);
}

} // verus!
