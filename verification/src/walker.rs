//! The structure walker: decodes a module's payload stream with an explicit
//! stack of decoder states, classifies each payload, extracts the byte
//! ranges of the tracked substructures from the file's buffer and feeds
//! them into the corpus aggregate.
//!
//! The decoder is deterministic: what it yields is a pure function of its
//! state and the bytes handed to it. Each opaque decoder value is given an
//! abstract model (`parser_model`), the step is given a name (`step_of`),
//! and the spec-level `walk_from` replays the whole walk over them, so
//! `add_wasm`'s contract says exactly which ranges are recorded and which
//! error is returned for every file.

use vstd::pervasive::arbitrary;
use vstd::prelude::*;
use vstd::slice::slice_subrange;

use crate::counts::Counts;
use crate::digest::digest_of;
use crate::groups::{
    counts_le, extends, gm_wf, lemma_counts_le_mono, lemma_extends_trans,
    lemma_record_one_counts_le, lemma_record_one_extends, lemma_record_one_wf, record_one, Group,
    GroupMap,
};

verus! {

#[verifier::external_type_specification]
#[verifier::external_body]
pub struct ExParser(wasmparser::Parser);

#[verifier::external_type_specification]
#[verifier::external_body]
#[verifier::reject_recursive_types(T)]
pub struct ExSectionLimited<'a, T>(wasmparser::SectionLimited<'a, T>);

#[verifier::external_type_specification]
#[verifier::external_body]
pub struct ExData<'a>(wasmparser::Data<'a>);

#[verifier::external_type_specification]
#[verifier::external_body]
pub struct ExElement<'a>(wasmparser::Element<'a>);

#[verifier::external_type_specification]
#[verifier::external_body]
pub struct ExPayload<'a>(wasmparser::Payload<'a>);

/// The abstract state of one decoder. It has no visible structure: all
/// that is known of it is what the trusted items state of `decoder_at`,
/// `parser_model` and `step_of`.
pub ghost struct DecoderState {
    rep: int,
}

/// What one decoded payload holds, reduced to plain values: the segment
/// ranges of the two segment-bearing sections, the absolute byte range of
/// a code body or custom-section payload, the decoder state of an embedded
/// module, the end-of-module marker, or something the statistics ignore.
pub ghost enum PayloadModel {
    DataSeg(SegModel),
    ElemSeg(SegModel),
    Code(u64, u64),
    CustomSec(u64, u64),
    Nested(DecoderState),
    EndOf,
    Other,
}

/// Reading a section's segment list either yields every segment's byte
/// range in order, or fails with the decoder's report.
pub ghost enum SegModel {
    Ranges(Seq<(u64, u64)>),
    Fail(u64, Seq<char>),
}

/// The outcome of one decode step: a structural failure with the decoder's
/// report, a request for more input, or a parsed payload with the bytes it
/// consumed and the decoder's successor state.
pub ghost enum DecodeStep {
    Failure { offset: u64, message: Seq<char> },
    NeedMore,
    Parsed { consumed: int, payload: PayloadModel, next: DecoderState },
}

/// The abstract state a `wasmparser::Parser` value holds.
pub uninterp spec fn parser_model(p: wasmparser::Parser) -> DecoderState;

/// What a `wasmparser::Payload` value holds, as the walker reads it.
pub uninterp spec fn payload_model(p: wasmparser::Payload<'_>) -> PayloadModel;

/// What a data-section reader holds: its segments' ranges, or the error
/// met while reading them.
pub uninterp spec fn data_reader_model(r: wasmparser::DataSectionReader<'_>) -> SegModel;

/// What an element-section reader holds: its segments' ranges, or the
/// error met while reading them.
pub uninterp spec fn elem_reader_model(r: wasmparser::ElementSectionReader<'_>) -> SegModel;

/// The state of a decoder freshly positioned at `offset` of the stream.
pub uninterp spec fn decoder_at(offset: u64) -> DecoderState;

/// The outcome of one decode step, with the whole rest of the file in
/// hand: a pure function of the decoder state and the input bytes.
pub uninterp spec fn step_of(state: DecoderState, input: Seq<u8>) -> DecodeStep;

/// Relies on `wasmparser::Parser::new`: a fresh decoder for a stream that
/// begins at the given offset.
pub assume_specification [ wasmparser::Parser::new ](offset: u64) -> (p: wasmparser::Parser)
    ensures
        parser_model(p) == decoder_at(offset),
;

/// One decoded structural unit as the walker classifies it.
pub enum ParsedStep<'a> {
    DataSection(wasmparser::DataSectionReader<'a>),
    ElemSection(wasmparser::ElementSectionReader<'a>),
    CodeEntry(u64, u64),
    Custom(u64, u64),
    NestedModule(wasmparser::Parser),
    EndMarker,
    Skip,
}

/// Why a file could not be processed to the end. Statistics already taken
/// from the file's earlier, valid payloads stay in the aggregate.
pub enum DecodeError {
    /// The byte stream does not conform to the nested-module grammar; the
    /// decoder reported the failure at `offset` with its own `message`.
    Malformed { offset: u64, message: String },
    /// The decoder asked for more input although the whole file was handed
    /// to it.
    Truncated,
    /// A payload reported a byte range that does not lie inside the file.
    BadRange { start: u64, end: u64 },
    /// The decoder reported a step that the bytes it consumed cannot
    /// account for. Rejecting such a step keeps the walk finite and the
    /// occurrence counters bounded; no well-formed decoder output is
    /// rejected.
    Inconsistent,
}

/// The spec-level image of a `DecodeError`.
pub ghost enum ErrModel {
    Malformed { offset: u64, message: Seq<char> },
    Truncated,
    BadRange { start: u64, end: u64 },
    Inconsistent,
}

/// The error value carries exactly what the model says.
pub open spec fn err_matches(e: DecodeError, m: ErrModel) -> bool {
    match m {
        ErrModel::Malformed { offset, message } => e matches DecodeError::Malformed {
            offset: eo,
            message: em,
        } && eo == offset && em@ == message,
        ErrModel::Truncated => e is Truncated,
        ErrModel::BadRange { start, end } => e matches DecodeError::BadRange {
            start: s2,
            end: e2,
        } && s2 == start && e2 == end,
        ErrModel::Inconsistent => e is Inconsistent,
    }
}

/// The structural failure a `DecodeStep::Failure` stands for.
pub open spec fn fault_of(step: DecodeStep) -> ErrModel {
    match step {
        DecodeStep::Failure { offset, message } => ErrModel::Malformed { offset, message },
        _ => ErrModel::Inconsistent,
    }
}

/// The structural failure a `SegModel::Fail` stands for.
pub open spec fn seg_fault(m: SegModel) -> ErrModel {
    match m {
        SegModel::Fail(offset, message) => ErrModel::Malformed { offset, message },
        _ => ErrModel::Inconsistent,
    }
}

pub open spec fn parsed_consumed(step: DecodeStep) -> int {
    match step {
        DecodeStep::Parsed { consumed, .. } => consumed,
        _ => 0,
    }
}

pub open spec fn parsed_payload(step: DecodeStep) -> PayloadModel {
    match step {
        DecodeStep::Parsed { payload, .. } => payload,
        _ => PayloadModel::Other,
    }
}

pub open spec fn parsed_next(step: DecodeStep) -> DecoderState {
    match step {
        DecodeStep::Parsed { next, .. } => next,
        _ => arbitrary(),
    }
}

pub open spec fn seg_ranges(m: SegModel) -> Seq<(u64, u64)> {
    match m {
        SegModel::Ranges(rs) => rs,
        _ => Seq::empty(),
    }
}

pub open spec fn payload_seg(p: PayloadModel) -> SegModel {
    match p {
        PayloadModel::DataSeg(m) => m,
        PayloadModel::ElemSeg(m) => m,
        _ => SegModel::Ranges(Seq::empty()),
    }
}

/// Relies on `wasmparser::Parser::parse` with `eof = true`: the outcome is
/// the pure function `step_of` of the decoder's state and the bytes handed
/// to it, it consumes no more bytes than it was handed, a structural
/// failure carries the decoder's own offset and message, and `NeedMoreData`
/// (which `eof = true` rules out) is surfaced as `None`.
#[verifier::external_body]
fn parse_step<'a>(p: &mut wasmparser::Parser, data: &'a [u8], offset: usize) -> (r: Result<
    (Option<wasmparser::Payload<'a>>, usize),
    DecodeError,
>)
    requires
        offset <= data@.len(),
    ensures
        r matches Ok(sc) ==> offset + sc.1 <= data@.len(),
        ({
            let step = step_of(parser_model(*old(p)), data@.skip(offset as int));
            match step {
                DecodeStep::Failure { .. } => r matches Err(e) && err_matches(e, fault_of(step)),
                DecodeStep::NeedMore => r matches Ok(sc) && sc.0 is None && sc.1 == 0,
                DecodeStep::Parsed { consumed, payload, next } => r matches Ok(sc) && sc.1
                    == consumed && (sc.0 matches Some(pl) && payload_model(pl) == payload)
                    && parser_model(*final(p)) == next,
            }
        }),
{
    match p.parse(&data[offset..], true) {
        Err(e) => Err(DecodeError::Malformed {
            offset: e.offset(),
            message: e.message().to_string(),
        }),
        Ok(wasmparser::Chunk::NeedMoreData(_)) => Ok((None, 0)),
        Ok(wasmparser::Chunk::Parsed { consumed, payload }) => Ok((Some(payload), consumed)),
    }
}

/// Relies on the payload's own accessors (`FunctionBody::range` and
/// `CustomSectionReader::data_range`): one arm per payload kind, reducing
/// the payload to the walker's classification according to its model; byte
/// ranges are absolute file offsets, and a custom section's range is its
/// payload after the name.
#[verifier::external_body]
fn classify<'a>(pl: wasmparser::Payload<'a>) -> (step: ParsedStep<'a>)
    ensures
        ({
            match payload_model(pl) {
                PayloadModel::DataSeg(m) => step matches ParsedStep::DataSection(r)
                    && data_reader_model(r) == m,
                PayloadModel::ElemSeg(m) => step matches ParsedStep::ElemSection(r)
                    && elem_reader_model(r) == m,
                PayloadModel::Code(s0, e0) => step matches ParsedStep::CodeEntry(a, b) && a == s0
                    && b == e0,
                PayloadModel::CustomSec(s0, e0) => step matches ParsedStep::Custom(a, b) && a == s0
                    && b == e0,
                PayloadModel::Nested(ds) => step matches ParsedStep::NestedModule(p2)
                    && parser_model(p2) == ds,
                PayloadModel::EndOf => step is EndMarker,
                PayloadModel::Other => step is Skip,
            }
        }),
{
    match pl {
        wasmparser::Payload::DataSection(r) => ParsedStep::DataSection(r),
        wasmparser::Payload::ElementSection(r) => ParsedStep::ElemSection(r),
        wasmparser::Payload::CodeSectionEntry(b) => ParsedStep::CodeEntry(b.range().start, b.range().end),
        wasmparser::Payload::CustomSection(c) => ParsedStep::Custom(c.data_range().start, c.data_range().end),
        wasmparser::Payload::ModuleSection { parser, .. } => ParsedStep::NestedModule(parser),
        wasmparser::Payload::ComponentSection { parser, .. } => ParsedStep::NestedModule(parser),
        wasmparser::Payload::End(_) => ParsedStep::EndMarker,
        _ => ParsedStep::Skip,
    }
}

/// Relies on the `SectionLimited` iterator over `Data` entries: it yields
/// every data segment's `range` in order, as the reader's model says, or
/// the first decode error with the decoder's own offset and message.
#[verifier::external_body]
fn data_ranges(r: wasmparser::DataSectionReader<'_>) -> (out: Result<Vec<(u64, u64)>, DecodeError>)
    ensures
        match data_reader_model(r) {
            SegModel::Ranges(rs) => out matches Ok(v) && v@ == rs,
            SegModel::Fail(..) => out matches Err(e) && err_matches(
                e,
                seg_fault(data_reader_model(r)),
            ),
        },
{
    let mut v: Vec<(u64, u64)> = Vec::new();
    for item in r {
        match item {
            Ok(d) => v.push((d.range.start, d.range.end)),
            Err(e) => {
                return Err(DecodeError::Malformed {
                    offset: e.offset(),
                    message: e.message().to_string(),
                });
            },
        }
    }
    Ok(v)
}

/// Relies on the `SectionLimited` iterator over `Element` entries: it
/// yields every element segment's `range` in order, as the reader's model
/// says, or the first decode error with the decoder's own offset and
/// message.
#[verifier::external_body]
fn elem_ranges(r: wasmparser::ElementSectionReader<'_>) -> (out: Result<
    Vec<(u64, u64)>,
    DecodeError,
>)
    ensures
        match elem_reader_model(r) {
            SegModel::Ranges(rs) => out matches Ok(v) && v@ == rs,
            SegModel::Fail(..) => out matches Err(e) && err_matches(
                e,
                seg_fault(elem_reader_model(r)),
            ),
        },
{
    let mut v: Vec<(u64, u64)> = Vec::new();
    for item in r {
        match item {
            Ok(el) => v.push((el.range.start, el.range.end)),
            Err(e) => {
                return Err(DecodeError::Malformed {
                    offset: e.offset(),
                    message: e.message().to_string(),
                });
            },
        }
    }
    Ok(v)
}

/// The byte range lies inside the file.
pub open spec fn range_ok(file: Seq<u8>, r: (u64, u64)) -> bool {
    r.0 <= r.1 && r.1 <= file.len()
}

/// Every range of the batch lies inside the file.
pub open spec fn all_ranges_ok(file: Seq<u8>, rs: Seq<(u64, u64)>) -> bool {
    forall|i: int| 0 <= i < rs.len() ==> range_ok(file, rs[i])
}

/// The index of the first range that does not lie inside the file.
pub open spec fn first_bad(file: Seq<u8>, rs: Seq<(u64, u64)>) -> int
    decreases rs.len(),
{
    if rs.len() == 0 {
        0
    } else if !range_ok(file, rs[0]) {
        0
    } else {
        1 + first_bad(file, rs.drop_first())
    }
}

/// The bytes a range denotes.
pub open spec fn slice_of(file: Seq<u8>, r: (u64, u64)) -> Seq<u8> {
    file.subrange(r.0 as int, r.1 as int)
}

/// The category map after recording every given range of the file, in
/// order.
pub open spec fn record_ranges_spec(s: Seq<Group>, file: Seq<u8>, rs: Seq<(u64, u64)>) -> Seq<
    Group,
>
    decreases rs.len(),
{
    if rs.len() == 0 {
        s
    } else {
        record_one(
            record_ranges_spec(s, file, rs.drop_last()),
            digest_of(slice_of(file, rs.last())),
            (rs.last().1 - rs.last().0) as u64,
        )
    }
}

/// Where the walk of one file ends: the first structural fault, if any,
/// and the byte ranges recorded per category up to that point, in order.
pub ghost struct WalkDone {
    pub fault: Option<ErrModel>,
    pub data: Seq<(u64, u64)>,
    pub elems: Seq<(u64, u64)>,
    pub code: Seq<(u64, u64)>,
    pub custom: Seq<(u64, u64)>,
}

pub open spec fn walk_fault(
    m: ErrModel,
    data: Seq<(u64, u64)>,
    elems: Seq<(u64, u64)>,
    code: Seq<(u64, u64)>,
    custom: Seq<(u64, u64)>,
) -> WalkDone {
    WalkDone { fault: Some(m), data: data, elems: elems, code: code, custom: custom }
}

/// Replay the walk from a stack of decoder states at `pos` of the file,
/// with the ranges recorded so far: step the top decoder, accumulate the
/// ranges its payload carries (a whole section only when every range lies
/// inside the file), push embedded modules, pop on the end marker, and
/// stop at the first fault. A step that consumes nothing without closing a
/// module, or reports more segments than consumed bytes, is a fault: that
/// keeps the walk finite.
pub open spec fn walk_from(
    stack: Seq<DecoderState>,
    bytes: Seq<u8>,
    pos: int,
    data: Seq<(u64, u64)>,
    elems: Seq<(u64, u64)>,
    code: Seq<(u64, u64)>,
    custom: Seq<(u64, u64)>,
) -> WalkDone
    decreases bytes.len() - pos, stack.len(),
{
    if stack.len() == 0 {
        WalkDone { fault: None, data: data, elems: elems, code: code, custom: custom }
    } else if !(0 <= pos <= bytes.len()) {
        walk_fault(ErrModel::Inconsistent, data, elems, code, custom)
    } else {
        let step = step_of(stack.last(), bytes.skip(pos));
        match step {
            DecodeStep::Failure { .. } => walk_fault(fault_of(step), data, elems, code, custom),
            DecodeStep::NeedMore => walk_fault(ErrModel::Truncated, data, elems, code, custom),
            DecodeStep::Parsed { consumed, payload, next } => {
                if !(0 <= consumed && pos + consumed <= bytes.len()) {
                    walk_fault(ErrModel::Inconsistent, data, elems, code, custom)
                } else if payload is EndOf {
                    walk_from(stack.drop_last(), bytes, pos + consumed, data, elems, code, custom)
                } else if consumed == 0 {
                    walk_fault(ErrModel::Inconsistent, data, elems, code, custom)
                } else {
                    let rest = stack.drop_last().push(next);
                    match payload {
                        PayloadModel::DataSeg(m) => match m {
                            SegModel::Fail(..) => walk_fault(seg_fault(m), data, elems, code, custom),
                            SegModel::Ranges(rs) => if rs.len() > consumed {
                                walk_fault(ErrModel::Inconsistent, data, elems, code, custom)
                            } else if !all_ranges_ok(bytes, rs) {
                                walk_fault(
                                    ErrModel::BadRange {
                                        start: rs[first_bad(bytes, rs)].0,
                                        end: rs[first_bad(bytes, rs)].1,
                                    },
                                    data,
                                    elems,
                                    code,
                                    custom,
                                )
                            } else {
                                walk_from(rest, bytes, pos + consumed, data + rs, elems, code, custom)
                            },
                        },
                        PayloadModel::ElemSeg(m) => match m {
                            SegModel::Fail(..) => walk_fault(seg_fault(m), data, elems, code, custom),
                            SegModel::Ranges(rs) => if rs.len() > consumed {
                                walk_fault(ErrModel::Inconsistent, data, elems, code, custom)
                            } else if !all_ranges_ok(bytes, rs) {
                                walk_fault(
                                    ErrModel::BadRange {
                                        start: rs[first_bad(bytes, rs)].0,
                                        end: rs[first_bad(bytes, rs)].1,
                                    },
                                    data,
                                    elems,
                                    code,
                                    custom,
                                )
                            } else {
                                walk_from(rest, bytes, pos + consumed, data, elems + rs, code, custom)
                            },
                        },
                        PayloadModel::Code(s0, e0) => if !range_ok(bytes, (s0, e0)) {
                            walk_fault(ErrModel::BadRange { start: s0, end: e0 }, data, elems, code, custom)
                        } else {
                            walk_from(rest, bytes, pos + consumed, data, elems, code.push((s0, e0)), custom)
                        },
                        PayloadModel::CustomSec(s0, e0) => if !range_ok(bytes, (s0, e0)) {
                            walk_fault(ErrModel::BadRange { start: s0, end: e0 }, data, elems, code, custom)
                        } else {
                            walk_from(rest, bytes, pos + consumed, data, elems, code, custom.push((s0, e0)))
                        },
                        PayloadModel::Nested(ds) => walk_from(
                            rest.push(ds),
                            bytes,
                            pos + consumed,
                            data,
                            elems,
                            code,
                            custom,
                        ),
                        PayloadModel::EndOf => walk_fault(ErrModel::Inconsistent, data, elems, code, custom),
                        PayloadModel::Other => walk_from(rest, bytes, pos + consumed, data, elems, code, custom),
                    }
                }
            },
        }
    }
}

/// The walk of one whole file: one fresh decoder at the start of the
/// buffer, nothing recorded yet.
pub open spec fn file_walk(bytes: Seq<u8>) -> WalkDone {
    walk_from(
        seq![decoder_at(0)],
        bytes,
        0,
        Seq::empty(),
        Seq::empty(),
        Seq::empty(),
        Seq::empty(),
    )
}

spec fn models_of(ps: Seq<wasmparser::Parser>) -> Seq<DecoderState> {
    Seq::new(ps.len(), |i: int| parser_model(ps[i]))
}

/// Recording a batch of ranges preserves well-formedness, only extends the
/// map, and raises no occurrence count by more than the number of ranges.
pub proof fn lemma_record_ranges_spec(s: Seq<Group>, file: Seq<u8>, rs: Seq<(u64, u64)>, b: int)
    requires
        gm_wf(s),
        counts_le(s, b),
        0 <= b,
        b + rs.len() <= u64::MAX,
    ensures
        gm_wf(record_ranges_spec(s, file, rs)),
        extends(s, record_ranges_spec(s, file, rs)),
        counts_le(record_ranges_spec(s, file, rs), b + rs.len()),
    decreases rs.len(),
{
    if rs.len() == 0 {
    } else {
        lemma_record_ranges_spec(s, file, rs.drop_last(), b);
        let t = record_ranges_spec(s, file, rs.drop_last());
        let d = digest_of(slice_of(file, rs.last()));
        let n = (rs.last().1 - rs.last().0) as u64;
        lemma_counts_le_mono(t, b + rs.len() - 1, u64::MAX - 1);
        lemma_record_one_wf(t, d, n);
        lemma_record_one_counts_le(t, d, n, b + rs.len() - 1);
        lemma_record_one_extends(t, d, n);
        lemma_extends_trans(s, t, record_ranges_spec(s, file, rs));
    }
}

/// Recording one batch after another records their concatenation.
pub proof fn lemma_record_ranges_concat(
    m: Seq<Group>,
    file: Seq<u8>,
    a: Seq<(u64, u64)>,
    b: Seq<(u64, u64)>,
)
    ensures
        record_ranges_spec(m, file, a + b) == record_ranges_spec(
            record_ranges_spec(m, file, a),
            file,
            b,
        ),
    decreases b.len(),
{
    if b.len() == 0 {
        assert(a + b =~= a);
    } else {
        lemma_record_ranges_concat(m, file, a, b.drop_last());
        assert((a + b).drop_last() =~= a + b.drop_last());
        assert((a + b).last() == b.last());
    }
}

/// The first offending index is the first index that offends.
proof fn lemma_first_bad_at(file: Seq<u8>, rs: Seq<(u64, u64)>, i: int)
    requires
        0 <= i < rs.len(),
        !range_ok(file, rs[i]),
        forall|j: int| 0 <= j < i ==> range_ok(file, rs[j]),
    ensures
        first_bad(file, rs) == i,
    decreases i,
{
    if i > 0 {
        assert(range_ok(file, rs[0]));
        assert forall|j: int| 0 <= j < i - 1 implies range_ok(file, rs.drop_first()[j]) by {
            assert(rs.drop_first()[j] == rs[j + 1]);
        }
        assert(rs.drop_first()[i - 1] == rs[i]);
        lemma_first_bad_at(file, rs.drop_first(), i - 1);
    }
}

/// Record every range of one decoded section in the given category map.
/// Succeeds exactly when every range lies inside the file; otherwise the
/// map is untouched and the first offending range is named.
pub fn record_ranges(map: &mut GroupMap, file: &[u8], ranges: &Vec<(u64, u64)>) -> (r: Result<
    (),
    DecodeError,
>)
    requires
        gm_wf(old(map)@),
        counts_le(old(map)@, u64::MAX - ranges@.len()),
    ensures
        gm_wf(final(map)@),
        r is Ok <==> all_ranges_ok(file@, ranges@),
        r is Ok ==> final(map)@ == record_ranges_spec(old(map)@, file@, ranges@),
        r is Err ==> final(map)@ == old(map)@,
        r matches Err(e) ==> ({
            let i = first_bad(file@, ranges@);
            &&& 0 <= i < ranges@.len()
            &&& !range_ok(file@, ranges@[i])
            &&& e == (DecodeError::BadRange { start: ranges@[i].0, end: ranges@[i].1 })
        }),
{
    let n = ranges.len();
    let mut i: usize = 0;
    while i < n
        invariant
            n == ranges@.len(),
            i <= n,
            map@ == old(map)@,
            gm_wf(map@),
            forall|j: int| 0 <= j < i ==> range_ok(file@, ranges@[j]),
        decreases n - i,
    {
        let start = ranges[i].0;
        let end = ranges[i].1;
        if !(start <= end && end <= file.len() as u64) {
            proof {
                assert(ranges@[i as int] == (start, end));
                assert(!range_ok(file@, ranges@[i as int]));
                lemma_first_bad_at(file@, ranges@, i as int);
            }
            return Err(DecodeError::BadRange { start, end });
        }
        i = i + 1;
    }
    let file_len = file.len();
    let mut k: usize = 0;
    while k < n
        invariant
            n == ranges@.len(),
            k <= n,
            n <= u64::MAX,
            file_len == file@.len(),
            forall|j: int| 0 <= j < n ==> range_ok(file@, ranges@[j]),
            gm_wf(map@),
            counts_le(old(map)@, u64::MAX - n),
            counts_le(map@, u64::MAX - n + k),
            map@ == record_ranges_spec(old(map)@, file@, ranges@.take(k as int)),
        decreases n - k,
    {
        let start = ranges[k].0;
        let end = ranges[k].1;
        proof {
            assert(range_ok(file@, ranges@[k as int]));
            assert(ranges@[k as int] == (start, end));
        }
        let part = slice_subrange(file, start as usize, end as usize);
        proof {
            assert(ranges@.take((k + 1) as int).drop_last() =~= ranges@.take(k as int));
            assert(ranges@.take((k + 1) as int).last() == ranges@[k as int]);
            lemma_counts_le_mono(map@, u64::MAX - n + k, u64::MAX - 1);
        }
        let ghost prev = map@;
        Counts::add_entry(map, part);
        proof {
            assert(part@ == slice_of(file@, ranges@[k as int]));
            lemma_record_one_counts_le(
                prev,
                digest_of(part@),
                part@.len() as u64,
                u64::MAX - n + k,
            );
        }
        k = k + 1;
    }
    proof {
        assert(ranges@.take(n as int) =~= ranges@);
    }
    Ok(())
}

impl Counts {
    /// Decode one whole module file and fold every tracked byte range it
    /// contains into the aggregate. The contract replays the decode at the
    /// spec level: each category map ends up exactly as recording the
    /// walk's ranges for that category leaves it, and the call returns
    /// `Ok` precisely when the walk reaches the outermost end marker — on
    /// a structural fault the error carries the decoder's own report. The
    /// file's byte length is added to `total_size` first and stays added
    /// even when decoding fails later; the maps are only ever extended, so
    /// every duplication total is monotone in the files processed, and the
    /// statistics taken from a failing file's earlier, valid payloads
    /// remain.
    #[verifier::rlimit(100)]
    pub fn add_wasm(&mut self, full_wasm: &[u8]) -> (r: Result<(), DecodeError>)
        requires
            old(self).wf(),
            old(self).bounded(),
            old(self).total_size + full_wasm@.len() <= u64::MAX,
        ensures
            final(self).wf(),
            final(self).bounded(),
            final(self).total_size == old(self).total_size + full_wasm@.len(),
            extends(old(self).data_segments@, final(self).data_segments@),
            extends(old(self).elem_segments@, final(self).elem_segments@),
            extends(old(self).code_bodies@, final(self).code_bodies@),
            extends(old(self).custom_sections@, final(self).custom_sections@),
            ({
                let w = file_walk(full_wasm@);
                &&& final(self).data_segments@ == record_ranges_spec(
                    old(self).data_segments@,
                    full_wasm@,
                    w.data,
                )
                &&& final(self).elem_segments@ == record_ranges_spec(
                    old(self).elem_segments@,
                    full_wasm@,
                    w.elems,
                )
                &&& final(self).code_bodies@ == record_ranges_spec(
                    old(self).code_bodies@,
                    full_wasm@,
                    w.code,
                )
                &&& final(self).custom_sections@ == record_ranges_spec(
                    old(self).custom_sections@,
                    full_wasm@,
                    w.custom,
                )
                &&& match w.fault {
                    None => r is Ok,
                    Some(m) => r matches Err(e) && err_matches(e, m),
                }
            }),
    {
        let ghost t0 = old(self).total_size as int;
        let ghost flen = full_wasm@.len() as int;
        self.total_size = self.total_size + full_wasm.len() as u64;
        let mut offset: usize = 0;
        let mut parsers: Vec<wasmparser::Parser> = Vec::new();
        parsers.push(wasmparser::Parser::new(0));
        let ghost mut gd: Seq<(u64, u64)> = Seq::empty();
        let ghost mut ge: Seq<(u64, u64)> = Seq::empty();
        let ghost mut gc: Seq<(u64, u64)> = Seq::empty();
        let ghost mut gu: Seq<(u64, u64)> = Seq::empty();
        proof {
            assert(models_of(parsers@) =~= seq![decoder_at(0)]);
        }
        while parsers.len() > 0
            invariant
                offset <= flen,
                flen == full_wasm@.len(),
                flen <= usize::MAX,
                t0 == old(self).total_size as int,
                0 <= t0,
                t0 + flen <= u64::MAX,
                self.wf(),
                self.total_size == t0 + flen,
                counts_le(self.data_segments@, t0 + offset),
                counts_le(self.elem_segments@, t0 + offset),
                counts_le(self.code_bodies@, t0 + offset),
                counts_le(self.custom_sections@, t0 + offset),
                extends(old(self).data_segments@, self.data_segments@),
                extends(old(self).elem_segments@, self.elem_segments@),
                extends(old(self).code_bodies@, self.code_bodies@),
                extends(old(self).custom_sections@, self.custom_sections@),
                file_walk(full_wasm@) == walk_from(
                    models_of(parsers@),
                    full_wasm@,
                    offset as int,
                    gd,
                    ge,
                    gc,
                    gu,
                ),
                self.data_segments@ == record_ranges_spec(
                    old(self).data_segments@,
                    full_wasm@,
                    gd,
                ),
                self.elem_segments@ == record_ranges_spec(
                    old(self).elem_segments@,
                    full_wasm@,
                    ge,
                ),
                self.code_bodies@ == record_ranges_spec(old(self).code_bodies@, full_wasm@, gc),
                self.custom_sections@ == record_ranges_spec(
                    old(self).custom_sections@,
                    full_wasm@,
                    gu,
                ),
            decreases flen - offset, parsers@.len(),
        {
            let ghost stack0 = models_of(parsers@);
            let ghost off0 = offset as int;
            let mut p = parsers.pop().unwrap();
            proof {
                assert(models_of(parsers@) =~= stack0.drop_last());
                assert(parser_model(p) == stack0.last());
            }
            let ghost pm0 = parser_model(p);
            let ghost stepv = step_of(pm0, full_wasm@.skip(off0));
            let (parsed, consumed) = match parse_step(&mut p, full_wasm, offset) {
                Ok(sc) => sc,
                Err(e) => {
                    proof {
                        self.lemma_bounded_from_budget(t0, off0, flen);
                        assert(stepv is Failure);
                        assert(file_walk(full_wasm@) == walk_fault(fault_of(stepv), gd, ge, gc, gu));
                    }
                    return Err(e);
                },
            };
            let pl = match parsed {
                Some(pl) => pl,
                None => {
                    proof {
                        self.lemma_bounded_from_budget(t0, off0, flen);
                        assert(stepv is NeedMore);
                        assert(file_walk(full_wasm@) == walk_fault(
                            ErrModel::Truncated,
                            gd,
                            ge,
                            gc,
                            gu,
                        ));
                    }
                    return Err(DecodeError::Truncated);
                },
            };
            let ghost pbm = payload_model(pl);
            proof {
                assert(stepv is Parsed);
                assert(parsed_consumed(stepv) == consumed as int);
                assert(parsed_payload(stepv) == pbm);
                assert(parsed_next(stepv) == parser_model(p));
                assert(off0 + consumed <= flen);
            }
            match classify(pl) {
                ParsedStep::EndMarker => {
                    proof {
                        assert(pbm is EndOf);
                        assert(file_walk(full_wasm@) == walk_from(
                            stack0.drop_last(),
                            full_wasm@,
                            off0 + consumed,
                            gd,
                            ge,
                            gc,
                            gu,
                        ));
                    }
                    offset = offset + consumed;
                },
                ParsedStep::DataSection(rb) => {
                    let ghost rbm = data_reader_model(rb);
                    proof {
                        assert(pbm is DataSeg);
                        assert(rbm == payload_seg(pbm));
                    }
                    if consumed == 0 {
                        proof {
                            self.lemma_bounded_from_budget(t0, off0, flen);
                            assert(file_walk(full_wasm@) == walk_fault(
                                ErrModel::Inconsistent,
                                gd,
                                ge,
                                gc,
                                gu,
                            ));
                        }
                        return Err(DecodeError::Inconsistent);
                    }
                    let ranges = match data_ranges(rb) {
                        Ok(v) => v,
                        Err(e) => {
                            proof {
                                self.lemma_bounded_from_budget(t0, off0, flen);
                                assert(rbm is Fail);
                                assert(file_walk(full_wasm@) == walk_fault(
                                    seg_fault(rbm),
                                    gd,
                                    ge,
                                    gc,
                                    gu,
                                ));
                            }
                            return Err(e);
                        },
                    };
                    proof {
                        assert(ranges@ == seg_ranges(rbm));
                    }
                    if ranges.len() > consumed {
                        proof {
                            self.lemma_bounded_from_budget(t0, off0, flen);
                            assert(file_walk(full_wasm@) == walk_fault(
                                ErrModel::Inconsistent,
                                gd,
                                ge,
                                gc,
                                gu,
                            ));
                        }
                        return Err(DecodeError::Inconsistent);
                    }
                    let ghost prev = self.data_segments@;
                    proof {
                        lemma_counts_le_mono(prev, t0 + off0, u64::MAX - ranges@.len());
                    }
                    match record_ranges(&mut self.data_segments, full_wasm, &ranges) {
                        Ok(()) => {},
                        Err(e) => {
                            proof {
                                self.lemma_bounded_from_budget(t0, off0, flen);
                                assert(!all_ranges_ok(full_wasm@, ranges@));
                                let i = first_bad(full_wasm@, ranges@);
                                assert(file_walk(full_wasm@) == walk_fault(
                                    ErrModel::BadRange {
                                        start: ranges@[i].0,
                                        end: ranges@[i].1,
                                    },
                                    gd,
                                    ge,
                                    gc,
                                    gu,
                                ));
                            }
                            return Err(e);
                        },
                    }
                    proof {
                        lemma_record_ranges_spec(prev, full_wasm@, ranges@, t0 + off0);
                        lemma_extends_trans(old(self).data_segments@, prev, self.data_segments@);
                        lemma_counts_le_mono(
                            self.data_segments@,
                            t0 + off0 + ranges@.len(),
                            t0 + off0 + consumed,
                        );
                        lemma_record_ranges_concat(
                            old(self).data_segments@,
                            full_wasm@,
                            gd,
                            ranges@,
                        );
                        assert(file_walk(full_wasm@) == walk_from(
                            stack0.drop_last().push(parsed_next(stepv)),
                            full_wasm@,
                            off0 + consumed,
                            gd + ranges@,
                            ge,
                            gc,
                            gu,
                        ));
                        gd = gd + ranges@;
                    }
                    offset = offset + consumed;
                    parsers.push(p);
                    proof {
                        assert(models_of(parsers@) =~= stack0.drop_last().push(parsed_next(stepv)));
                    }
                },
                ParsedStep::ElemSection(rb) => {
                    let ghost rbm = elem_reader_model(rb);
                    proof {
                        assert(pbm is ElemSeg);
                        assert(rbm == payload_seg(pbm));
                    }
                    if consumed == 0 {
                        proof {
                            self.lemma_bounded_from_budget(t0, off0, flen);
                            assert(file_walk(full_wasm@) == walk_fault(
                                ErrModel::Inconsistent,
                                gd,
                                ge,
                                gc,
                                gu,
                            ));
                        }
                        return Err(DecodeError::Inconsistent);
                    }
                    let ranges = match elem_ranges(rb) {
                        Ok(v) => v,
                        Err(e) => {
                            proof {
                                self.lemma_bounded_from_budget(t0, off0, flen);
                                assert(rbm is Fail);
                                assert(file_walk(full_wasm@) == walk_fault(
                                    seg_fault(rbm),
                                    gd,
                                    ge,
                                    gc,
                                    gu,
                                ));
                            }
                            return Err(e);
                        },
                    };
                    proof {
                        assert(ranges@ == seg_ranges(rbm));
                    }
                    if ranges.len() > consumed {
                        proof {
                            self.lemma_bounded_from_budget(t0, off0, flen);
                            assert(file_walk(full_wasm@) == walk_fault(
                                ErrModel::Inconsistent,
                                gd,
                                ge,
                                gc,
                                gu,
                            ));
                        }
                        return Err(DecodeError::Inconsistent);
                    }
                    let ghost prev = self.elem_segments@;
                    proof {
                        lemma_counts_le_mono(prev, t0 + off0, u64::MAX - ranges@.len());
                    }
                    match record_ranges(&mut self.elem_segments, full_wasm, &ranges) {
                        Ok(()) => {},
                        Err(e) => {
                            proof {
                                self.lemma_bounded_from_budget(t0, off0, flen);
                                assert(!all_ranges_ok(full_wasm@, ranges@));
                                let i = first_bad(full_wasm@, ranges@);
                                assert(file_walk(full_wasm@) == walk_fault(
                                    ErrModel::BadRange {
                                        start: ranges@[i].0,
                                        end: ranges@[i].1,
                                    },
                                    gd,
                                    ge,
                                    gc,
                                    gu,
                                ));
                            }
                            return Err(e);
                        },
                    }
                    proof {
                        lemma_record_ranges_spec(prev, full_wasm@, ranges@, t0 + off0);
                        lemma_extends_trans(old(self).elem_segments@, prev, self.elem_segments@);
                        lemma_counts_le_mono(
                            self.elem_segments@,
                            t0 + off0 + ranges@.len(),
                            t0 + off0 + consumed,
                        );
                        lemma_record_ranges_concat(
                            old(self).elem_segments@,
                            full_wasm@,
                            ge,
                            ranges@,
                        );
                        assert(file_walk(full_wasm@) == walk_from(
                            stack0.drop_last().push(parsed_next(stepv)),
                            full_wasm@,
                            off0 + consumed,
                            gd,
                            ge + ranges@,
                            gc,
                            gu,
                        ));
                        ge = ge + ranges@;
                    }
                    offset = offset + consumed;
                    parsers.push(p);
                    proof {
                        assert(models_of(parsers@) =~= stack0.drop_last().push(parsed_next(stepv)));
                    }
                },
                ParsedStep::CodeEntry(start, end) => {
                    proof {
                        assert(pbm is Code);
                    }
                    if consumed == 0 {
                        proof {
                            self.lemma_bounded_from_budget(t0, off0, flen);
                            assert(file_walk(full_wasm@) == walk_fault(
                                ErrModel::Inconsistent,
                                gd,
                                ge,
                                gc,
                                gu,
                            ));
                        }
                        return Err(DecodeError::Inconsistent);
                    }
                    if !(start <= end && end <= full_wasm.len() as u64) {
                        proof {
                            self.lemma_bounded_from_budget(t0, off0, flen);
                            assert(!range_ok(full_wasm@, (start, end)));
                            assert(file_walk(full_wasm@) == walk_fault(
                                ErrModel::BadRange { start, end },
                                gd,
                                ge,
                                gc,
                                gu,
                            ));
                        }
                        return Err(DecodeError::BadRange { start, end });
                    }
                    let part = slice_subrange(full_wasm, start as usize, end as usize);
                    let ghost prev = self.code_bodies@;
                    proof {
                        lemma_counts_le_mono(prev, t0 + off0, u64::MAX - 1);
                    }
                    self.add_code_body(part);
                    proof {
                        lemma_record_one_counts_le(
                            prev,
                            digest_of(part@),
                            part@.len() as u64,
                            t0 + off0,
                        );
                        lemma_record_one_extends(prev, digest_of(part@), part@.len() as u64);
                        lemma_extends_trans(old(self).code_bodies@, prev, self.code_bodies@);
                        assert(gc.push((start, end)).drop_last() =~= gc);
                        assert(part@ == slice_of(full_wasm@, (start, end)));
                        assert(self.code_bodies@ == record_ranges_spec(
                            old(self).code_bodies@,
                            full_wasm@,
                            gc.push((start, end)),
                        ));
                        assert(file_walk(full_wasm@) == walk_from(
                            stack0.drop_last().push(parsed_next(stepv)),
                            full_wasm@,
                            off0 + consumed,
                            gd,
                            ge,
                            gc.push((start, end)),
                            gu,
                        ));
                        gc = gc.push((start, end));
                    }
                    offset = offset + consumed;
                    parsers.push(p);
                    proof {
                        assert(models_of(parsers@) =~= stack0.drop_last().push(parsed_next(stepv)));
                    }
                },
                ParsedStep::Custom(start, end) => {
                    proof {
                        assert(pbm is CustomSec);
                    }
                    if consumed == 0 {
                        proof {
                            self.lemma_bounded_from_budget(t0, off0, flen);
                            assert(file_walk(full_wasm@) == walk_fault(
                                ErrModel::Inconsistent,
                                gd,
                                ge,
                                gc,
                                gu,
                            ));
                        }
                        return Err(DecodeError::Inconsistent);
                    }
                    if !(start <= end && end <= full_wasm.len() as u64) {
                        proof {
                            self.lemma_bounded_from_budget(t0, off0, flen);
                            assert(!range_ok(full_wasm@, (start, end)));
                            assert(file_walk(full_wasm@) == walk_fault(
                                ErrModel::BadRange { start, end },
                                gd,
                                ge,
                                gc,
                                gu,
                            ));
                        }
                        return Err(DecodeError::BadRange { start, end });
                    }
                    let part = slice_subrange(full_wasm, start as usize, end as usize);
                    let ghost prev = self.custom_sections@;
                    proof {
                        lemma_counts_le_mono(prev, t0 + off0, u64::MAX - 1);
                    }
                    self.add_custom_section(part);
                    proof {
                        lemma_record_one_counts_le(
                            prev,
                            digest_of(part@),
                            part@.len() as u64,
                            t0 + off0,
                        );
                        lemma_record_one_extends(prev, digest_of(part@), part@.len() as u64);
                        lemma_extends_trans(old(self).custom_sections@, prev, self.custom_sections@);
                        assert(gu.push((start, end)).drop_last() =~= gu);
                        assert(part@ == slice_of(full_wasm@, (start, end)));
                        assert(self.custom_sections@ == record_ranges_spec(
                            old(self).custom_sections@,
                            full_wasm@,
                            gu.push((start, end)),
                        ));
                        assert(file_walk(full_wasm@) == walk_from(
                            stack0.drop_last().push(parsed_next(stepv)),
                            full_wasm@,
                            off0 + consumed,
                            gd,
                            ge,
                            gc,
                            gu.push((start, end)),
                        ));
                        gu = gu.push((start, end));
                    }
                    offset = offset + consumed;
                    parsers.push(p);
                    proof {
                        assert(models_of(parsers@) =~= stack0.drop_last().push(parsed_next(stepv)));
                    }
                },
                ParsedStep::NestedModule(nested) => {
                    let ghost nm = parser_model(nested);
                    proof {
                        assert(pbm is Nested);
                    }
                    if consumed == 0 {
                        proof {
                            self.lemma_bounded_from_budget(t0, off0, flen);
                            assert(file_walk(full_wasm@) == walk_fault(
                                ErrModel::Inconsistent,
                                gd,
                                ge,
                                gc,
                                gu,
                            ));
                        }
                        return Err(DecodeError::Inconsistent);
                    }
                    proof {
                        assert(file_walk(full_wasm@) == walk_from(
                            stack0.drop_last().push(parsed_next(stepv)).push(nm),
                            full_wasm@,
                            off0 + consumed,
                            gd,
                            ge,
                            gc,
                            gu,
                        ));
                    }
                    offset = offset + consumed;
                    parsers.push(p);
                    parsers.push(nested);
                    proof {
                        assert(models_of(parsers@) =~= stack0.drop_last().push(
                            parsed_next(stepv),
                        ).push(nm));
                    }
                },
                ParsedStep::Skip => {
                    proof {
                        assert(pbm is Other);
                    }
                    if consumed == 0 {
                        proof {
                            self.lemma_bounded_from_budget(t0, off0, flen);
                            assert(file_walk(full_wasm@) == walk_fault(
                                ErrModel::Inconsistent,
                                gd,
                                ge,
                                gc,
                                gu,
                            ));
                        }
                        return Err(DecodeError::Inconsistent);
                    }
                    proof {
                        assert(file_walk(full_wasm@) == walk_from(
                            stack0.drop_last().push(parsed_next(stepv)),
                            full_wasm@,
                            off0 + consumed,
                            gd,
                            ge,
                            gc,
                            gu,
                        ));
                    }
                    offset = offset + consumed;
                    parsers.push(p);
                    proof {
                        assert(models_of(parsers@) =~= stack0.drop_last().push(parsed_next(stepv)));
                    }
                },
            }
        }
        proof {
            self.lemma_bounded_from_budget(t0, offset as int, flen);
            assert(models_of(parsers@) =~= Seq::<DecoderState>::empty());
            assert(file_walk(full_wasm@) == WalkDone {
                fault: None,
                data: gd,
                elems: ge,
                code: gc,
                custom: gu,
            });
        }
        Ok(())
    }

    /// The in-flight budget `t0 + offset` never exceeds the final
    /// `total_size`, so the counter bound carries over.
    proof fn lemma_bounded_from_budget(&self, t0: int, offset: int, flen: int)
        requires
            0 <= offset <= flen,
            self.total_size == t0 + flen,
            counts_le(self.data_segments@, t0 + offset),
            counts_le(self.elem_segments@, t0 + offset),
            counts_le(self.code_bodies@, t0 + offset),
            counts_le(self.custom_sections@, t0 + offset),
        ensures
            self.bounded(),
    {
        lemma_counts_le_mono(self.data_segments@, t0 + offset, self.total_size as int);
        lemma_counts_le_mono(self.elem_segments@, t0 + offset, self.total_size as int);
        lemma_counts_le_mono(self.code_bodies@, t0 + offset, self.total_size as int);
        lemma_counts_le_mono(self.custom_sections@, t0 + offset, self.total_size as int);
    }
}

} // verus!
