use vstd::prelude::*;

use vstd::slice::{slice_subrange, slice_to_vec};

use crate::endian;
use crate::endian::big::{
    lemma_u64_be_bytes_round_trip, spec_u64_from_be_bytes, spec_u64_to_be_bytes,
};
use crate::error::CodecError;
use crate::varint;
use crate::varint::{spec_varint_decode, spec_varint_encode};

verus! {

/// Name of a column family.
pub type CfName = &'static str;

/// A raw value.
pub type Value = Vec<u8>;

/// An encoded key held by a modification.
#[derive(Debug, Clone, PartialEq, Eq)]
pub struct Key(Vec<u8>);

/// ASCII 'P', the tag byte of a put write.
pub const FLAG_PUT: u8 = 80;

/// ASCII 'D', the tag byte of a delete write.
pub const FLAG_DELETE: u8 = 68;

/// ASCII 'L', the tag byte of a lock write.
pub const FLAG_LOCK: u8 = 76;

/// ASCII 'R', the tag byte of a rollback write.
pub const FLAG_ROLLBACK: u8 = 82;

/// ASCII 'R', the field tag of the overlapped-rollback flag. That it
/// coincides with the rollback write-type tag is a property of the wire
/// format, not an accident.
pub const FLAG_OVERLAPPED_ROLLBACK: u8 = 82;

/// ASCII 'F', the field tag that introduces a GC-fence timestamp.
pub const GC_FENCE_PREFIX: u8 = 70;

/// ASCII 'v', the field tag that introduces an inline short value.
pub const SHORT_VALUE_PREFIX: u8 = 118;

/// Longest inline short value the format can carry: its length is stored
/// in a single byte.
pub const SHORT_VALUE_MAX_LEN: usize = 255;

/// A modification to apply to a column family.
#[derive(Debug, Clone, PartialEq, Eq)]
pub enum Modify {
    Delete(CfName, Key),
    Put(CfName, Key, Value),
}

/// An opaque, ordered logical timestamp.
#[derive(Debug, Clone, Copy, PartialEq, Eq, Structural)]
pub struct TimeStamp(pub u64);

impl From<u64> for TimeStamp {
    fn from(t: u64) -> Self {
        TimeStamp(t)
    }
}

impl vstd::std_specs::convert::FromSpecImpl<u64> for TimeStamp {
    open spec fn obeys_from_spec() -> bool {
        true
    }

    open spec fn from_spec(t: u64) -> Self {
        TimeStamp(t)
    }
}

/// Outcome of a transaction at a given start timestamp.
#[derive(Debug, Clone, Copy, PartialEq, Eq, Structural)]
pub enum WriteType {
    Put,
    Delete,
    Lock,
    Rollback,
}

impl WriteType {
    /// The write type denoted by tag byte `b`, if any.
    pub open spec fn spec_from_u8(b: u8) -> Option<WriteType> {
        if b == FLAG_PUT {
            Some(WriteType::Put)
        } else if b == FLAG_DELETE {
            Some(WriteType::Delete)
        } else if b == FLAG_LOCK {
            Some(WriteType::Lock)
        } else if b == FLAG_ROLLBACK {
            Some(WriteType::Rollback)
        } else {
            None
        }
    }

    /// The tag byte of this write type.
    pub open spec fn spec_to_u8(self) -> u8 {
        match self {
            WriteType::Put => FLAG_PUT,
            WriteType::Delete => FLAG_DELETE,
            WriteType::Lock => FLAG_LOCK,
            WriteType::Rollback => FLAG_ROLLBACK,
        }
    }

    /// Maps a tag byte to its write type; bytes outside the closed tag set
    /// map to nothing.
    pub fn from_u8(b: u8) -> (r: Option<WriteType>)
        ensures
            r == WriteType::spec_from_u8(b),
    {
        if b == FLAG_PUT {
            Some(WriteType::Put)
        } else if b == FLAG_DELETE {
            Some(WriteType::Delete)
        } else if b == FLAG_LOCK {
            Some(WriteType::Lock)
        } else if b == FLAG_ROLLBACK {
            Some(WriteType::Rollback)
        } else {
            None
        }
    }

    fn to_u8(self) -> (r: u8)
        ensures
            r == self.spec_to_u8(),
    {
        match self {
            WriteType::Put => FLAG_PUT,
            WriteType::Delete => FLAG_DELETE,
            WriteType::Lock => FLAG_LOCK,
            WriteType::Rollback => FLAG_ROLLBACK,
        }
    }
}

/// How a byte range of the input encodes the field it produced.
#[derive(Debug, Clone, PartialEq, Eq, Structural)]
pub enum EncodeMethod {
    EnumFlag,
    SingleByte,
    Bytes,
    BigEndian,
    LittleEndian,
    VarInt,
}

/// Mathematical model of one parsing-trace entry.
pub ghost struct TraceModel {
    pub start: nat,
    pub width: nat,
    pub description: Seq<char>,
    pub encoded_in: EncodeMethod,
}

/// One entry of the diagnostic parsing trace: which byte range of the
/// input produced which logical field, and by which encoding method.
#[derive(Debug, Clone, PartialEq, Eq)]
pub struct ParsingTrace {
    pub start: usize,
    pub width: usize,
    pub description: String,
    pub encoded_in: EncodeMethod,
}

impl View for ParsingTrace {
    type V = TraceModel;

    open spec fn view(&self) -> TraceModel {
        TraceModel {
            start: self.start as nat,
            width: self.width as nat,
            description: self.description@,
            encoded_in: self.encoded_in,
        }
    }
}

impl ParsingTrace {
    /// The field name this trace entry describes.
    pub fn description(&self) -> (r: String)
        ensures
            r@ == self@.description,
    {
        self.description.clone()
    }
}

/// The models of a sequence of trace entries, in order.
pub open spec fn trace_views(ts: Seq<ParsingTrace>) -> Seq<TraceModel> {
    ts.map_values(|t: ParsingTrace| t@)
}

/// Mathematical model of a write record.
#[verifier::ext_equal]
pub ghost struct SpecWrite {
    pub write_type: WriteType,
    pub start_ts: u64,
    pub short_value: Option<Seq<u8>>,
    pub has_overlapped_rollback: bool,
    pub gc_fence: Option<u64>,
}

impl SpecWrite {
    /// The record is representable on the wire: an inline short value fits
    /// its single length byte.
    pub open spec fn wf(self) -> bool {
        match self.short_value {
            Some(v) => v.len() <= 255,
            None => true,
        }
    }
}

/// The model of an optional raw value.
pub open spec fn spec_opt_bytes(v: Option<Value>) -> Option<Seq<u8>> {
    match v {
        Some(x) => Some(x@),
        None => None,
    }
}

/// An MVCC write record: the outcome of a transaction, its start
/// timestamp, and the optional inline short value, overlapped-rollback
/// flag and GC-fence timestamp.
#[derive(Debug, Clone, PartialEq, Eq)]
pub struct Write {
    pub write_type: WriteType,
    pub start_ts: TimeStamp,
    pub short_value: Option<Value>,
    pub has_overlapped_rollback: bool,
    pub gc_fence: Option<TimeStamp>,
}

impl View for Write {
    type V = SpecWrite;

    open spec fn view(&self) -> SpecWrite {
        SpecWrite {
            write_type: self.write_type,
            start_ts: self.start_ts.0,
            short_value: spec_opt_bytes(self.short_value),
            has_overlapped_rollback: self.has_overlapped_rollback,
            gc_fence: match self.gc_fence {
                Some(ts) => Some(ts.0),
                None => None,
            },
        }
    }
}

/// Whether `b` is one of the three field tags this version understands.
pub open spec fn spec_known_tag(b: u8) -> bool {
    b == SHORT_VALUE_PREFIX || b == FLAG_OVERLAPPED_ROLLBACK || b == GC_FENCE_PREFIX
}

/// One pass of the field loop: starting at byte `pos` of `b` with the
/// fields gathered so far in `w` and the trace gathered so far in `tr`,
/// consume tagged fields until the input ends or an unknown tag is met;
/// an unknown tag ends the parse without error, for forward compatibility.
pub open spec fn spec_parse_extra(
    b: Seq<u8>,
    pos: int,
    w: SpecWrite,
    tr: Seq<TraceModel>,
) -> Result<(SpecWrite, Seq<TraceModel>), CodecError>
    decreases b.len() - pos,
{
    if pos < 0 || pos >= b.len() {
        Ok((w, tr))
    } else {
        let tag = b[pos];
        if tag == SHORT_VALUE_PREFIX {
            if pos + 2 > b.len() {
                Err(CodecError::TruncatedInput)
            } else {
                let len = b[pos + 1] as int;
                if pos + 2 + len > b.len() {
                    Err(CodecError::TruncatedShortValue)
                } else {
                    spec_parse_extra(
                        b,
                        pos + 2 + len,
                        SpecWrite { short_value: Some(b.subrange(pos + 2, pos + 2 + len)), ..w },
                        tr + seq![
                            TraceModel {
                                start: pos as nat,
                                width: 1,
                                description: "flag:short_value"@,
                                encoded_in: EncodeMethod::EnumFlag,
                            },
                            TraceModel {
                                start: (pos + 1) as nat,
                                width: 1,
                                description: "length:short_value"@,
                                encoded_in: EncodeMethod::SingleByte,
                            },
                            TraceModel {
                                start: (pos + 2) as nat,
                                width: len as nat,
                                description: "short_value"@,
                                encoded_in: EncodeMethod::Bytes,
                            },
                        ],
                    )
                }
            }
        } else if tag == FLAG_OVERLAPPED_ROLLBACK {
            spec_parse_extra(
                b,
                pos + 1,
                SpecWrite { has_overlapped_rollback: true, ..w },
                tr + seq![
                    TraceModel {
                        start: pos as nat,
                        width: 1,
                        description: "flag:overlapped_rollback"@,
                        encoded_in: EncodeMethod::EnumFlag,
                    },
                ],
            )
        } else if tag == GC_FENCE_PREFIX {
            if pos + 9 > b.len() {
                Err(CodecError::TruncatedInput)
            } else {
                spec_parse_extra(
                    b,
                    pos + 9,
                    SpecWrite { gc_fence: Some(spec_u64_from_be_bytes(b.subrange(pos + 1, pos + 9))), ..w },
                    tr + seq![
                        TraceModel {
                            start: pos as nat,
                            width: 1,
                            description: "flag:gc_fence"@,
                            encoded_in: EncodeMethod::EnumFlag,
                        },
                        TraceModel {
                            start: (pos + 1) as nat,
                            width: 8,
                            description: "gc_fence"@,
                            encoded_in: EncodeMethod::BigEndian,
                        },
                    ],
                )
            }
        } else {
            Ok((w, tr))
        }
    }
}

/// Full parse of a write record: one write-type tag byte, a varint start
/// timestamp, then the tagged optional fields.
pub open spec fn spec_parse_write(b: Seq<u8>) -> Result<
    (SpecWrite, Seq<TraceModel>),
    CodecError,
> {
    if b.len() == 0 {
        Err(CodecError::TruncatedInput)
    } else {
        match WriteType::spec_from_u8(b[0]) {
            None => Err(CodecError::UnknownWriteType),
            Some(wt) => match spec_varint_decode(b.skip(1)) {
                None => Err(CodecError::MalformedVarint),
                Some((ts, ts_len)) => spec_parse_extra(
                    b,
                    1 + ts_len as int,
                    SpecWrite {
                        write_type: wt,
                        start_ts: ts,
                        short_value: None,
                        has_overlapped_rollback: false,
                        gc_fence: None,
                    },
                    seq![
                        TraceModel {
                            start: 0,
                            width: 1,
                            description: "write_type"@,
                            encoded_in: EncodeMethod::EnumFlag,
                        },
                        TraceModel {
                            start: 1,
                            width: ts_len,
                            description: "start_ts"@,
                            encoded_in: EncodeMethod::VarInt,
                        },
                    ],
                ),
            },
        }
    }
}

/// Wire bytes of the optional fields of `w`, in the canonical order: short
/// value, overlapped-rollback flag, GC fence.
pub open spec fn spec_write_field_bytes(w: SpecWrite) -> Seq<u8> {
    (match w.short_value {
        Some(v) => seq![SHORT_VALUE_PREFIX, v.len() as u8] + v,
        None => Seq::<u8>::empty(),
    }) + (if w.has_overlapped_rollback {
        seq![FLAG_OVERLAPPED_ROLLBACK]
    } else {
        Seq::<u8>::empty()
    }) + (match w.gc_fence {
        Some(ts) => seq![GC_FENCE_PREFIX] + spec_u64_to_be_bytes(ts),
        None => Seq::<u8>::empty(),
    })
}

/// Wire bytes of the whole record: write-type tag, varint start timestamp,
/// then the optional fields.
pub open spec fn spec_write_bytes(w: SpecWrite) -> Seq<u8> {
    seq![w.write_type.spec_to_u8()] + spec_varint_encode(w.start_ts as nat)
        + spec_write_field_bytes(w)
}

impl Write {
    /// Parses a write record, also returning the diagnostic trace of which
    /// byte range produced which field. The trace is purely observational:
    /// the record returned is exactly the one `parse` returns.
    pub fn parse_with_trace(b: &[u8]) -> (r: Result<(Write, Vec<ParsingTrace>), CodecError>)
        ensures
            match spec_parse_write(b@) {
                Ok(p) => r matches Ok(wt) && wt.0@ == p.0 && trace_views(wt.1@) == p.1,
                Err(e) => r == Err::<(Write, Vec<ParsingTrace>), CodecError>(e),
            },
    {
        if b.len() == 0 {
            return Err(CodecError::TruncatedInput);
        }
        let write_type = match WriteType::from_u8(b[0]) {
            Some(wt) => wt,
            None => {
                return Err(CodecError::UnknownWriteType);
            },
        };
        let rest = slice_subrange(b, 1, b.len());
        proof {
            assert(rest@ =~= b@.skip(1));
        }
        let (ts_u64, ts_width) = match varint::decode_u64(rest) {
            Ok(p) => p,
            Err(_) => {
                return Err(CodecError::MalformedVarint);
            },
        };
        let mut trace: Vec<ParsingTrace> = Vec::new();
        trace.push(
            ParsingTrace {
                start: 0,
                width: 1,
                description: "write_type".to_owned(),
                encoded_in: EncodeMethod::EnumFlag,
            },
        );
        trace.push(
            ParsingTrace {
                start: 1,
                width: ts_width,
                description: "start_ts".to_owned(),
                encoded_in: EncodeMethod::VarInt,
            },
        );
        let mut w = Write {
            write_type,
            start_ts: TimeStamp(ts_u64),
            short_value: None,
            has_overlapped_rollback: false,
            gc_fence: None,
        };
        let mut pos: usize = 1 + ts_width;
        proof {
            assert(trace_views(trace@) =~= spec_header_trace(ts_width as nat));
            varint::lemma_varint_decode_len(b@.skip(1));
            assert(spec_varint_decode(b@.skip(1)) == Some((ts_u64, ts_width as nat)));
            assert(spec_parse_write(b@) == spec_parse_extra(
                b@,
                pos as int,
                w@,
                trace_views(trace@),
            ));
        }
        while pos < b.len()
            invariant
                b@.len() <= usize::MAX,
                pos <= b@.len(),
                spec_parse_write(b@) == spec_parse_extra(b@, pos as int, w@, trace_views(trace@)),
            ensures
                spec_parse_write(b@) == Ok::<(SpecWrite, Seq<TraceModel>), CodecError>(
                    (w@, trace_views(trace@)),
                ),
            decreases b@.len() - pos,
        {
            let ghost pos0 = pos as int;
            let ghost w0 = w@;
            let ghost tr0 = trace_views(trace@);
            let tag = b[pos];
            if tag == SHORT_VALUE_PREFIX {
                if pos + 1 >= b.len() {
                    return Err(CodecError::TruncatedInput);
                }
                let len_byte = b[pos + 1] as usize;
                if b.len() - (pos + 2) < len_byte {
                    return Err(CodecError::TruncatedShortValue);
                }
                let sv = slice_to_vec(slice_subrange(b, pos + 2, pos + 2 + len_byte));
                w.short_value = Some(sv);
                trace.push(
                    ParsingTrace {
                        start: pos,
                        width: 1,
                        description: "flag:short_value".to_owned(),
                        encoded_in: EncodeMethod::EnumFlag,
                    },
                );
                trace.push(
                    ParsingTrace {
                        start: pos + 1,
                        width: 1,
                        description: "length:short_value".to_owned(),
                        encoded_in: EncodeMethod::SingleByte,
                    },
                );
                trace.push(
                    ParsingTrace {
                        start: pos + 2,
                        width: len_byte,
                        description: "short_value".to_owned(),
                        encoded_in: EncodeMethod::Bytes,
                    },
                );
                pos = pos + 2 + len_byte;
                proof {
                    assert(trace_views(trace@) =~= tr0 + seq![
                        TraceModel {
                            start: pos0 as nat,
                            width: 1,
                            description: "flag:short_value"@,
                            encoded_in: EncodeMethod::EnumFlag,
                        },
                        TraceModel {
                            start: (pos0 + 1) as nat,
                            width: 1,
                            description: "length:short_value"@,
                            encoded_in: EncodeMethod::SingleByte,
                        },
                        TraceModel {
                            start: (pos0 + 2) as nat,
                            width: len_byte as nat,
                            description: "short_value"@,
                            encoded_in: EncodeMethod::Bytes,
                        },
                    ]);
                    assert(w@ == SpecWrite {
                        short_value: Some(b@.subrange(pos0 + 2, pos0 + 2 + len_byte)),
                        ..w0
                    });
                    assert(spec_parse_extra(b@, pos0, w0, tr0) == spec_parse_extra(
                        b@,
                        pos as int,
                        w@,
                        trace_views(trace@),
                    ));
                }
            } else if tag == FLAG_OVERLAPPED_ROLLBACK {
                w.has_overlapped_rollback = true;
                trace.push(
                    ParsingTrace {
                        start: pos,
                        width: 1,
                        description: "flag:overlapped_rollback".to_owned(),
                        encoded_in: EncodeMethod::EnumFlag,
                    },
                );
                pos = pos + 1;
                proof {
                    assert(trace_views(trace@) =~= tr0 + seq![
                        TraceModel {
                            start: pos0 as nat,
                            width: 1,
                            description: "flag:overlapped_rollback"@,
                            encoded_in: EncodeMethod::EnumFlag,
                        },
                    ]);
                    assert(spec_parse_extra(b@, pos0, w0, tr0) == spec_parse_extra(
                        b@,
                        pos as int,
                        w@,
                        trace_views(trace@),
                    ));
                }
            } else if tag == GC_FENCE_PREFIX {
                if b.len() - (pos + 1) < 8 {
                    return Err(CodecError::TruncatedInput);
                }
                let fence_bytes = slice_subrange(b, pos + 1, pos + 9);
                let fence = match endian::big::decode_u64(fence_bytes) {
                    Ok(x) => x,
                    Err(_) => unreached(),
                };
                w.gc_fence = Some(TimeStamp(fence));
                trace.push(
                    ParsingTrace {
                        start: pos,
                        width: 1,
                        description: "flag:gc_fence".to_owned(),
                        encoded_in: EncodeMethod::EnumFlag,
                    },
                );
                trace.push(
                    ParsingTrace {
                        start: pos + 1,
                        width: 8,
                        description: "gc_fence".to_owned(),
                        encoded_in: EncodeMethod::BigEndian,
                    },
                );
                pos = pos + 9;
                proof {
                    assert(fence_bytes@ =~= b@.subrange(pos0 + 1, pos0 + 9));
                    assert(trace_views(trace@) =~= tr0 + seq![
                        TraceModel {
                            start: pos0 as nat,
                            width: 1,
                            description: "flag:gc_fence"@,
                            encoded_in: EncodeMethod::EnumFlag,
                        },
                        TraceModel {
                            start: (pos0 + 1) as nat,
                            width: 8,
                            description: "gc_fence"@,
                            encoded_in: EncodeMethod::BigEndian,
                        },
                    ]);
                    assert(spec_parse_extra(b@, pos0, w0, tr0) == spec_parse_extra(
                        b@,
                        pos as int,
                        w@,
                        trace_views(trace@),
                    ));
                }
            } else {
                proof {
                    assert(spec_parse_extra(b@, pos as int, w@, trace_views(trace@))
                        == Ok::<(SpecWrite, Seq<TraceModel>), CodecError>(
                        (w@, trace_views(trace@)),
                    ));
                }
                break ;
            }
        }
        Ok((w, trace))
    }

    /// Parses a write record from its wire bytes; unknown trailing tags end
    /// the parse without error, so records written by newer versions still
    /// parse.
    pub fn parse(b: &[u8]) -> (r: Result<Write, CodecError>)
        ensures
            match spec_parse_write(b@) {
                Ok(p) => r matches Ok(w) && w@ == p.0,
                Err(e) => r == Err::<Write, CodecError>(e),
            },
    {
        match Self::parse_with_trace(b) {
            Ok((w, _trace)) => Ok(w),
            Err(e) => Err(e),
        }
    }

    /// Serializes the record: write-type tag, varint start timestamp, then
    /// each present optional field in canonical order.
    pub fn to_bytes(&self) -> (r: Vec<u8>)
        requires
            self@.wf(),
        ensures
            r@ == spec_write_bytes(self@),
    {
        let mut b: Vec<u8> = Vec::new();
        b.push(self.write_type.to_u8());
        let mut ts_bytes = varint::encode_u64(self.start_ts.0);
        b.append(&mut ts_bytes);
        let ghost header = seq![self@.write_type.spec_to_u8()] + spec_varint_encode(
            self@.start_ts as nat,
        );
        proof {
            assert(b@ =~= header);
        }
        match &self.short_value {
            Some(v) => {
                b.push(SHORT_VALUE_PREFIX);
                b.push(v.len() as u8);
                let mut sv_bytes = slice_to_vec(v.as_slice());
                b.append(&mut sv_bytes);
            },
            None => {},
        }
        let ghost with_sv = header + (match self@.short_value {
            Some(v) => seq![SHORT_VALUE_PREFIX, v.len() as u8] + v,
            None => Seq::<u8>::empty(),
        });
        proof {
            assert(b@ =~= with_sv);
        }
        if self.has_overlapped_rollback {
            b.push(FLAG_OVERLAPPED_ROLLBACK);
        }
        let ghost with_rb = with_sv + (if self@.has_overlapped_rollback {
            seq![FLAG_OVERLAPPED_ROLLBACK]
        } else {
            Seq::<u8>::empty()
        });
        proof {
            assert(b@ =~= with_rb);
        }
        match &self.gc_fence {
            Some(ts) => {
                b.push(GC_FENCE_PREFIX);
                endian::big::encode_u64(&mut b, ts.0);
            },
            None => {},
        }
        proof {
            assert(b@ =~= spec_write_bytes(self@));
        }
        b
    }

    /// The inline short value, if any.
    pub fn short_value(&self) -> (r: Option<Value>)
        ensures
            spec_opt_bytes(r) == self@.short_value,
    {
        match &self.short_value {
            Some(v) => Some(slice_to_vec(v.as_slice())),
            None => None,
        }
    }

    /// Replaces the inline short value.
    pub fn set_short_value(&mut self, value: Option<Value>)
        ensures
            final(self)@ == (SpecWrite { short_value: spec_opt_bytes(value), ..old(self)@ }),
    {
        self.short_value = value;
    }
}

/// The two trace entries every successful parse begins with: the
/// write-type tag and the varint start timestamp of width `ts_len`.
pub open spec fn spec_header_trace(ts_len: nat) -> Seq<TraceModel> {
    seq![
        TraceModel { start: 0, width: 1, description: "write_type"@, encoded_in: EncodeMethod::EnumFlag },
        TraceModel { start: 1, width: ts_len, description: "start_ts"@, encoded_in: EncodeMethod::VarInt },
    ]
}

proof fn lemma_parse_extra_step_sv(
    b: Seq<u8>,
    pos: int,
    w0: SpecWrite,
    tr: Seq<TraceModel>,
    v: Seq<u8>,
    rest: Seq<u8>,
)
    requires
        0 <= pos <= b.len(),
        v.len() <= 255,
        b.skip(pos) == seq![SHORT_VALUE_PREFIX, v.len() as u8] + v + rest,
    ensures
        spec_parse_extra(b, pos, w0, tr) == spec_parse_extra(
            b,
            pos + 2 + v.len(),
            SpecWrite { short_value: Some(v), ..w0 },
            tr + seq![
                TraceModel {
                    start: pos as nat,
                    width: 1,
                    description: "flag:short_value"@,
                    encoded_in: EncodeMethod::EnumFlag,
                },
                TraceModel {
                    start: (pos + 1) as nat,
                    width: 1,
                    description: "length:short_value"@,
                    encoded_in: EncodeMethod::SingleByte,
                },
                TraceModel {
                    start: (pos + 2) as nat,
                    width: v.len(),
                    description: "short_value"@,
                    encoded_in: EncodeMethod::Bytes,
                },
            ],
        ),
        b.skip(pos + 2 + v.len()) == rest,
{
    let s = seq![SHORT_VALUE_PREFIX, v.len() as u8] + v + rest;
    assert(b.skip(pos).len() == b.len() - pos);
    assert forall|i: int| 0 <= i < b.len() - pos implies b[pos + i] == s[i] by {
        assert(b.skip(pos)[i] == b[pos + i]);
    }
    assert(b[pos + 0] == s[0]);
    assert(b[pos + 1] == s[1]);
    assert(b[pos] == SHORT_VALUE_PREFIX);
    assert((v.len() as u8) as int == v.len());
    assert(b[pos + 1] as int == v.len());
    assert forall|i: int| 0 <= i < v.len() implies v[i] == b[pos + 2 + i] by {
        assert(b[pos + (2 + i)] == s[2 + i]);
        assert(s[2 + i] == v[i]);
    }
    assert(b.subrange(pos + 2, pos + 2 + v.len()) =~= v);
    assert forall|i: int| 0 <= i < rest.len() implies b.skip(pos + 2 + v.len())[i] == rest[i] by {
        assert(b[(pos + 2 + v.len()) + i] == s[2 + v.len() + i]);
        assert(s[2 + v.len() + i] == rest[i]);
    }
    assert(b.skip(pos + 2 + v.len()) =~= rest);
}

proof fn lemma_parse_extra_step_rb(
    b: Seq<u8>,
    pos: int,
    w0: SpecWrite,
    tr: Seq<TraceModel>,
    rest: Seq<u8>,
)
    requires
        0 <= pos <= b.len(),
        b.skip(pos) == seq![FLAG_OVERLAPPED_ROLLBACK] + rest,
    ensures
        spec_parse_extra(b, pos, w0, tr) == spec_parse_extra(
            b,
            pos + 1,
            SpecWrite { has_overlapped_rollback: true, ..w0 },
            tr + seq![
                TraceModel {
                    start: pos as nat,
                    width: 1,
                    description: "flag:overlapped_rollback"@,
                    encoded_in: EncodeMethod::EnumFlag,
                },
            ],
        ),
        b.skip(pos + 1) == rest,
{
    let s = seq![FLAG_OVERLAPPED_ROLLBACK] + rest;
    assert(b.skip(pos).len() == b.len() - pos);
    assert forall|i: int| 0 <= i < b.len() - pos implies b[pos + i] == s[i] by {
        assert(b.skip(pos)[i] == b[pos + i]);
    }
    assert(b[pos + 0] == s[0]);
    assert(b[pos] == FLAG_OVERLAPPED_ROLLBACK);
    assert forall|i: int| 0 <= i < rest.len() implies b.skip(pos + 1)[i] == rest[i] by {
        assert(b[(pos + 1) + i] == s[1 + i]);
        assert(s[1 + i] == rest[i]);
    }
    assert(b.skip(pos + 1) =~= rest);
}

proof fn lemma_parse_extra_step_fence(
    b: Seq<u8>,
    pos: int,
    w0: SpecWrite,
    tr: Seq<TraceModel>,
    ts: u64,
    rest: Seq<u8>,
)
    requires
        0 <= pos <= b.len(),
        b.skip(pos) == seq![GC_FENCE_PREFIX] + spec_u64_to_be_bytes(ts) + rest,
    ensures
        spec_parse_extra(b, pos, w0, tr) == spec_parse_extra(
            b,
            pos + 9,
            SpecWrite { gc_fence: Some(ts), ..w0 },
            tr + seq![
                TraceModel {
                    start: pos as nat,
                    width: 1,
                    description: "flag:gc_fence"@,
                    encoded_in: EncodeMethod::EnumFlag,
                },
                TraceModel {
                    start: (pos + 1) as nat,
                    width: 8,
                    description: "gc_fence"@,
                    encoded_in: EncodeMethod::BigEndian,
                },
            ],
        ),
        b.skip(pos + 9) == rest,
{
    lemma_u64_be_bytes_round_trip(ts);
    let fence = spec_u64_to_be_bytes(ts);
    let s = seq![GC_FENCE_PREFIX] + fence + rest;
    assert(b.skip(pos).len() == b.len() - pos);
    assert forall|i: int| 0 <= i < b.len() - pos implies b[pos + i] == s[i] by {
        assert(b.skip(pos)[i] == b[pos + i]);
    }
    assert(b[pos + 0] == s[0]);
    assert(b[pos] == GC_FENCE_PREFIX);
    assert forall|i: int| 0 <= i < 8 implies fence[i] == b[pos + 1 + i] by {
        assert(b[pos + (1 + i)] == s[1 + i]);
        assert(s[1 + i] == fence[i]);
    }
    assert(b.subrange(pos + 1, pos + 9) =~= fence);
    assert(spec_u64_from_be_bytes(b.subrange(pos + 1, pos + 9)) == ts);
    assert forall|i: int| 0 <= i < rest.len() implies b.skip(pos + 9)[i] == rest[i] by {
        assert(b[(pos + 9) + i] == s[9 + i]);
        assert(s[9 + i] == rest[i]);
    }
    assert(b.skip(pos + 9) =~= rest);
}

proof fn lemma_parse_extra_stop(
    b: Seq<u8>,
    pos: int,
    w0: SpecWrite,
    tr: Seq<TraceModel>,
    tail: Seq<u8>,
)
    requires
        0 <= pos <= b.len(),
        b.skip(pos) == tail,
        tail.len() == 0 || !spec_known_tag(tail[0]),
    ensures
        spec_parse_extra(b, pos, w0, tr) == Ok::<(SpecWrite, Seq<TraceModel>), CodecError>(
            (w0, tr),
        ),
{
    assert(b.skip(pos).len() == b.len() - pos);
    if tail.len() == 0 {
        assert(pos == b.len());
    } else {
        assert(b.skip(pos)[0] == tail[0]);
        assert(b[pos + 0] == b.skip(pos)[0]);
        assert(b[pos] == tail[0]);
    }
}

#[verifier::rlimit(100)]
#[verifier::spinoff_prover]
proof fn lemma_parse_fields(
    b: Seq<u8>,
    pos: int,
    w0: SpecWrite,
    w: SpecWrite,
    tr: Seq<TraceModel>,
    tail: Seq<u8>,
)
    requires
        0 <= pos <= b.len(),
        w.wf(),
        w0.write_type == w.write_type,
        w0.start_ts == w.start_ts,
        w0.short_value is None,
        !w0.has_overlapped_rollback,
        w0.gc_fence is None,
        b.skip(pos) == spec_write_field_bytes(w) + tail,
        tail.len() == 0 || !spec_known_tag(tail[0]),
    ensures
        spec_parse_extra(b, pos, w0, tr) matches Ok(p) && p.0 == w,
{
    let sv = match w.short_value {
        Some(v) => seq![SHORT_VALUE_PREFIX, v.len() as u8] + v,
        None => Seq::<u8>::empty(),
    };
    let rb = if w.has_overlapped_rollback {
        seq![FLAG_OVERLAPPED_ROLLBACK]
    } else {
        Seq::<u8>::empty()
    };
    let fe = match w.gc_fence {
        Some(ts) => seq![GC_FENCE_PREFIX] + spec_u64_to_be_bytes(ts),
        None => Seq::<u8>::empty(),
    };
    assert(spec_write_field_bytes(w) == sv + rb + fe);
    assert(b.skip(pos).len() == b.len() - pos);
    // Step one: the short value, when present.
    let pos1 = pos + sv.len();
    let w1 = SpecWrite { short_value: w.short_value, ..w0 };
    let tr1: Seq<TraceModel> = match w.short_value {
        Some(v) => tr + seq![
            TraceModel {
                start: pos as nat,
                width: 1,
                description: "flag:short_value"@,
                encoded_in: EncodeMethod::EnumFlag,
            },
            TraceModel {
                start: (pos + 1) as nat,
                width: 1,
                description: "length:short_value"@,
                encoded_in: EncodeMethod::SingleByte,
            },
            TraceModel {
                start: (pos + 2) as nat,
                width: v.len(),
                description: "short_value"@,
                encoded_in: EncodeMethod::Bytes,
            },
        ],
        None => tr,
    };
    match w.short_value {
        Some(v) => {
            assert(b.skip(pos) =~= seq![SHORT_VALUE_PREFIX, v.len() as u8] + v + (rb + fe
                + tail));
            lemma_parse_extra_step_sv(b, pos, w0, tr, v, rb + fe + tail);
            assert(w1 =~= (SpecWrite { short_value: Some(v), ..w0 }));
        },
        None => {
            assert(b.skip(pos1) =~= rb + fe + tail);
        },
    }
    assert(spec_parse_extra(b, pos, w0, tr) == spec_parse_extra(b, pos1, w1, tr1));
    assert(b.skip(pos1) == rb + fe + tail);
    // Step two: the overlapped-rollback flag, when set.
    let pos2 = pos1 + rb.len();
    let w2 = SpecWrite { has_overlapped_rollback: w.has_overlapped_rollback, ..w1 };
    let tr2: Seq<TraceModel> = if w.has_overlapped_rollback {
        tr1 + seq![
            TraceModel {
                start: pos1 as nat,
                width: 1,
                description: "flag:overlapped_rollback"@,
                encoded_in: EncodeMethod::EnumFlag,
            },
        ]
    } else {
        tr1
    };
    if w.has_overlapped_rollback {
        assert(b.skip(pos1) =~= seq![FLAG_OVERLAPPED_ROLLBACK] + (fe + tail));
        lemma_parse_extra_step_rb(b, pos1, w1, tr1, fe + tail);
        assert(w2 =~= (SpecWrite { has_overlapped_rollback: true, ..w1 }));
    } else {
        assert(b.skip(pos2) =~= fe + tail);
    }
    assert(spec_parse_extra(b, pos1, w1, tr1) == spec_parse_extra(b, pos2, w2, tr2));
    assert(b.skip(pos2) == fe + tail);
    // Step three: the GC fence, when present.
    let pos3 = pos2 + fe.len();
    let w3 = SpecWrite { gc_fence: w.gc_fence, ..w2 };
    let tr3: Seq<TraceModel> = match w.gc_fence {
        Some(ts) => tr2 + seq![
            TraceModel {
                start: pos2 as nat,
                width: 1,
                description: "flag:gc_fence"@,
                encoded_in: EncodeMethod::EnumFlag,
            },
            TraceModel {
                start: (pos2 + 1) as nat,
                width: 8,
                description: "gc_fence"@,
                encoded_in: EncodeMethod::BigEndian,
            },
        ],
        None => tr2,
    };
    match w.gc_fence {
        Some(ts) => {
            assert(b.skip(pos2) =~= seq![GC_FENCE_PREFIX] + spec_u64_to_be_bytes(ts) + tail);
            lemma_parse_extra_step_fence(b, pos2, w2, tr2, ts, tail);
            assert(w3 =~= (SpecWrite { gc_fence: Some(ts), ..w2 }));
        },
        None => {
            assert(b.skip(pos3) =~= tail);
        },
    }
    assert(spec_parse_extra(b, pos2, w2, tr2) == spec_parse_extra(b, pos3, w3, tr3));
    assert(b.skip(pos3) == tail);
    // After the fields only `tail` remains, and it cannot begin a field.
    lemma_parse_extra_stop(b, pos3, w3, tr3, tail);
    assert(w3 =~= w);
}

proof fn lemma_parse_write_bytes_with_tail(w: SpecWrite, tail: Seq<u8>)
    requires
        w.wf(),
        tail.len() == 0 || !spec_known_tag(tail[0]),
    ensures
        spec_parse_write(spec_write_bytes(w) + tail) matches Ok(p) && p.0 == w,
{
    let b = spec_write_bytes(w) + tail;
    let tag = w.write_type.spec_to_u8();
    let enc = spec_varint_encode(w.start_ts as nat);
    let fields = spec_write_field_bytes(w);
    assert(b[0] == tag);
    assert(WriteType::spec_from_u8(tag) == Some(w.write_type));
    assert(b.skip(1) =~= enc + (fields + tail));
    varint::lemma_varint_decode_of_encode(w.start_ts, fields + tail);
    assert(spec_varint_decode(b.skip(1)) == Some((w.start_ts, enc.len())));
    let pos = 1 + enc.len() as int;
    assert forall|i: int| 0 <= i < b.len() - pos implies b.skip(pos)[i] == (fields + tail)[i] by {
        assert(b.skip(1)[(enc.len() + i) as int] == (enc + (fields + tail))[enc.len() + i]);
        assert((enc + (fields + tail))[enc.len() + i] == (fields + tail)[i]);
    }
    assert(b.skip(pos) =~= fields + tail);
    let w0 = SpecWrite {
        write_type: w.write_type,
        start_ts: w.start_ts,
        short_value: None,
        has_overlapped_rollback: false,
        gc_fence: None,
    };
    lemma_parse_fields(b, pos, w0, w, spec_header_trace(enc.len()), tail);
}

/// Write round trip: parsing the serialization of a representable record
/// yields the record back, the diagnostic trace aside.
pub proof fn lemma_write_round_trip(w: SpecWrite)
    requires
        w.wf(),
    ensures
        spec_parse_write(spec_write_bytes(w)) matches Ok(p) && p.0 == w,
{
    lemma_parse_write_bytes_with_tail(w, Seq::<u8>::empty());
    assert(spec_write_bytes(w) + Seq::<u8>::empty() =~= spec_write_bytes(w));
}

/// Forward compatibility: appending an unrecognized tag byte and anything
/// after it to a serialized record leaves the parse successful and the
/// parsed fields unchanged; the unknown trailing bytes are ignored.
pub proof fn lemma_write_forward_compatible(w: SpecWrite, tail: Seq<u8>)
    requires
        w.wf(),
        tail.len() > 0,
        !spec_known_tag(tail[0]),
    ensures
        spec_parse_write(spec_write_bytes(w) + tail) matches Ok(p) && p.0 == w,
{
    lemma_parse_write_bytes_with_tail(w, tail);
}

} // verus!
