//! Parser and reader for the hierarchical big-endian DFF container
//! (a DSDIFF subset).
//!
//! The layout is a `FRM8` header followed by tagged chunks, each a
//! 4-byte tag and an 8-byte big-endian size. A `PROP` chunk with the
//! `SND ` property set carries the sample rate (`FS  `), the channel
//! count (`CHNL`) and the compression id (`CMPR`, which must be
//! `DSD `); the `DSD ` chunk carries the audio payload, one byte per
//! channel per frame, byte-interleaved. Chunk payloads are consumed
//! padded to even length although the declared size is not rounded.
//!
//! The functions `snd_walk`, `dff_walk` and `dff_parse` are the
//! mathematical model of the chunk walk; `DFFReader` is the executable
//! reader, proved against that model.

use vstd::prelude::*;

use crate::byte_stream::{be16, be32, be64, non_neg, ByteStream};
use crate::dsd_readers::{DSDFormat, DsdError};
use crate::dsd_readers::{CHNL_TAG, CMPR_TAG, DSD_TAG, FRM8_TAG, FS_TAG, PROP_TAG, SND_TAG};

verus! {

broadcast use vstd::std_specs::vec::axiom_spec_len;

/// A declared chunk size, rounded up to even length: payloads are
/// consumed padded although the size field itself is not rounded.
pub open spec fn pad_even(n: int) -> int {
    if n % 2 == 0 {
        n
    } else {
        n + 1
    }
}

/// What a finished walk of the `SND ` sub-chunks leaves behind: the
/// stream offset just past the last sub-chunk consumed, and the sample
/// rate and channel count collected so far.
pub struct SndScan {
    pub end_pos: int,
    pub rate: Option<u32>,
    pub chans: Option<u16>,
}

/// Walks the `SND ` sub-chunks of a `PROP` chunk from `pos` while `pos`
/// lies before `end`, collecting `FS  ` and `CHNL` values and checking
/// `CMPR`. `None` models a fatal format error: the data ends inside a
/// header or a value, the compression id is not `DSD `, or a sub-chunk
/// end does not fit in a 64-bit offset.
pub open spec fn snd_walk(
    d: Seq<u8>,
    pos: int,
    end: int,
    rate: Option<u32>,
    chans: Option<u16>,
) -> Option<SndScan>
    decreases end - pos,
{
    if pos >= end {
        Some(SndScan { end_pos: pos, rate, chans })
    } else if pos + 12 > d.len() {
        None
    } else {
        let tag = be32(d, pos);
        let size = be64(d, pos + 4);
        let ps = pos + 12;
        let next = ps + pad_even(size);
        if next > u64::MAX {
            None
        } else if tag == FS_TAG && size >= 4 && ps + 4 > d.len() {
            None
        } else if tag == CHNL_TAG && size >= 2 && ps + 2 > d.len() {
            None
        } else if tag == CMPR_TAG && (size < 4 || ps + 4 > d.len() || be32(d, ps) != DSD_TAG) {
            None
        } else {
            let rate2 = if tag == FS_TAG && size >= 4 {
                Some(be32(d, ps) as u32)
            } else {
                rate
            };
            let chans2 = if tag == CHNL_TAG && size >= 2 {
                Some(be16(d, ps) as u16)
            } else {
                chans
            };
            if next >= end {
                Some(SndScan { end_pos: next, rate: rate2, chans: chans2 })
            } else {
                snd_walk(d, next, end, rate2, chans2)
            }
        }
    }
}

/// A successful `SND ` walk never stops early and never moves
/// backwards: its final offset is at least the offset it started from,
/// and at least the end of the property payload.
pub proof fn lemma_snd_walk_advances(
    d: Seq<u8>,
    pos: int,
    end: int,
    rate: Option<u32>,
    chans: Option<u16>,
)
    ensures
        snd_walk(d, pos, end, rate, chans) matches Some(s) ==> s.end_pos >= pos && s.end_pos
            >= end,
    decreases end - pos,
{
    if pos >= end {
    } else if pos + 12 > d.len() {
    } else {
        let tag = be32(d, pos);
        let size = be64(d, pos + 4);
        let ps = pos + 12;
        let next = ps + pad_even(size);
        if next > u64::MAX {
        } else if tag == FS_TAG && size >= 4 && ps + 4 > d.len() {
        } else if tag == CHNL_TAG && size >= 2 && ps + 2 > d.len() {
        } else if tag == CMPR_TAG && (size < 4 || ps + 4 > d.len() || be32(d, ps) != DSD_TAG) {
        } else {
            let rate2 = if tag == FS_TAG && size >= 4 {
                Some(be32(d, ps) as u32)
            } else {
                rate
            };
            let chans2 = if tag == CHNL_TAG && size >= 2 {
                Some(be16(d, ps) as u16)
            } else {
                chans
            };
            if next >= end {
            } else {
                lemma_snd_walk_advances(d, next, end, rate2, chans2);
            }
        }
    }
}

/// What the top-level chunk walk yields when it reaches the `DSD `
/// audio chunk: the declared payload size, the offset of the payload,
/// and the sample rate and channel count collected on the way.
pub struct DffAudio {
    pub audio_size: u64,
    pub data_start: int,
    pub rate: Option<u32>,
    pub chans: Option<u16>,
}

/// Walks top-level chunks from `pos` until the `DSD ` audio chunk.
/// `PROP`/`SND ` payloads are walked for parameters; every other chunk
/// is skipped over its even-padded payload. `None` models a fatal
/// format error: the data ends inside a header, the `SND ` walk fails,
/// or a skip target does not fit in a 64-bit offset.
pub open spec fn dff_walk(d: Seq<u8>, pos: int, rate: Option<u32>, chans: Option<u16>) -> Option<
    DffAudio,
>
    decreases d.len() - pos,
{
    if pos + 12 > d.len() {
        None
    } else {
        let tag = be32(d, pos);
        let size = be64(d, pos + 4);
        let ps = pos + 12;
        if tag == DSD_TAG {
            Some(DffAudio { audio_size: be64(d, pos + 4) as u64, data_start: ps, rate, chans })
        } else if tag == PROP_TAG {
            if ps + 4 > d.len() {
                None
            } else if be32(d, ps) == SND_TAG {
                if ps + size > u64::MAX {
                    None
                } else {
                    match snd_walk(d, ps + 4, ps + size, rate, chans) {
                        None => None,
                        Some(s) => {
                            if s.end_pos > d.len() {
                                None
                            } else {
                                proof {
                                    lemma_snd_walk_advances(d, ps + 4, ps + size, rate, chans);
                                }
                                dff_walk(d, s.end_pos, s.rate, s.chans)
                            }
                        },
                    }
                }
            } else {
                let next = ps + pad_even(size);
                if next > u64::MAX || next > d.len() {
                    None
                } else {
                    dff_walk(d, next, rate, chans)
                }
            }
        } else {
            let next = ps + pad_even(size);
            if next > u64::MAX || next > d.len() {
                None
            } else {
                dff_walk(d, next, rate, chans)
            }
        }
    }
}

/// The stream parameters a well-formed DFF container declares.
pub struct DffMeta {
    pub sampling_rate: u32,
    pub num_channels: u16,
    pub total_samples: u64,
    pub audio_size: u64,
    pub data_start: int,
}

/// The mathematical model of `DFFReader::open`: `Some` exactly on the
/// containers it accepts, carrying the parameters it reports. The
/// container must begin with `FRM8`, a form size, and the form type
/// `DSD `; the chunk walk must reach the audio chunk having seen a
/// sample rate and a non-zero channel count. The total frame count is
/// the audio payload size divided by the channel count: one byte per
/// channel per frame.
pub open spec fn dff_parse(d: Seq<u8>) -> Option<DffMeta> {
    if d.len() < 16 {
        None
    } else if be32(d, 0) != FRM8_TAG || be32(d, 12) != DSD_TAG {
        None
    } else {
        match dff_walk(d, 16, None, None) {
            None => None,
            Some(a) => match (a.rate, a.chans) {
                (Some(r), Some(c)) => if c > 0 {
                    Some(
                        DffMeta {
                            sampling_rate: r,
                            num_channels: c,
                            total_samples: a.audio_size / (c as u64),
                            audio_size: a.audio_size,
                            data_start: a.data_start,
                        },
                    )
                } else {
                    None
                },
                _ => None,
            },
        }
    }
}

/// The byte that channel `c` carries in frame `f` of a byte-interleaved
/// audio payload starting at `start`: frames follow each other, and
/// within a frame the channels follow each other.
pub open spec fn dff_frame_byte(d: Seq<u8>, start: int, ch: int, f: int, c: int) -> u8 {
    d[start + f * ch + c]
}

/// Skipping an unrecognized top-level chunk alters nothing: the walk
/// continues after its even-padded payload with the same collected
/// parameters, so the parsed descriptor cannot depend on the chunk.
pub proof fn lemma_dff_unknown_chunk_skipped(
    d: Seq<u8>,
    pos: int,
    rate: Option<u32>,
    chans: Option<u16>,
)
    requires
        0 <= pos,
        pos + 12 <= d.len(),
        d.len() <= u64::MAX,
        be32(d, pos) != DSD_TAG,
        be32(d, pos) != PROP_TAG,
        pos + 12 + pad_even(be64(d, pos + 4)) <= d.len(),
    ensures
        dff_walk(d, pos, rate, chans) == dff_walk(
            d,
            pos + 12 + pad_even(be64(d, pos + 4)),
            rate,
            chans,
        ),
{
}

/// The `SND ` walk reads nothing before its own position: over two
/// byte sequences whose tails agree at a fixed offset, the walks move
/// in lockstep, collecting the same parameters. The one asymmetry: a
/// sub-chunk end that overflows a 64-bit offset only in the longer
/// sequence stops that walk, and then the shorter one runs past its
/// own data, which the caller's end-of-data check catches either way.
pub proof fn lemma_snd_walk_shift(
    d1: Seq<u8>,
    d2: Seq<u8>,
    off: int,
    lo: int,
    pos: int,
    end: int,
    rate: Option<u32>,
    chans: Option<u16>,
)
    requires
        0 <= off,
        0 <= lo <= pos,
        d2.len() == d1.len() + off,
        d2.len() <= u64::MAX,
        end + off <= u64::MAX,
        forall|i: int| lo <= i < d1.len() ==> #[trigger] d1[i] == d2[i + off],
    ensures
        match (snd_walk(d1, pos, end, rate, chans), snd_walk(
            d2,
            pos + off,
            end + off,
            rate,
            chans,
        )) {
            (Some(s1), Some(s2)) => s2.end_pos == s1.end_pos + off && s2.rate == s1.rate
                && s2.chans == s1.chans,
            (None, None) => true,
            (Some(s1), None) => s1.end_pos > d1.len(),
            (None, Some(_)) => false,
        },
    decreases end - pos,
{
    if pos >= end {
    } else if pos + 12 > d1.len() {
    } else {
        assert forall|k: int| 0 <= k < 12 implies d2[pos + off + k] == #[trigger] d1[pos + k] by {
            assert(d1[pos + k] == d2[(pos + k) + off]);
        }
        assert(be32(d2, pos + off) == be32(d1, pos));
        assert(be64(d2, pos + off + 4) == be64(d1, pos + 4));
        let tag = be32(d1, pos);
        let size = be64(d1, pos + 4);
        let ps = pos + 12;
        let next = ps + pad_even(size);
        if next > u64::MAX {
        } else if next + off > u64::MAX {
            // the longer walk stops here; the shorter one runs past its data
            assert(next > d1.len());
            if !(tag == FS_TAG && size >= 4 && ps + 4 > d1.len()) && !(tag == CHNL_TAG && size
                >= 2 && ps + 2 > d1.len()) && !(tag == CMPR_TAG && (size < 4 || ps + 4 > d1.len()
                || be32(d1, ps) != DSD_TAG)) {
                let rate2 = if tag == FS_TAG && size >= 4 {
                    Some(be32(d1, ps) as u32)
                } else {
                    rate
                };
                let chans2 = if tag == CHNL_TAG && size >= 2 {
                    Some(be16(d1, ps) as u16)
                } else {
                    chans
                };
                if next >= end {
                } else {
                    lemma_snd_walk_advances(d1, next, end, rate2, chans2);
                }
            }
        } else {
            if tag == FS_TAG && size >= 4 && ps + 4 <= d1.len() {
                assert forall|k: int| 0 <= k < 4 implies d2[ps + off + k] == #[trigger] d1[ps + k] by {
                    assert(d1[ps + k] == d2[(ps + k) + off]);
                }
                assert(be32(d2, ps + off) == be32(d1, ps));
            }
            if tag == CHNL_TAG && size >= 2 && ps + 2 <= d1.len() {
                assert forall|k: int| 0 <= k < 2 implies d2[ps + off + k] == #[trigger] d1[ps + k] by {
                    assert(d1[ps + k] == d2[(ps + k) + off]);
                }
                assert(be16(d2, ps + off) == be16(d1, ps));
            }
            if tag == CMPR_TAG && size >= 4 && ps + 4 <= d1.len() {
                assert forall|k: int| 0 <= k < 4 implies d2[ps + off + k] == #[trigger] d1[ps + k] by {
                    assert(d1[ps + k] == d2[(ps + k) + off]);
                }
                assert(be32(d2, ps + off) == be32(d1, ps));
            }
            if tag == FS_TAG && size >= 4 && ps + 4 > d1.len() {
            } else if tag == CHNL_TAG && size >= 2 && ps + 2 > d1.len() {
            } else if tag == CMPR_TAG && (size < 4 || ps + 4 > d1.len() || be32(d1, ps)
                != DSD_TAG) {
            } else {
                let rate2 = if tag == FS_TAG && size >= 4 {
                    Some(be32(d1, ps) as u32)
                } else {
                    rate
                };
                let chans2 = if tag == CHNL_TAG && size >= 2 {
                    Some(be16(d1, ps) as u16)
                } else {
                    chans
                };
                if next >= end {
                } else {
                    lemma_snd_walk_shift(d1, d2, off, lo, next, end, rate2, chans2);
                }
            }
        }
    }
}

/// The chunk walk reads nothing before its own position: over two byte
/// sequences whose tails agree at a fixed offset, the walks find the
/// same audio chunk with the same parameters, its payload shifted by
/// the offset — or both fail.
#[verifier::rlimit(100)]
#[verifier::spinoff_prover]
pub proof fn lemma_dff_walk_shift(
    d1: Seq<u8>,
    d2: Seq<u8>,
    off: int,
    lo: int,
    pos: int,
    rate: Option<u32>,
    chans: Option<u16>,
)
    requires
        0 <= off,
        0 <= lo <= pos,
        d2.len() == d1.len() + off,
        d2.len() <= u64::MAX,
        forall|i: int| lo <= i < d1.len() ==> #[trigger] d1[i] == d2[i + off],
    ensures
        match (dff_walk(d1, pos, rate, chans), dff_walk(d2, pos + off, rate, chans)) {
            (Some(a1), Some(a2)) => a2.data_start == a1.data_start + off && a2.rate == a1.rate
                && a2.chans == a1.chans && a2.audio_size == a1.audio_size,
            (None, None) => true,
            _ => false,
        },
    decreases d1.len() - pos,
{
    if pos + 12 > d1.len() {
    } else {
        assert forall|k: int| 0 <= k < 12 implies d2[pos + off + k] == #[trigger] d1[pos + k] by {
            assert(d1[pos + k] == d2[(pos + k) + off]);
        }
        assert(be32(d2, pos + off) == be32(d1, pos));
        assert(be64(d2, pos + off + 4) == be64(d1, pos + 4));
        let tag = be32(d1, pos);
        let size = be64(d1, pos + 4);
        let ps = pos + 12;
        if tag == DSD_TAG {
        } else if tag == PROP_TAG {
            if ps + 4 > d1.len() {
            } else {
                assert forall|k: int| 0 <= k < 4 implies d2[ps + off + k] == #[trigger] d1[ps + k] by {
                    assert(d1[ps + k] == d2[(ps + k) + off]);
                }
                assert(be32(d2, ps + off) == be32(d1, ps));
                if be32(d1, ps) == SND_TAG {
                    if ps + size > u64::MAX {
                    } else if ps + off + size > u64::MAX {
                        // the longer walk stops at the overflowing payload
                        // end; the shorter one's walk runs past its data
                        assert(ps + size > d1.len());
                        lemma_snd_walk_advances(d1, ps + 4, ps + size, rate, chans);
                    } else {
                        lemma_snd_walk_shift(d1, d2, off, lo, ps + 4, ps + size, rate, chans);
                        lemma_snd_walk_advances(d1, ps + 4, ps + size, rate, chans);
                        match snd_walk(d1, ps + 4, ps + size, rate, chans) {
                            None => {},
                            Some(s1) => {
                                if s1.end_pos > d1.len() {
                                } else {
                                    lemma_dff_walk_shift(
                                        d1,
                                        d2,
                                        off,
                                        lo,
                                        s1.end_pos,
                                        s1.rate,
                                        s1.chans,
                                    );
                                }
                            },
                        }
                    }
                } else {
                    let next = ps + pad_even(size);
                    if next > u64::MAX || next > d1.len() {
                    } else {
                        lemma_dff_walk_shift(d1, d2, off, lo, next, rate, chans);
                    }
                }
            }
        } else {
            let next = ps + pad_even(size);
            if next > u64::MAX || next > d1.len() {
            } else {
                lemma_dff_walk_shift(d1, d2, off, lo, next, rate, chans);
            }
        }
    }
}

/// Inserting one unrecognized top-level chunk where the walk stands
/// changes nothing but the payload offset: the container without the
/// chunk and the container with it yield the same sample rate, channel
/// count and audio size — the same descriptor — with the payload
/// shifted by the inserted chunk's even-padded extent, or both fail.
pub proof fn lemma_dff_insert_unknown_chunk(
    d1: Seq<u8>,
    d2: Seq<u8>,
    p: int,
    rate: Option<u32>,
    chans: Option<u16>,
)
    requires
        0 <= p,
        p + 12 <= d2.len(),
        d2.len() <= u64::MAX,
        be32(d2, p) != DSD_TAG,
        be32(d2, p) != PROP_TAG,
        d2.len() == d1.len() + 12 + pad_even(be64(d2, p + 4)),
        p + 12 + pad_even(be64(d2, p + 4)) <= d2.len(),
        forall|i: int|
            p <= i < d1.len() ==> #[trigger] d1[i] == d2[i + 12 + pad_even(be64(d2, p + 4))],
    ensures
        match (dff_walk(d1, p, rate, chans), dff_walk(d2, p, rate, chans)) {
            (Some(a1), Some(a2)) => a2.data_start == a1.data_start + 12 + pad_even(
                be64(d2, p + 4),
            ) && a2.rate == a1.rate && a2.chans == a1.chans && a2.audio_size == a1.audio_size,
            (None, None) => true,
            _ => false,
        },
{
    let off = 12 + pad_even(be64(d2, p + 4));
    lemma_dff_unknown_chunk_skipped(d2, p, rate, chans);
    lemma_dff_walk_shift(d1, d2, off, p, p, rate, chans);
}

/// Reader for the audio payload of a DFF container.
///
/// Frames are pulled through an internal block buffer: `buf` holds raw
/// interleaved bytes, `pos_frames` and `filled_frames` are the consume
/// and fill cursors in frame units, `read_frames` is the delivered
/// position, and `data_start` is the fixed offset of the payload.
pub struct DFFReader {
    src: ByteStream,
    buf: Vec<u8>,
    ch: usize,
    block_frames: usize,
    filled_frames: usize,
    pos_frames: usize,
    total_frames: u64,
    read_frames: u64,
    data_start: u64,
}

impl DFFReader {
    /// The underlying container bytes.
    pub closed spec fn source(self) -> Seq<u8> {
        self.src.bytes()
    }

    /// The channel count, zero until `open` succeeds.
    pub closed spec fn channel_count(self) -> int {
        self.ch as int
    }

    /// The total per-channel frame count reported by `open`.
    pub closed spec fn total(self) -> u64 {
        self.total_frames
    }

    /// The delivered position, in frames.
    pub closed spec fn position(self) -> u64 {
        self.read_frames
    }

    /// The fixed offset of the audio payload, set once by `open`.
    pub closed spec fn audio_start(self) -> u64 {
        self.data_start
    }

    /// How many frames remain between the delivered position and the
    /// end of the data.
    pub open spec fn available(self) -> int {
        let a = self.audio_start() + self.position() * self.channel_count();
        if self.channel_count() > 0 && a <= self.source().len() {
            (self.source().len() - a) / self.channel_count()
        } else {
            0
        }
    }

    /// Internal consistency: the cursors are ordered, the buffer holds
    /// the not-yet-consumed frames exactly as they stand in the source,
    /// and the stream cursor sits right after the buffered bytes (give
    /// or take a partial trailing frame, which only arises at the very
    /// end of the data).
    pub closed spec fn wf(self) -> bool {
        &&& self.ch <= u16::MAX
        &&& self.block_frames >= 1
        &&& (self.ch > 0 ==> {
            let a = self.data_start + self.read_frames * self.ch;
            let unread = (self.filled_frames - self.pos_frames) * self.ch;
            let tail = self.src.cursor() - a - unread;
            &&& self.pos_frames <= self.filled_frames
            &&& (self.pos_frames < self.filled_frames ==> self.filled_frames * self.ch
                <= self.buf@.len())
            &&& self.block_frames * self.ch <= usize::MAX
            &&& a <= u64::MAX
            &&& 0 <= tail < self.ch
            &&& (tail != 0 ==> self.src.cursor() == self.source().len())
            &&& (unread > 0 ==> a + unread <= self.source().len())
            &&& forall|i: int|
                self.pos_frames * self.ch <= i < self.pos_frames * self.ch + unread
                    ==> #[trigger] self.buf@[i] == self.source()[a + (i - self.pos_frames
                    * self.ch)]
        })
    }

    /// The freshly-constructed state `open` starts from.
    pub closed spec fn fresh(self) -> bool {
        &&& self.src.cursor() == 0
        &&& self.buf@.len() == 0
        &&& self.ch == 0
        &&& self.block_frames == 4096
        &&& self.filled_frames == 0
        &&& self.pos_frames == 0
        &&& self.total_frames == 0
        &&& self.read_frames == 0
        &&& self.data_start == 0
    }

    /// A reader over the given container bytes, not yet opened.
    pub fn new(data: Vec<u8>) -> (r: Self)
        ensures
            r.fresh(),
            r.wf(),
            r.source() == data@,
            r.channel_count() == 0,
            r.total() == 0,
            r.position() == 0,
    {
        DFFReader {
            src: ByteStream::new(data),
            buf: Vec::new(),
            ch: 0,
            block_frames: 4096,
            filled_frames: 0,
            pos_frames: 0,
            total_frames: 0,
            read_frames: 0,
            data_start: 0,
        }
    }

    /// A reader over no data at all; `open` on it always fails.
    pub fn empty() -> (r: Self)
        ensures
            r.fresh(),
            r.wf(),
            r.source() == Seq::<u8>::empty(),
            r.channel_count() == 0,
            r.total() == 0,
            r.position() == 0,
    {
        Self::new(Vec::new())
    }

    /// Walks the container and populates `format`, exactly when the
    /// container is well-formed: `dff_parse` says which containers are
    /// accepted and which parameters they yield. On failure `format` is
    /// untouched and the reader is unusable. A container that declares
    /// no channels is rejected rather than opened.
    #[verifier::rlimit(100)]
    pub fn open(&mut self, format: &mut DSDFormat) -> (r: Result<(), DsdError>)
        requires
            old(self).fresh(),
        ensures
            final(self).source() == old(self).source(),
            r is Ok <==> dff_parse(old(self).source()) is Some,
            r matches Err(e) ==> e == DsdError::FormatError && *final(format) == *old(format),
            r is Ok ==> (dff_parse(old(self).source()) matches Some(m) && {
                &&& final(self).wf()
                &&& final(self).channel_count() == m.num_channels
                &&& final(self).total() == m.total_samples
                &&& final(self).audio_start() == m.data_start
                &&& final(self).position() == 0
                &&& *final(format) == (DSDFormat {
                    sampling_rate: m.sampling_rate,
                    num_channels: m.num_channels as u32,
                    total_samples: m.total_samples,
                    is_lsb_first: false,
                })
            }),
    {
        let ghost d = self.src.bytes();
        proof {
            self.src.lemma_bytes_len();
        }
        let id = match self.src.read_tag() {
            Some(v) => v,
            None => return Err(DsdError::FormatError),
        };
        if id != FRM8_TAG {
            return Err(DsdError::FormatError);
        }
        let _frm8_size = match self.src.read_u64_be() {
            Some(v) => v,
            None => return Err(DsdError::FormatError),
        };
        let fmt_id = match self.src.read_tag() {
            Some(v) => v,
            None => return Err(DsdError::FormatError),
        };
        if fmt_id != DSD_TAG {
            return Err(DsdError::FormatError);
        }

        let mut rate: Option<u32> = None;
        let mut chans: Option<u16> = None;
        let mut audio_size: u64 = 0;

        loop
            invariant_except_break
                d == old(self).source(),
                self.src.bytes() == d,
                d.len() <= u64::MAX,
                d.len() >= 16 && be32(d, 0) == FRM8_TAG && be32(d, 12) == DSD_TAG,
                dff_walk(d, 16, None, None) == dff_walk(d, self.src.cursor() as int, rate, chans),
                self.ch == 0 && self.block_frames == 4096 && self.filled_frames == 0
                    && self.pos_frames == 0 && self.total_frames == 0 && self.read_frames == 0,
                self.buf@.len() == 0,
            ensures
                d == old(self).source(),
                self.src.bytes() == d,
                d.len() >= 16 && be32(d, 0) == FRM8_TAG && be32(d, 12) == DSD_TAG,
                self.ch == 0 && self.block_frames == 4096 && self.filled_frames == 0
                    && self.pos_frames == 0 && self.total_frames == 0 && self.read_frames == 0,
                self.buf@.len() == 0,
                dff_walk(d, 16, None, None) matches Some(a) && a.data_start
                    == self.src.cursor() as int && a.rate == rate && a.chans == chans
                    && a.audio_size == audio_size,
            decreases non_neg(d.len() - self.src.cursor() as int),
        {
            let ghost pos0 = self.src.cursor() as int;
            let chunk_id = match self.src.read_tag() {
                Some(v) => v,
                None => return Err(DsdError::FormatError),
            };
            let chunk_size = match self.src.read_u64_be() {
                Some(v) => v,
                None => return Err(DsdError::FormatError),
            };
            let payload_start = self.src.tell();

            if chunk_id == DSD_TAG {
                proof {
                    assert(be64(d, pos0 + 4) as u64 == chunk_size);
                    assert(dff_walk(d, pos0, rate, chans) == Some(
                        DffAudio {
                            audio_size: chunk_size,
                            data_start: payload_start as int,
                            rate,
                            chans,
                        },
                    ));
                }
                audio_size = chunk_size;
                break;
            } else if chunk_id == PROP_TAG {
                let prop_id = match self.src.read_tag() {
                    Some(v) => v,
                    None => return Err(DsdError::FormatError),
                };
                if prop_id == SND_TAG {
                    if chunk_size > u64::MAX - payload_start {
                        return Err(DsdError::FormatError);
                    }
                    let prop_end = payload_start + chunk_size;
                    proof {
                        assert(dff_walk(d, pos0, rate, chans) == (match snd_walk(
                            d,
                            payload_start as int + 4,
                            prop_end as int,
                            rate,
                            chans,
                        ) {
                            None => None,
                            Some(s) => if s.end_pos > d.len() {
                                None
                            } else {
                                dff_walk(d, s.end_pos, s.rate, s.chans)
                            },
                        }));
                    }
                    while self.src.tell() < prop_end
                        invariant
                            d == old(self).source(),
                            self.src.bytes() == d,
                            d.len() <= u64::MAX,
                            d.len() >= 16 && be32(d, 0) == FRM8_TAG && be32(d, 12) == DSD_TAG,
                            dff_walk(d, 16, None, None) == (match snd_walk(
                                d,
                                self.src.cursor() as int,
                                prop_end as int,
                                rate,
                                chans,
                            ) {
                                None => None,
                                Some(s) => if s.end_pos > d.len() {
                                    None
                                } else {
                                    dff_walk(d, s.end_pos, s.rate, s.chans)
                                },
                            }),
                            self.ch == 0 && self.block_frames == 4096 && self.filled_frames == 0
                                && self.pos_frames == 0 && self.total_frames == 0
                                && self.read_frames == 0,
                            self.buf@.len() == 0,
                        decreases non_neg(prop_end - self.src.cursor() as int),
                    {
                        let ghost cur0 = self.src.cursor() as int;
                        let ghost rate_in = rate;
                        let ghost chans_in = chans;
                        let sub_id = match self.src.read_tag() {
                            Some(v) => v,
                            None => return Err(DsdError::FormatError),
                        };
                        let sub_size = match self.src.read_u64_be() {
                            Some(v) => v,
                            None => return Err(DsdError::FormatError),
                        };
                        let sub_start = self.src.tell();
                        let padded: u64 = if sub_size % 2 == 0 {
                            sub_size
                        } else {
                            if sub_size == u64::MAX {
                                return Err(DsdError::FormatError);
                            }
                            sub_size + 1
                        };
                        if padded > u64::MAX - sub_start {
                            return Err(DsdError::FormatError);
                        }
                        let next = sub_start + padded;

                        if sub_id == FS_TAG {
                            if sub_size >= 4 {
                                let v = match self.src.read_u32_be() {
                                    Some(v) => v,
                                    None => return Err(DsdError::FormatError),
                                };
                                rate = Some(v);
                            }
                        } else if sub_id == CHNL_TAG {
                            if sub_size >= 2 {
                                let v = match self.src.read_u16_be() {
                                    Some(v) => v,
                                    None => return Err(DsdError::FormatError),
                                };
                                chans = Some(v);
                            }
                        } else if sub_id == CMPR_TAG {
                            if sub_size < 4 {
                                return Err(DsdError::FormatError);
                            }
                            let v = match self.src.read_tag() {
                                Some(v) => v,
                                None => return Err(DsdError::FormatError),
                            };
                            if v != DSD_TAG {
                                return Err(DsdError::FormatError);
                            }
                        }
                        self.src.seek_to(next);
                        proof {
                            assert(pad_even(sub_size as int) == padded as int);
                            assert(snd_walk(d, cur0, prop_end as int, rate_in, chans_in)
                                == snd_walk(d, next as int, prop_end as int, rate, chans));
                        }
                    }
                    proof {
                        let cur = self.src.cursor() as int;
                        assert(snd_walk(d, cur, prop_end as int, rate, chans) == Some(
                            SndScan { end_pos: cur, rate, chans },
                        ));
                        if cur > d.len() {
                            assert(dff_walk(d, cur, rate, chans) is None);
                        }
                        assert(dff_walk(d, 16, None, None) == dff_walk(d, cur, rate, chans));
                    }
                } else {
                    let padded: u64 = if chunk_size % 2 == 0 {
                        chunk_size
                    } else {
                        if chunk_size == u64::MAX {
                            return Err(DsdError::FormatError);
                        }
                        chunk_size + 1
                    };
                    if padded > u64::MAX - payload_start {
                        return Err(DsdError::FormatError);
                    }
                    self.src.seek_to(payload_start + padded);
                    proof {
                        assert(pad_even(chunk_size as int) == padded as int);
                        let next = payload_start as int + padded as int;
                        if next > d.len() {
                            assert(dff_walk(d, pos0, rate, chans) is None);
                            assert(dff_walk(d, next, rate, chans) is None);
                        }
                        assert(dff_walk(d, 16, None, None) == dff_walk(d, next, rate, chans));
                    }
                }
            } else {
                let padded: u64 = if chunk_size % 2 == 0 {
                    chunk_size
                } else {
                    if chunk_size == u64::MAX {
                        return Err(DsdError::FormatError);
                    }
                    chunk_size + 1
                };
                if padded > u64::MAX - payload_start {
                    return Err(DsdError::FormatError);
                }
                self.src.seek_to(payload_start + padded);
                proof {
                    assert(pad_even(chunk_size as int) == padded as int);
                    let next = payload_start as int + padded as int;
                    if next > d.len() {
                        assert(dff_walk(d, pos0, rate, chans) is None);
                        assert(dff_walk(d, next, rate, chans) is None);
                    }
                    assert(dff_walk(d, 16, None, None) == dff_walk(d, next, rate, chans));
                }
            }
        }

        let chans_v = match chans {
            Some(c) => c,
            None => return Err(DsdError::FormatError),
        };
        let rate_v = match rate {
            Some(r) => r,
            None => return Err(DsdError::FormatError),
        };
        if chans_v == 0 {
            return Err(DsdError::FormatError);
        }

        self.ch = chans_v as usize;
        self.total_frames = audio_size / (chans_v as u64);
        self.data_start = self.src.tell();
        let cap = self.block_frames * self.ch;
        self.buf.resize(cap, 0);

        format.sampling_rate = rate_v;
        format.num_channels = chans_v as u32;
        format.total_samples = self.total_frames;
        format.is_lsb_first = false;
        Ok(())
    }

    /// Pulls `bytes_per_channel` payload bytes per channel into the
    /// caller's buffers, or as many as remain before the data ends: the
    /// result is the per-channel count delivered, and a short count
    /// signals end of data, never a fault. Byte `j` handed to channel
    /// `c` is the payload byte of frame `position + j`: reads deliver
    /// the payload in order, nothing skipped, nothing repeated. With
    /// fewer buffers than channels the call fails with `InputError`
    /// before touching the stream; each buffer handed in must hold at
    /// least `bytes_per_channel` bytes. On a reader that was never
    /// opened the result is zero.
    #[verifier::rlimit(100)]
    pub fn read(&mut self, out: &mut Vec<Vec<u8>>, bytes_per_channel: usize) -> (r: Result<
        usize,
        DsdError,
    >)
        requires
            old(self).wf(),
            old(out)@.len() >= old(self).channel_count() ==> forall|c: int|
                0 <= c < old(self).channel_count() ==> (#[trigger] old(out)@[c])@.len()
                    >= bytes_per_channel,
        ensures
            final(self).wf(),
            final(self).source() == old(self).source(),
            final(self).channel_count() == old(self).channel_count(),
            final(self).total() == old(self).total(),
            final(self).audio_start() == old(self).audio_start(),
            old(self).channel_count() == 0 ==> r == Ok::<usize, DsdError>(0) && *final(self)
                == *old(self) && *final(out) == *old(out),
            old(self).channel_count() > 0 && old(out)@.len() < old(self).channel_count() ==> r
                == Err::<usize, DsdError>(DsdError::InputError) && *final(self) == *old(self)
                && *final(out) == *old(out),
            old(self).channel_count() > 0 && old(out)@.len() >= old(self).channel_count() ==> (
            r matches Ok(w) && {
                let ch = old(self).channel_count();
                let a0 = old(self).audio_start() + old(self).position() * ch;
                &&& w == if bytes_per_channel as int <= old(self).available() {
                    bytes_per_channel as int
                } else {
                    old(self).available()
                }
                &&& final(self).position() == old(self).position() + w
                &&& final(self).available() == old(self).available() - w
                &&& final(out)@.len() == old(out)@.len()
                &&& forall|c: int|
                    0 <= c < old(out)@.len() ==> (#[trigger] final(out)@[c])@.len()
                        == old(out)@[c]@.len()
                &&& forall|c: int, j: int|
                    0 <= c < ch && 0 <= j < w ==> #[trigger] final(out)@[c]@[j]
                        == old(self).source()[a0 + j * ch + c]
                &&& forall|c: int, j: int|
                    0 <= c < ch && w <= j < old(out)@[c]@.len() ==> #[trigger] final(out)@[c]@[j]
                        == old(out)@[c]@[j]
                &&& forall|c: int|
                    ch <= c < old(out)@.len() ==> #[trigger] final(out)@[c]@ == old(out)@[c]@
            }),
    {
        if self.ch == 0 {
            return Ok(0);
        }
        if out.len() < self.ch {
            return Err(DsdError::InputError);
        }
        proof {
            self.src.lemma_bytes_len();
        }
        let ghost srcb = self.src.bytes();
        let ghost ch0 = self.ch as int;
        let ghost rf0 = self.read_frames;
        let ghost a0: int = self.data_start + rf0 * ch0;
        let ghost avail0 = self.available();

        let mut written: usize = 0;
        while written < bytes_per_channel
            invariant_except_break
                self.wf(),
                self.src.bytes() == srcb,
                srcb == old(self).source(),
                srcb.len() <= usize::MAX,
                self.ch as int == ch0,
                0 < ch0,
                self.total_frames == old(self).total_frames,
                self.data_start == old(self).data_start,
                self.read_frames == rf0 + written,
                rf0 == old(self).read_frames,
                a0 == self.data_start + rf0 * ch0,
                self.available() == avail0 - written,
                avail0 == old(self).available(),
                written <= bytes_per_channel,
                out@.len() == old(out)@.len(),
                out@.len() >= ch0,
                forall|c: int|
                    0 <= c < out@.len() ==> (#[trigger] out@[c])@.len() == old(out)@[c]@.len(),
                forall|c: int|
                    0 <= c < ch0 ==> (#[trigger] out@[c])@.len() >= bytes_per_channel,
                forall|c: int, j: int|
                    0 <= c < ch0 && 0 <= j < written ==> #[trigger] out@[c]@[j] == srcb[a0 + j
                        * ch0 + c],
                forall|c: int, j: int|
                    0 <= c < ch0 && written <= j < out@[c]@.len() ==> #[trigger] out@[c]@[j]
                        == old(out)@[c]@[j],
                forall|c: int| ch0 <= c < out@.len() ==> #[trigger] out@[c]@ == old(out)@[c]@,
            ensures
                self.wf(),
                self.src.bytes() == srcb,
                self.ch as int == ch0,
                self.total_frames == old(self).total_frames,
                self.data_start == old(self).data_start,
                self.read_frames == rf0 + written,
                self.available() == avail0 - written,
                written == if bytes_per_channel as int <= avail0 {
                    bytes_per_channel as int
                } else {
                    avail0
                },
                out@.len() == old(out)@.len(),
                forall|c: int|
                    0 <= c < out@.len() ==> (#[trigger] out@[c])@.len() == old(out)@[c]@.len(),
                forall|c: int, j: int|
                    0 <= c < ch0 && 0 <= j < written ==> #[trigger] out@[c]@[j] == srcb[a0 + j
                        * ch0 + c],
                forall|c: int, j: int|
                    0 <= c < ch0 && written <= j < out@[c]@.len() ==> #[trigger] out@[c]@[j]
                        == old(out)@[c]@[j],
                forall|c: int| ch0 <= c < out@.len() ==> #[trigger] out@[c]@ == old(out)@[c]@,
            decreases bytes_per_channel - written, non_neg(srcb.len() - self.src.cursor() as int),
        {
            if self.pos_frames == self.filled_frames {
                let ghost a_cur: int = self.data_start + self.read_frames * self.ch;
                let ghost cursor0 = self.src.cursor();
                proof {
                    assert((self.filled_frames - self.pos_frames) * self.ch == 0)
                        by (nonlinear_arith)
                        requires
                            self.filled_frames == self.pos_frames,
                    ;
                    assert(0 <= cursor0 - a_cur < ch0);
                }
                let need = bytes_per_channel - written;
                let frames_to_read = if need < self.block_frames {
                    need
                } else {
                    self.block_frames
                };
                proof {
                    assert(frames_to_read * self.ch <= self.block_frames * self.ch)
                        by (nonlinear_arith)
                        requires
                            frames_to_read <= self.block_frames,
                            self.ch >= 0,
                    ;
                }
                let bytes_to_read = frames_to_read * self.ch;
                self.buf.resize(bytes_to_read, 0);
                let n = self.src.read_fill(&mut self.buf);
                if n == 0 {
                    proof {
                        assert(frames_to_read * self.ch >= 1) by (nonlinear_arith)
                            requires
                                frames_to_read >= 1,
                                self.ch >= 1,
                        ;
                        assert((cursor0 - a_cur) / ch0 == 0) by (nonlinear_arith)
                            requires
                                0 <= cursor0 - a_cur < ch0,
                                ch0 > 0,
                        ;
                        if a_cur <= srcb.len() {
                            assert((srcb.len() - a_cur) / ch0 == 0) by (nonlinear_arith)
                                requires
                                    0 <= srcb.len() - a_cur < ch0,
                                    ch0 > 0,
                            ;
                        }
                        assert(self.available() == 0);
                    }
                    break;
                }
                self.filled_frames = n / self.ch;
                self.pos_frames = 0;
                proof {
                    assert(cursor0 < srcb.len());
                    assert(cursor0 == a_cur);
                    assert(self.filled_frames == n as int / ch0);
                    assert((n as int / ch0) * ch0 <= n && n < ((n as int / ch0) + 1) * ch0 && (
                    n as int / ch0) * ch0 + n as int % ch0 == n) by (nonlinear_arith)
                        requires
                            ch0 > 0,
                            n >= 0,
                    ;
                    assert((frames_to_read as int * ch0) % ch0 == 0) by (nonlinear_arith)
                        requires
                            ch0 > 0,
                    ;
                    assert(self.wf());
                }
            }
            let available = self.filled_frames - self.pos_frames;
            let need2 = bytes_per_channel - written;
            let take = if available < need2 {
                available
            } else {
                need2
            };
            let ghost a_cur: int = self.data_start + self.read_frames * self.ch;
            proof {
                assert(a_cur == a0 + written * ch0) by (nonlinear_arith)
                    requires
                        a_cur == self.data_start + (rf0 + written) * ch0,
                        a0 == self.data_start + rf0 * ch0,
                ;
            }
            let ghost out_pass = out@;

            let mut c: usize = 0;
            while c < self.ch
                invariant
                    c <= self.ch,
                    self.wf(),
                    self.ch as int == ch0,
                    0 < ch0,
                    self.src.bytes() == srcb,
                    take <= self.filled_frames - self.pos_frames,
                    take + written <= bytes_per_channel,
                    a_cur == self.data_start + self.read_frames * self.ch,
                    a_cur == a0 + written * ch0,
                    out@.len() == out_pass.len(),
                    out@.len() >= ch0,
                    forall|cc: int|
                        0 <= cc < out@.len() ==> (#[trigger] out@[cc])@.len()
                            == out_pass[cc]@.len(),
                    forall|cc: int|
                        0 <= cc < ch0 ==> (#[trigger] out@[cc])@.len() >= bytes_per_channel,
                    forall|cc: int, j: int|
                        0 <= cc < c && written <= j < written + take ==> #[trigger] out@[cc]@[j]
                            == srcb[a0 + j * ch0 + cc],
                    forall|cc: int, j: int|
                        0 <= cc < out@.len() && 0 <= j < out@[cc]@.len() && !(cc < c && written
                            <= j < written + take) ==> #[trigger] out@[cc]@[j] == out_pass[cc]@[j],
                decreases self.ch - c,
            {
                let mut t: usize = 0;
                while t < take
                    invariant
                        t <= take,
                        c < self.ch,
                        self.wf(),
                        self.ch as int == ch0,
                        0 < ch0,
                        self.src.bytes() == srcb,
                        take <= self.filled_frames - self.pos_frames,
                        take + written <= bytes_per_channel,
                        a_cur == self.data_start + self.read_frames * self.ch,
                        a_cur == a0 + written * ch0,
                        out@.len() == out_pass.len(),
                        out@.len() >= ch0,
                        forall|cc: int|
                            0 <= cc < out@.len() ==> (#[trigger] out@[cc])@.len()
                                == out_pass[cc]@.len(),
                        forall|cc: int|
                            0 <= cc < ch0 ==> (#[trigger] out@[cc])@.len() >= bytes_per_channel,
                        forall|cc: int, j: int|
                            0 <= cc < c && written <= j < written + take ==> #[trigger] out@[cc]@[j]
                                == srcb[a0 + j * ch0 + cc],
                        forall|j: int|
                            written <= j < written + t ==> #[trigger] out@[c as int]@[j]
                                == srcb[a0 + j * ch0 + c],
                        forall|cc: int, j: int|
                            0 <= cc < out@.len() && 0 <= j < out@[cc]@.len() && !(cc < c && written
                                <= j < written + take) && !(cc == c && written <= j < written + t)
                                ==> #[trigger] out@[cc]@[j] == out_pass[cc]@[j],
                    decreases take - t,
                {
                    proof {
                        assert(self.buf@.len() == vstd::std_specs::vec::spec_vec_len(&self.buf));
                        assert((self.pos_frames + t) * ch0 + c < self.filled_frames * ch0 && (
                        self.pos_frames + t) * ch0 + c == self.pos_frames * ch0 + (t * ch0
                            + c) && (self.filled_frames - self.pos_frames) * ch0
                            == self.filled_frames * ch0 - self.pos_frames * ch0)
                            by (nonlinear_arith)
                            requires
                                0 <= t,
                                0 <= self.pos_frames,
                                t < take,
                                take <= self.filled_frames - self.pos_frames,
                                0 <= c < ch0,
                        ;
                        assert(a_cur + (t * ch0 + c) == a0 + (written + t) * ch0 + c)
                            by (nonlinear_arith)
                            requires
                                a_cur == a0 + written * ch0,
                        ;
                    }
                    let idx = (self.pos_frames + t) * self.ch + c;
                    let b = self.buf[idx];
                    out[c][written + t] = b;
                    t = t + 1;
                }
                c = c + 1;
            }

            proof {
                let take_i = take as int;
                assert((self.pos_frames + take_i) * ch0 == self.pos_frames * ch0 + take_i * ch0
                    && (self.filled_frames - self.pos_frames - take_i) * ch0 == (
                self.filled_frames - self.pos_frames) * ch0 - take_i * ch0 && (self.read_frames
                    + take_i) * ch0 == self.read_frames * ch0 + take_i * ch0 && (rf0 + written
                    + take_i) * ch0 == rf0 * ch0 + (written + take_i) * ch0) by (nonlinear_arith);
                if take_i > 0 {
                    assert(take_i * ch0 <= (self.filled_frames - self.pos_frames) * ch0
                        && ch0 <= take_i * ch0) by (nonlinear_arith)
                        requires
                            1 <= take_i <= self.filled_frames - self.pos_frames,
                            ch0 > 0,
                    ;
                    assert(a_cur + take_i * ch0 <= srcb.len());
                    assert(self.read_frames + take_i <= (self.read_frames + take_i) * ch0)
                        by (nonlinear_arith)
                        requires
                            ch0 >= 1,
                            self.read_frames + take_i >= 0,
                    ;
                    assert(self.read_frames + take_i <= u64::MAX);
                    assert((srcb.len() - (a_cur + take_i * ch0)) / ch0 == (srcb.len() - a_cur)
                        / ch0 - take_i) by (nonlinear_arith)
                        requires
                            ch0 > 0,
                    ;
                }
            }
            self.pos_frames = self.pos_frames + take;
            self.read_frames = self.read_frames + take as u64;
            written = written + take;
        }
        Ok(written)
    }

    /// Repositions the delivered position to frame `sample_index`,
    /// sample-exact: one byte per channel per frame puts frame `k` at
    /// byte offset `data_start + k * channels`. The buffer is dropped
    /// and the counter set to the index as handed in. An index whose
    /// byte offset does not fit in a 64-bit offset fails with
    /// `InputError` and changes nothing.
    pub fn seek_samples(&mut self, sample_index: u64) -> (r: Result<(), DsdError>)
        requires
            old(self).wf(),
        ensures
            final(self).wf(),
            final(self).source() == old(self).source(),
            final(self).channel_count() == old(self).channel_count(),
            final(self).total() == old(self).total(),
            final(self).audio_start() == old(self).audio_start(),
            r is Ok <==> old(self).audio_start() + sample_index * old(self).channel_count()
                <= u64::MAX,
            r is Ok ==> final(self).position() == sample_index,
            r is Err ==> *final(self) == *old(self) && r == Err::<(), DsdError>(
                DsdError::InputError,
            ),
    {
        if self.ch != 0 && sample_index > u64::MAX / (self.ch as u64) {
            proof {
                assert(sample_index * self.ch > u64::MAX) by (nonlinear_arith)
                    requires
                        self.ch > 0,
                        sample_index > u64::MAX as int / self.ch as int,
                ;
            }
            return Err(DsdError::InputError);
        }
        proof {
            if self.ch > 0 {
                assert(sample_index * self.ch <= u64::MAX) by (nonlinear_arith)
                    requires
                        self.ch > 0,
                        sample_index <= u64::MAX as int / self.ch as int,
                ;
            }
        }
        let byte_offset = sample_index * (self.ch as u64);
        if byte_offset > u64::MAX - self.data_start {
            return Err(DsdError::InputError);
        }
        let offset = self.data_start + byte_offset;
        self.src.seek_to(offset);
        self.read_frames = sample_index;
        self.pos_frames = 0;
        self.filled_frames = 0;
        proof {
            assert((self.filled_frames - self.pos_frames) * self.ch == 0) by (nonlinear_arith)
                requires
                    self.filled_frames == self.pos_frames,
            ;
        }
        Ok(())
    }

    /// `seek_samples` at the frame `floor(total * num / den)`, where
    /// `num / den` is the wanted position as a fraction of the total. A
    /// fraction above one, or one with a zero denominator, fails with
    /// `InputError` and changes nothing; a fraction of zero targets
    /// frame zero.
    pub fn seek_percent(&mut self, num: u64, den: u64) -> (r: Result<(), DsdError>)
        requires
            old(self).wf(),
        ensures
            final(self).wf(),
            final(self).source() == old(self).source(),
            final(self).channel_count() == old(self).channel_count(),
            final(self).total() == old(self).total(),
            final(self).audio_start() == old(self).audio_start(),
            den == 0 || num > den ==> r == Err::<(), DsdError>(DsdError::InputError)
                && *final(self) == *old(self),
            den > 0 && num <= den ==> {
                let target = old(self).total() * num / (den as int);
                &&& (r is Ok <==> old(self).audio_start() + target * old(self).channel_count()
                    <= u64::MAX)
                &&& (r is Ok ==> final(self).position() == target)
                &&& (r is Err ==> *final(self) == *old(self) && r == Err::<(), DsdError>(
                    DsdError::InputError,
                ))
            },
    {
        if den == 0 || num > den {
            return Err(DsdError::InputError);
        }
        proof {
            assert(self.total_frames * num <= u128::MAX) by (nonlinear_arith)
                requires
                    self.total_frames <= u64::MAX,
                    num <= u64::MAX,
            ;
            assert(self.total_frames * num / (den as int) <= self.total_frames) by (nonlinear_arith)
                requires
                    num <= den,
                    0 < den,
                    0 <= self.total_frames,
            ;
        }
        let target = ((self.total_frames as u128) * (num as u128) / (den as u128)) as u64;
        self.seek_samples(target)
    }

    /// The delivered position, in frames.
    pub fn get_position_frames(&self) -> (r: u64)
        ensures
            r == self.position(),
    {
        self.read_frames
    }

    /// The delivered position as a fraction of the total, a numerator
    /// and denominator pair: the position clamped to the total, over
    /// the total. A reader whose total is zero reports zero as `(0, 1)`.
    pub fn get_position_percent(&self) -> (r: (u64, u64))
        ensures
            self.total() == 0 ==> r == (0u64, 1u64),
            self.total() != 0 ==> r.1 == self.total() && r.0 == if self.position() <= self.total() {
                self.position()
            } else {
                self.total()
            },
    {
        if self.total_frames == 0 {
            (0, 1)
        } else if self.read_frames <= self.total_frames {
            (self.read_frames, self.total_frames)
        } else {
            (self.total_frames, self.total_frames)
        }
    }
}

/// The source index of the byte that `read` will hand channel `c` as
/// its `j`-th byte, given where the reader stands.
pub open spec fn delivered_index(r: DFFReader, j: int, c: int) -> int {
    r.audio_start() + r.position() * r.channel_count() + j * r.channel_count() + c
}

/// Nothing is dropped and nothing repeated: when the container ends
/// exactly where the audio chunk ends, the frames a reader still has to
/// deliver are exactly those between its position and the total, so
/// successive reads until the short count hand out every payload byte
/// once, in order.
pub proof fn lemma_dff_reads_deliver_all(r: DFFReader, audio_size: u64)
    requires
        r.wf(),
        r.channel_count() > 0,
        r.source().len() == r.audio_start() + audio_size,
        r.total() == audio_size as int / r.channel_count(),
        r.position() <= r.total(),
    ensures
        r.available() == r.total() - r.position(),
{
    let ch = r.channel_count();
    let p = r.position() as int;
    assert(p * ch <= (audio_size as int / ch) * ch <= audio_size && (audio_size - p * ch) / ch
        == audio_size as int / ch - p) by (nonlinear_arith)
        requires
            ch > 0,
            0 <= p <= audio_size as int / ch,
            audio_size >= 0,
    ;
}

/// Seeking is sample-exact: after `seek_samples(k)` the next byte
/// `read` hands channel `c` is the payload byte of frame `k` — the very
/// byte a reader that starts at the beginning delivers `k` bytes in.
pub proof fn lemma_dff_seek_exact(after: DFFReader, from_start: DFFReader, k: u64, j: int, c: int)
    requires
        after.source() == from_start.source(),
        after.audio_start() == from_start.audio_start(),
        after.channel_count() == from_start.channel_count(),
        after.position() == k,
        from_start.position() == 0,
    ensures
        delivered_index(after, j, c) == delivered_index(from_start, k + j, c),
        delivered_index(after, j, c) == after.audio_start() + (k + j) * after.channel_count() + c,
{
    let ch = after.channel_count();
    assert(k * ch + j * ch == (k + j) * ch && 0 * ch == 0) by (nonlinear_arith);
}

/// A fraction of zero seeks to frame zero whatever the total: the
/// target frame `floor(total * 0 / den)` is zero.
pub proof fn lemma_seek_zero_fraction(total: u64, den: u64)
    requires
        den > 0,
    ensures
        total * 0 / (den as int) == 0,
{
}

} // verus!
