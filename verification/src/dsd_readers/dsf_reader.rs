//! Parser and reader for the flat little-endian DSF container.
//!
//! The layout is three chunks in fixed order: `DSD ` (header sizes),
//! `fmt ` (the stream parameters), and `data` (the audio payload). All
//! integers are little-endian. The payload is block-planar: each
//! physical block is `channels` contiguous runs of `block_size` bytes,
//! one run per channel, not byte-interleaved.
//!
//! `dsf_parse` is the mathematical model of the chunk layout;
//! `DSFReader` is the executable reader, proved against it.

use vstd::prelude::*;

use crate::byte_stream::{be32, le32, le64, non_neg, ByteStream};
use crate::dsd_readers::{DSDFormat, DsdError};
use crate::dsd_readers::{DATA_TAG, DSD_TAG, FMT_TAG};

verus! {

broadcast use vstd::std_specs::vec::axiom_spec_len;

/// The stream parameters a well-formed DSF container declares.
pub struct DsfMeta {
    pub sampling_rate: u32,
    pub num_channels: u32,
    pub total_samples: u64,
    pub is_lsb_first: bool,
    pub block_size: u32,
    pub data_start: int,
}

/// The mathematical model of `DSFReader::open`: `Some` exactly on the
/// containers it accepts, carrying the parameters it reports. The
/// checks mirror the reader: every header field must lie inside the
/// data, the format version must be 1, the format id 0 (raw DSD, not
/// DST), and the declared channel count and block size must be usable.
/// `fmt ` sits where the `DSD ` chunk's declared size points;
/// `data` sits where `fmt `'s declared size points; the payload starts
/// right after the `data` header, and the `fmt ` sample count — not the
/// `data` size — is the authoritative frame count.
#[verifier::opaque]
pub open spec fn dsf_parse(d: Seq<u8>) -> Option<DsfMeta> {
    if d.len() < 4 || be32(d, 0) != DSD_TAG {
        None
    } else if d.len() < 12 {
        None
    } else {
        let p1 = le64(d, 4);
        if p1 + 4 > d.len() || be32(d, p1) != FMT_TAG {
            None
        } else if p1 + 12 > d.len() {
            None
        } else if p1 + 16 > d.len() || le32(d, p1 + 12) != 1 {
            None
        } else if p1 + 20 > d.len() || le32(d, p1 + 16) != 0 {
            None
        } else if p1 + 48 > d.len() {
            None
        } else {
            let fmt_size = le64(d, p1 + 4);
            let channels = le32(d, p1 + 24);
            let rate = le32(d, p1 + 28);
            let bits = le32(d, p1 + 32);
            let count = le64(d, p1 + 36);
            let block = le32(d, p1 + 44);
            let p2 = p1 + fmt_size;
            if p2 > u64::MAX {
                None
            } else if p2 + 4 > d.len() || be32(d, p2) != DATA_TAG {
                None
            } else if p2 + 12 > d.len() {
                None
            } else if channels == 0 || block == 0 || block * channels > usize::MAX {
                None
            } else {
                Some(
                    DsfMeta {
                        sampling_rate: rate as u32,
                        num_channels: channels as u32,
                        total_samples: count as u64,
                        is_lsb_first: bits == 1,
                        block_size: block as u32,
                        data_start: p2 + 12,
                    },
                )
            }
        }
    }
}

/// The byte that channel `c` receives as its per-channel byte `t` of a
/// block-planar payload starting at `start`: block `t / block_size`,
/// channel run `c`, offset `t % block_size`. A byte past the end of
/// the data reads as zero — the reader zero-fills a partial trailing
/// block.
pub open spec fn dsf_channel_byte(d: Seq<u8>, start: int, bs: int, ch: int, c: int, t: int) -> u8 {
    let idx = start + (t / bs) * (bs * ch) + c * bs + (t % bs);
    if 0 <= idx < d.len() {
        d[idx]
    } else {
        0
    }
}

/// The byte offset that `seek_samples(k)` floors to: frame `k`'s byte
/// offset across all channels, rounded down to a whole physical block
/// of `bb = block_size * channels` bytes.
pub open spec fn dsf_aligned_bytes(k: int, ch: int, bb: int) -> int {
    ((k * ch / 8) / bb) * bb
}

/// Reader for the audio payload of a DSF container.
///
/// `buf` holds one physical block; `pos` and `filled` are the consume
/// and fill cursors in per-channel byte units; `read_samples` is the
/// delivered-position counter at bit granularity; `data_start` is the
/// fixed payload offset. `block_base` remembers, for the proofs alone,
/// the stream offset the buffered block was read from.
pub struct DSFReader {
    src: ByteStream,
    buf: Vec<u8>,
    ch: usize,
    blocksize: usize,
    filled: usize,
    pos: usize,
    total_samples: u64,
    read_samples: u64,
    data_start: u64,
    block_base: Ghost<u64>,
}

impl DSFReader {
    /// The underlying container bytes.
    pub closed spec fn source(self) -> Seq<u8> {
        self.src.bytes()
    }

    /// The channel count, zero until `open` succeeds.
    pub closed spec fn channel_count(self) -> int {
        self.ch as int
    }

    /// The per-channel block size, in bytes.
    pub closed spec fn block_size(self) -> int {
        self.blocksize as int
    }

    /// The total per-channel frame count reported by `open`.
    pub closed spec fn total(self) -> u64 {
        self.total_samples
    }

    /// The delivered-position counter, at bit granularity.
    pub closed spec fn position_bits(self) -> u64 {
        self.read_samples
    }

    /// The fixed offset of the audio payload, set once by `open`.
    pub closed spec fn audio_start(self) -> u64 {
        self.data_start
    }

    /// The stream offset of the physical block the buffer was read
    /// from.
    pub closed spec fn block_start(self) -> u64 {
        self.block_base@
    }

    /// The per-channel byte index, counted from the start of the
    /// payload, of the next byte `read` will deliver.
    pub closed spec fn next_byte_index(self) -> int {
        ((self.block_base@ - self.data_start) / (self.blocksize * self.ch) as int)
            * self.blocksize + self.pos
    }

    /// The buffer holds no bytes still to deliver and the stream
    /// cursor stands at the start of the next physical block.
    pub closed spec fn at_block_start(self) -> bool {
        self.pos == 0 && self.filled == 0 && self.src.cursor() == self.block_base@
    }

    /// How many per-channel bytes remain between the delivered
    /// position and the end of the data: what is still buffered, plus
    /// the whole blocks left in the stream, plus the partial trailing
    /// block.
    pub closed spec fn available(self) -> int {
        if self.ch > 0 {
            let bb = (self.blocksize * self.ch) as int;
            let rem = if self.src.cursor() <= self.source().len() {
                self.source().len() - self.src.cursor()
            } else {
                0
            };
            (self.filled - self.pos) + (rem / bb) * self.blocksize + (rem % bb) / (self.ch as int)
        } else {
            0
        }
    }

    /// Internal consistency: the buffer is one physical block read
    /// whole from a block-aligned offset (or cut short by the end of
    /// the data and zero-filled), the cursors are ordered, and the
    /// stream cursor sits right after the buffered bytes.
    pub closed spec fn wf(self) -> bool {
        &&& self.ch <= u32::MAX
        &&& self.blocksize <= u32::MAX
        &&& (self.ch > 0 ==> {
            let bb = self.blocksize * self.ch;
            let base = self.block_base@ as int;
            let n = self.src.cursor() - base;
            &&& self.blocksize > 0
            &&& bb <= usize::MAX
            &&& self.buf@.len() == bb
            &&& self.data_start <= base
            &&& (base - self.data_start) % (bb as int) == 0
            &&& 0 <= n <= bb
            &&& self.filled == n / (self.ch as int)
            &&& self.filled <= self.blocksize
            &&& self.pos <= self.filled
            &&& (n == 0 || n == bb || self.src.cursor() == self.source().len())
            &&& (n > 0 ==> self.src.cursor() <= self.source().len())
            &&& (self.pos < self.filled ==> (forall|i: int|
                0 <= i < n ==> #[trigger] self.buf@[i] == self.source()[base + i]) && (forall|
                i: int,
            |
                n <= i < bb ==> #[trigger] self.buf@[i] == 0))
        })
    }

    /// The freshly-constructed state `open` starts from.
    pub closed spec fn fresh(self) -> bool {
        &&& self.src.cursor() == 0
        &&& self.buf@.len() == 0
        &&& self.ch == 0
        &&& self.blocksize == 0
        &&& self.filled == 0
        &&& self.pos == 0
        &&& self.total_samples == 0
        &&& self.read_samples == 0
        &&& self.data_start == 0
    }

    /// A reader over the given container bytes, not yet opened.
    pub(crate) fn new(data: Vec<u8>) -> (r: Self)
        ensures
            r.fresh(),
            r.wf(),
            r.source() == data@,
            r.channel_count() == 0,
            r.total() == 0,
            r.position_bits() == 0,
    {
        DSFReader {
            src: ByteStream::new(data),
            buf: Vec::new(),
            ch: 0,
            blocksize: 0,
            filled: 0,
            pos: 0,
            total_samples: 0,
            read_samples: 0,
            data_start: 0,
            block_base: Ghost(0),
        }
    }

    /// A reader over no data at all; `open` on it always fails.
    pub fn empty() -> (r: Self)
        ensures
            r.fresh(),
            r.wf(),
            r.source() == Seq::<u8>::empty(),
            r.channel_count() == 0,
            r.total() == 0,
            r.position_bits() == 0,
    {
        Self::new(Vec::new())
    }

    /// Walks the three fixed chunks and populates `format`, exactly
    /// when the container is well-formed: `dsf_parse` says which
    /// containers are accepted and which parameters they yield. On
    /// failure `format` is untouched and the reader is unusable. A
    /// container that declares no channels, a zero block size, or a
    /// block too large to buffer is rejected rather than opened.
    #[verifier::rlimit(100)]
    #[verifier::spinoff_prover]
    pub fn open(&mut self, format: &mut DSDFormat) -> (r: Result<(), DsdError>)
        requires
            old(self).fresh(),
        ensures
            final(self).source() == old(self).source(),
            r is Ok <==> dsf_parse(old(self).source()) is Some,
            r matches Err(e) ==> e == DsdError::FormatError && *final(format) == *old(format),
            r is Ok ==> (dsf_parse(old(self).source()) matches Some(m) && {
                &&& final(self).wf()
                &&& final(self).audio_start() <= final(self).source().len()
                &&& final(self).channel_count() == m.num_channels
                &&& final(self).block_size() == m.block_size
                &&& final(self).total() == m.total_samples
                &&& final(self).audio_start() == m.data_start
                &&& final(self).position_bits() == 0
                &&& final(self).position_bits() as int / final(self).channel_count() == 0
                &&& final(self).channel_count() > 0
                &&& final(self).at_block_start()
                &&& final(self).block_start() == m.data_start
                &&& final(self).next_byte_index() == 0
                &&& *final(format) == (DSDFormat {
                    sampling_rate: m.sampling_rate,
                    num_channels: m.num_channels,
                    total_samples: m.total_samples,
                    is_lsb_first: m.is_lsb_first,
                })
            }),
    {
        proof {
            reveal(dsf_parse);
            self.src.lemma_bytes_len();
        }
        let ident = match self.src.read_tag() {
            Some(v) => v,
            None => return Err(DsdError::FormatError),
        };
        if ident != DSD_TAG {
            return Err(DsdError::FormatError);
        }
        let dsd_size = match self.src.read_u64_le() {
            Some(v) => v,
            None => return Err(DsdError::FormatError),
        };
        self.src.seek_to(dsd_size);

        let ident2 = match self.src.read_tag() {
            Some(v) => v,
            None => return Err(DsdError::FormatError),
        };
        if ident2 != FMT_TAG {
            return Err(DsdError::FormatError);
        }
        let fmt_size = match self.src.read_u64_le() {
            Some(v) => v,
            None => return Err(DsdError::FormatError),
        };
        let format_version = match self.src.read_u32_le() {
            Some(v) => v,
            None => return Err(DsdError::FormatError),
        };
        if format_version != 1 {
            return Err(DsdError::FormatError);
        }
        let format_id = match self.src.read_u32_le() {
            Some(v) => v,
            None => return Err(DsdError::FormatError),
        };
        if format_id != 0 {
            return Err(DsdError::FormatError);
        }
        let _channel_type = match self.src.read_u32_le() {
            Some(v) => v,
            None => return Err(DsdError::FormatError),
        };
        let channels = match self.src.read_u32_le() {
            Some(v) => v,
            None => return Err(DsdError::FormatError),
        };
        let sampling_freq = match self.src.read_u32_le() {
            Some(v) => v,
            None => return Err(DsdError::FormatError),
        };
        let bits_per_sample = match self.src.read_u32_le() {
            Some(v) => v,
            None => return Err(DsdError::FormatError),
        };
        let sample_count = match self.src.read_u64_le() {
            Some(v) => v,
            None => return Err(DsdError::FormatError),
        };
        let block_size = match self.src.read_u32_le() {
            Some(v) => v,
            None => return Err(DsdError::FormatError),
        };
        if fmt_size > u64::MAX - dsd_size {
            return Err(DsdError::FormatError);
        }
        self.src.seek_to(dsd_size + fmt_size);

        let ident3 = match self.src.read_tag() {
            Some(v) => v,
            None => return Err(DsdError::FormatError),
        };
        if ident3 != DATA_TAG {
            return Err(DsdError::FormatError);
        }
        let _data_size = match self.src.read_u64_le() {
            Some(v) => v,
            None => return Err(DsdError::FormatError),
        };

        if channels == 0 || block_size == 0 {
            return Err(DsdError::FormatError);
        }
        proof {
            assert(block_size * channels <= u64::MAX) by (nonlinear_arith)
                requires
                    block_size <= u32::MAX,
                    channels <= u32::MAX,
            ;
        }
        if block_size as u64 * channels as u64 > usize::MAX as u64 {
            return Err(DsdError::FormatError);
        }

        self.ch = channels as usize;
        self.blocksize = block_size as usize;
        self.total_samples = sample_count;
        self.data_start = self.src.tell();
        proof {
            assert(self.blocksize * self.ch == block_size as int * channels as int
                && self.blocksize * self.ch >= 1) by (nonlinear_arith)
                requires
                    self.blocksize == block_size,
                    self.ch == channels,
                    block_size >= 1,
                    channels >= 1,
            ;
        }
        let cap = self.blocksize * self.ch;
        self.buf.resize(cap, 0);
        self.block_base = Ghost(self.data_start);
        proof {
            let bbi = (self.blocksize * self.ch) as int;
            assert(0int % bbi == 0 && 0int / (self.ch as int) == 0 && (0int / bbi)
                * self.blocksize == 0) by (nonlinear_arith)
                requires
                    bbi >= 1,
                    self.ch >= 1,
            ;
            assert(self.read_samples as int / (self.ch as int) == 0) by (nonlinear_arith)
                requires
                    self.read_samples == 0,
                    self.ch >= 1,
            ;
        }
        format.sampling_rate = sampling_freq;
        format.num_channels = channels;
        format.total_samples = sample_count;
        format.is_lsb_first = bits_per_sample == 1;
        Ok(())
    }

    /// Pulls `bytes_per_channel` payload bytes per channel into the
    /// caller's buffers, or as many as remain before the data ends: the
    /// result is the per-channel count delivered, and a short count
    /// signals end of data, never a fault. Byte `j` handed to channel
    /// `c` is that channel's payload byte `next_byte_index + j` in
    /// block-planar order: reads deliver each channel's bytes in order,
    /// nothing skipped, nothing repeated, zero where a truncated final
    /// block leaves a channel's run short. With fewer buffers than
    /// channels the call fails with `InputError` before touching the
    /// stream; each buffer handed in must hold at least
    /// `bytes_per_channel` bytes. On a reader that was never opened the
    /// result is zero. The position counter, kept at bit granularity
    /// across all channels, advances by eight bits times the channel
    /// count per byte delivered — eight one-bit frames per byte —
    /// saturating at the top of its range.
    #[verifier::rlimit(100)]
    pub fn read(&mut self, out: &mut Vec<Vec<u8>>, bytes_per_channel: usize) -> (r: Result<
        usize,
        DsdError,
    >)
        requires
            old(self).wf(),
            old(out)@.len() >= old(self).channel_count() ==> forall|c: int|
                0 <= c < old(self).channel_count() ==> (#[trigger] old(out)@[c])@.len()
                    >= bytes_per_channel,
        ensures
            final(self).wf(),
            final(self).source() == old(self).source(),
            final(self).channel_count() == old(self).channel_count(),
            final(self).block_size() == old(self).block_size(),
            final(self).total() == old(self).total(),
            final(self).audio_start() == old(self).audio_start(),
            old(self).channel_count() == 0 ==> r == Ok::<usize, DsdError>(0) && *final(self)
                == *old(self) && *final(out) == *old(out),
            old(self).channel_count() > 0 && old(out)@.len() < old(self).channel_count() ==> r
                == Err::<usize, DsdError>(DsdError::InputError) && *final(self) == *old(self)
                && *final(out) == *old(out),
            old(self).channel_count() > 0 && old(out)@.len() >= old(self).channel_count() ==> (
            r matches Ok(w) && {
                let ch = old(self).channel_count();
                let bs = old(self).block_size();
                let ds = old(self).audio_start() as int;
                let t0 = old(self).next_byte_index();
                &&& w == if bytes_per_channel as int <= old(self).available() {
                    bytes_per_channel as int
                } else {
                    old(self).available()
                }
                &&& final(self).next_byte_index() == t0 + w
                &&& final(self).available() == old(self).available() - w
                &&& final(self).position_bits() == if old(self).position_bits() + 8 * w * ch
                    <= u64::MAX {
                    old(self).position_bits() + 8 * w * ch
                } else {
                    u64::MAX as int
                }
                &&& (old(self).position_bits() + 8 * w * ch <= u64::MAX
                    ==> final(self).position_bits() as int / ch == old(self).position_bits() as int
                    / ch + 8 * w)
                &&& final(out)@.len() == old(out)@.len()
                &&& forall|c: int|
                    0 <= c < old(out)@.len() ==> (#[trigger] final(out)@[c])@.len()
                        == old(out)@[c]@.len()
                &&& forall|c: int, j: int|
                    0 <= c < ch && 0 <= j < w ==> #[trigger] final(out)@[c]@[j]
                        == dsf_channel_byte(old(self).source(), ds, bs, ch, c, t0 + j)
                &&& forall|c: int, j: int|
                    0 <= c < ch && w <= j < old(out)@[c]@.len() ==> #[trigger] final(out)@[c]@[j]
                        == old(out)@[c]@[j]
                &&& forall|c: int|
                    ch <= c < old(out)@.len() ==> #[trigger] final(out)@[c]@ == old(out)@[c]@
            }),
    {
        if self.ch == 0 {
            return Ok(0);
        }
        if out.len() < self.ch {
            return Err(DsdError::InputError);
        }
        proof {
            self.src.lemma_bytes_len();
        }
        let ghost srcb = self.src.bytes();
        let ghost ch0 = self.ch as int;
        let ghost bs0 = self.blocksize as int;
        let ghost bb0 = bs0 * ch0;
        let ghost ds0 = self.data_start as int;
        let ghost t0 = self.next_byte_index();
        let ghost avail0 = self.available();
        let ghost rs0 = self.read_samples;
        proof {
            assert(bb0 == (self.blocksize * self.ch) as int);
            let rem = if self.src.cursor() <= srcb.len() {
                srcb.len() - self.src.cursor()
            } else {
                0
            };
            assert(bb0 >= 1 && (rem / bb0) * bs0 >= 0 && (rem % bb0) / ch0 >= 0)
                by (nonlinear_arith)
                requires
                    bb0 == bs0 * ch0,
                    bs0 >= 1,
                    ch0 >= 1,
                    rem >= 0,
            ;
        }

        let mut written: usize = 0;
        while written < bytes_per_channel
            invariant_except_break
                self.wf(),
                self.src.bytes() == srcb,
                srcb == old(self).source(),
                srcb.len() <= usize::MAX,
                self.ch as int == ch0,
                self.blocksize as int == bs0,
                bb0 == bs0 * ch0,
                0 < ch0,
                0 < bs0,
                self.total_samples == old(self).total_samples,
                self.data_start == old(self).data_start,
                ds0 == self.data_start as int,
                self.read_samples == rs0,
                self.next_byte_index() == t0 + written,
                self.available() == avail0 - written,
                0 <= avail0 - written,
                avail0 == old(self).available(),
                t0 == old(self).next_byte_index(),
                written <= bytes_per_channel,
                out@.len() == old(out)@.len(),
                out@.len() >= ch0,
                forall|c: int|
                    0 <= c < out@.len() ==> (#[trigger] out@[c])@.len() == old(out)@[c]@.len(),
                forall|c: int|
                    0 <= c < ch0 ==> (#[trigger] out@[c])@.len() >= bytes_per_channel,
                forall|c: int, j: int|
                    0 <= c < ch0 && 0 <= j < written ==> #[trigger] out@[c]@[j]
                        == dsf_channel_byte(srcb, ds0, bs0, ch0, c, t0 + j),
                forall|c: int, j: int|
                    0 <= c < ch0 && written <= j < out@[c]@.len() ==> #[trigger] out@[c]@[j]
                        == old(out)@[c]@[j],
                forall|c: int| ch0 <= c < out@.len() ==> #[trigger] out@[c]@ == old(out)@[c]@,
            ensures
                self.wf(),
                self.src.bytes() == srcb,
                self.ch as int == ch0,
                self.blocksize as int == bs0,
                self.total_samples == old(self).total_samples,
                self.data_start == old(self).data_start,
                self.read_samples == rs0,
                self.next_byte_index() == t0 + written,
                self.available() == avail0 - written,
                written == if bytes_per_channel as int <= avail0 {
                    bytes_per_channel as int
                } else {
                    avail0
                },
                out@.len() == old(out)@.len(),
                forall|c: int|
                    0 <= c < out@.len() ==> (#[trigger] out@[c])@.len() == old(out)@[c]@.len(),
                forall|c: int, j: int|
                    0 <= c < ch0 && 0 <= j < written ==> #[trigger] out@[c]@[j]
                        == dsf_channel_byte(srcb, ds0, bs0, ch0, c, t0 + j),
                forall|c: int, j: int|
                    0 <= c < ch0 && written <= j < out@[c]@.len() ==> #[trigger] out@[c]@[j]
                        == old(out)@[c]@[j],
                forall|c: int| ch0 <= c < out@.len() ==> #[trigger] out@[c]@ == old(out)@[c]@,
            decreases bytes_per_channel - written, non_neg(
                srcb.len() - self.src.cursor() as int,
            ),
        {
            if self.pos == self.filled {
                let ghost base_old = self.block_base@ as int;
                let ghost n_old = self.src.cursor() - base_old;
                let cursor_before = self.src.tell();
                let n = self.src.read_fill_padded(&mut self.buf);
                if n == 0 {
                    proof {
                        assert(bb0 >= 1 && (0int / bb0) * bs0 == 0 && (0int % bb0) / ch0 == 0)
                            by (nonlinear_arith)
                            requires
                                bb0 == bs0 * ch0,
                                bs0 >= 1,
                                ch0 >= 1,
                        ;
                        assert(self.available() == avail0 - written);
                    }
                    break;
                }
                self.block_base = Ghost(cursor_before);
                self.filled = n / self.ch;
                self.pos = 0;
                proof {
                    let m_old = (base_old - ds0) / bb0;
                    assert(n_old == 0 || n_old == bb0);
                    assert(base_old - ds0 == m_old * bb0 && m_old >= 0) by (nonlinear_arith)
                        requires
                            (base_old - ds0) % bb0 == 0,
                            base_old - ds0 >= 0,
                            bb0 >= 1,
                            m_old == (base_old - ds0) / bb0,
                    ;
                    assert((base_old + n_old - ds0) % bb0 == 0 && (base_old + bb0 - ds0) / bb0
                        == m_old + 1 && bb0 / ch0 == bs0 && bb0 % ch0 == 0 && 0int / ch0 == 0)
                        by (nonlinear_arith)
                        requires
                            base_old - ds0 == m_old * bb0,
                            n_old == 0 || n_old == bb0,
                            bb0 == bs0 * ch0,
                            bs0 >= 1,
                            ch0 >= 1,
                            m_old >= 0,
                    ;
                    assert(self.filled == n as int / ch0);
                    assert(n as int / ch0 <= bs0 && (n as int / ch0) * ch0 <= n)
                        by (nonlinear_arith)
                        requires
                            0 <= n,
                            n <= bb0,
                            bb0 == bs0 * ch0,
                            ch0 >= 1,
                            bs0 >= 1,
                    ;
                    // the old block was consumed whole, so the index is unchanged
                    assert((base_old + n_old - ds0) / bb0 * bs0 == m_old * bs0 + n_old / ch0)
                        by (nonlinear_arith)
                        requires
                            base_old - ds0 == m_old * bb0,
                            n_old == 0 || n_old == bb0,
                            bb0 == bs0 * ch0,
                            bs0 >= 1,
                            ch0 >= 1,
                            m_old >= 0,
                    ;
                    // what remains does not change with the refill
                    let rem0 = srcb.len() - cursor_before;
                    if n < bb0 {
                        assert(rem0 == n);
                        assert((n as int / bb0) * bs0 == 0 && (n as int % bb0) / ch0 == n as int
                            / ch0) by (nonlinear_arith)
                            requires
                                0 <= n,
                                n < bb0,
                                bb0 >= 1,
                                ch0 >= 1,
                                bs0 >= 1,
                        ;
                        assert((0int / bb0) * bs0 == 0 && (0int % bb0) / ch0 == 0)
                            by (nonlinear_arith)
                            requires
                                bb0 >= 1,
                                ch0 >= 1,
                                bs0 >= 1,
                        ;
                    } else {
                        assert((rem0 - bb0) / bb0 == rem0 / bb0 - 1 && (rem0 - bb0) % bb0
                            == rem0 % bb0) by (nonlinear_arith)
                            requires
                                rem0 >= bb0,
                                bb0 >= 1,
                        ;
                        assert((rem0 / bb0 - 1) * bs0 == (rem0 / bb0) * bs0 - bs0)
                            by (nonlinear_arith);
                        assert(bb0 / ch0 == bs0) by (nonlinear_arith)
                            requires
                                bb0 == bs0 * ch0,
                                ch0 >= 1,
                                bs0 >= 0,
                        ;
                    }
                    assert(self.available() == avail0 - written);
                }
            }
            let available = self.filled - self.pos;
            let need = bytes_per_channel - written;
            let take = if available < need {
                available
            } else {
                need
            };
            let ghost base_c = self.block_base@ as int;
            let ghost m_c = (base_c - ds0) / bb0;
            let ghost n_c = self.src.cursor() - base_c;
            proof {
                assert(base_c - ds0 == m_c * bb0 && m_c >= 0) by (nonlinear_arith)
                    requires
                        (base_c - ds0) % bb0 == 0,
                        base_c - ds0 >= 0,
                        bb0 >= 1,
                        m_c == (base_c - ds0) / bb0,
                ;
            }
            let ghost out_pass = out@;

            let mut c: usize = 0;
            while c < self.ch
                invariant
                    c <= self.ch,
                    self.wf(),
                    self.ch as int == ch0,
                    self.blocksize as int == bs0,
                    bb0 == bs0 * ch0,
                    0 < ch0,
                    0 < bs0,
                    self.src.bytes() == srcb,
                    ds0 == self.data_start as int,
                    take <= self.filled - self.pos,
                    take + written <= bytes_per_channel,
                    base_c == self.block_base@ as int,
                    base_c - ds0 == m_c * bb0,
                    m_c >= 0,
                    n_c == self.src.cursor() - base_c,
                    t0 + written == m_c * bs0 + self.pos,
                    out@.len() == out_pass.len(),
                    out@.len() >= ch0,
                    forall|cc: int|
                        0 <= cc < out@.len() ==> (#[trigger] out@[cc])@.len()
                            == out_pass[cc]@.len(),
                    forall|cc: int|
                        0 <= cc < ch0 ==> (#[trigger] out@[cc])@.len() >= bytes_per_channel,
                    forall|cc: int, j: int|
                        0 <= cc < c && written <= j < written + take ==> #[trigger] out@[cc]@[j]
                            == dsf_channel_byte(srcb, ds0, bs0, ch0, cc, t0 + j),
                    forall|cc: int, j: int|
                        0 <= cc < out@.len() && 0 <= j < out@[cc]@.len() && !(cc < c && written
                            <= j < written + take) ==> #[trigger] out@[cc]@[j] == out_pass[cc]@[j],
                decreases self.ch - c,
            {
                let mut t: usize = 0;
                while t < take
                    invariant
                        t <= take,
                        c < self.ch,
                        self.wf(),
                        self.ch as int == ch0,
                        self.blocksize as int == bs0,
                        bb0 == bs0 * ch0,
                        0 < ch0,
                        0 < bs0,
                        self.src.bytes() == srcb,
                        ds0 == self.data_start as int,
                        take <= self.filled - self.pos,
                        take + written <= bytes_per_channel,
                        base_c == self.block_base@ as int,
                        base_c - ds0 == m_c * bb0,
                        m_c >= 0,
                        n_c == self.src.cursor() - base_c,
                        t0 + written == m_c * bs0 + self.pos,
                        out@.len() == out_pass.len(),
                        out@.len() >= ch0,
                        forall|cc: int|
                            0 <= cc < out@.len() ==> (#[trigger] out@[cc])@.len()
                                == out_pass[cc]@.len(),
                        forall|cc: int|
                            0 <= cc < ch0 ==> (#[trigger] out@[cc])@.len() >= bytes_per_channel,
                        forall|cc: int, j: int|
                            0 <= cc < c && written <= j < written + take ==> #[trigger] out@[cc]@[j]
                                == dsf_channel_byte(srcb, ds0, bs0, ch0, cc, t0 + j),
                        forall|j: int|
                            written <= j < written + t ==> #[trigger] out@[c as int]@[j]
                                == dsf_channel_byte(srcb, ds0, bs0, ch0, c as int, t0 + j),
                        forall|cc: int, j: int|
                            0 <= cc < out@.len() && 0 <= j < out@[cc]@.len() && !(cc < c && written
                                <= j < written + take) && !(cc == c && written <= j < written + t)
                                ==> #[trigger] out@[cc]@[j] == out_pass[cc]@[j],
                    decreases take - t,
                {
                    proof {
                        assert(self.buf@.len() == vstd::std_specs::vec::spec_vec_len(&self.buf));
                        assert(c * bs0 + (self.pos + t) < (c + 1) * bs0 && (c + 1) * bs0 <= ch0
                            * bs0 && ch0 * bs0 == bb0 && self.filled * ch0 >= 0)
                            by (nonlinear_arith)
                            requires
                                0 <= t,
                                t < take,
                                take <= self.filled - self.pos,
                                self.filled <= bs0,
                                0 <= self.pos,
                                0 <= c < ch0,
                                bb0 == bs0 * ch0,
                                bs0 >= 1,
                                ch0 >= 1,
                        ;
                        let tt = t0 + written + t;
                        assert(tt == m_c * bs0 + (self.pos + t));
                        assert(tt / bs0 == m_c && tt % bs0 == self.pos + t) by (nonlinear_arith)
                            requires
                                tt == m_c * bs0 + (self.pos + t),
                                0 <= self.pos + t,
                                self.pos + t < bs0,
                                m_c >= 0,
                                bs0 >= 1,
                        ;
                        assert(self.filled >= 1 ==> n_c >= self.filled * ch0 >= ch0)
                            by (nonlinear_arith)
                            requires
                                self.filled == n_c / ch0,
                                n_c >= 0,
                                ch0 >= 1,
                        ;
                    }
                    let bidx = c * self.blocksize + (self.pos + t);
                    let b = self.buf[bidx];
                    proof {
                        let tt = t0 + written + t;
                        let idx = ds0 + (tt / bs0) * (bs0 * ch0) + c * bs0 + (tt % bs0);
                        assert(idx == base_c + bidx);
                        if bidx < n_c {
                            assert(idx < srcb.len());
                        } else {
                            assert(n_c == bb0 ==> bidx < n_c);
                            assert(self.src.cursor() == srcb.len());
                            assert(idx >= srcb.len());
                        }
                        assert(b == dsf_channel_byte(srcb, ds0, bs0, ch0, c as int, tt));
                    }
                    out[c][written + t] = b;
                    t = t + 1;
                }
                c = c + 1;
            }

            proof {
                let take_i = take as int;
                if take_i > 0 {
                    assert(self.filled >= 1 ==> n_c >= self.filled * ch0 >= ch0)
                        by (nonlinear_arith)
                        requires
                            self.filled == n_c / ch0,
                            n_c >= 0,
                            ch0 >= 1,
                    ;
                }
                let rem = if self.src.cursor() <= srcb.len() {
                    srcb.len() - self.src.cursor()
                } else {
                    0
                };
                assert((rem / bb0) * bs0 >= 0 && (rem % bb0) / ch0 >= 0) by (nonlinear_arith)
                    requires
                        rem >= 0,
                        bb0 >= 1,
                        ch0 >= 1,
                        bs0 >= 1,
                ;
            }
            self.pos = self.pos + take;
            written = written + take;
        }
        proof {
            assert(rs0 + 8 * (written as int) <= u64::MAX as int + 8 * (usize::MAX as int));
        }
        proof {
            assert(written * 8 * self.ch <= u128::MAX - u64::MAX) by (nonlinear_arith)
                requires
                    written <= u64::MAX,
                    self.ch <= u32::MAX,
            ;
        }
        let bits = (written as u128) * 8 * (self.ch as u128);
        let total128 = (self.read_samples as u128) + bits;
        proof {
            let chi = self.ch as int;
            assert((self.read_samples + 8 * written * chi) / chi == self.read_samples as int / chi
                + 8 * written) by (nonlinear_arith)
                requires
                    chi >= 1,
                    self.read_samples >= 0,
                    written >= 0,
            ;
        }
        if total128 > u64::MAX as u128 {
            self.read_samples = u64::MAX;
        } else {
            self.read_samples = total128 as u64;
        }
        Ok(written)
    }

    /// Repositions near frame `sample_index`, block-aligned rather than
    /// sample-exact: the payload is block-planar, so the byte offset of
    /// the frame is floored to the enclosing physical block, and the
    /// position counter is set to that aligned offset — not to the
    /// index as handed in. Deliberate: per-sample seeking would demand
    /// buffering a partial block across all channels. An index whose
    /// bit offset or aligned byte offset does not fit in 64 bits fails
    /// with `InputError` and changes nothing. Only an opened reader may
    /// seek.
    pub fn seek_samples(&mut self, sample_index: u64) -> (r: Result<(), DsdError>)
        requires
            old(self).wf(),
            old(self).channel_count() > 0,
        ensures
            final(self).wf(),
            final(self).source() == old(self).source(),
            final(self).channel_count() == old(self).channel_count(),
            final(self).block_size() == old(self).block_size(),
            final(self).total() == old(self).total(),
            final(self).audio_start() == old(self).audio_start(),
            ({
                let ch = old(self).channel_count();
                let bb = old(self).block_size() * ch;
                let aligned = dsf_aligned_bytes(sample_index as int, ch, bb);
                &&& (r is Ok <==> sample_index * ch <= u64::MAX && old(self).audio_start()
                    + aligned <= u64::MAX)
                &&& (r is Ok ==> {
                    &&& final(self).position_bits() == aligned * 8
                    &&& final(self).at_block_start()
                    &&& final(self).block_start() == old(self).audio_start() + aligned
                    &&& final(self).next_byte_index() * ch == aligned
                })
                &&& (r is Err ==> *final(self) == *old(self) && r == Err::<(), DsdError>(
                    DsdError::InputError,
                ))
            }),
    {
        if sample_index > u64::MAX / (self.ch as u64) {
            proof {
                assert(sample_index * self.ch > u64::MAX) by (nonlinear_arith)
                    requires
                        self.ch > 0,
                        sample_index > u64::MAX as int / self.ch as int,
                ;
            }
            return Err(DsdError::InputError);
        }
        proof {
            assert(sample_index * self.ch <= u64::MAX) by (nonlinear_arith)
                requires
                    self.ch > 0,
                    sample_index <= u64::MAX as int / self.ch as int,
            ;
        }
        let total_bits = sample_index * (self.ch as u64);
        let total_bytes = total_bits / 8;
        proof {
            assert(self.blocksize * self.ch >= 1) by (nonlinear_arith)
                requires
                    self.blocksize >= 1,
                    self.ch >= 1,
            ;
        }
        let bb = self.blocksize * self.ch;
        proof {
            assert((total_bytes as int / bb as int) * bb as int <= total_bytes && 0 <= (
            total_bytes as int / bb as int) * bb as int) by (nonlinear_arith)
                requires
                    bb >= 1,
                    total_bytes >= 0,
            ;
        }
        let aligned = (total_bytes / bb as u64) * bb as u64;
        if aligned > u64::MAX - self.data_start {
            return Err(DsdError::InputError);
        }
        let offset = self.data_start + aligned;
        self.src.seek_to(offset);
        proof {
            assert(aligned * 8 <= total_bits) by (nonlinear_arith)
                requires
                    aligned <= total_bytes,
                    total_bytes == total_bits as int / 8,
                    total_bits >= 0,
                    aligned >= 0,
            ;
        }
        self.read_samples = aligned * 8;
        self.pos = 0;
        self.filled = 0;
        self.block_base = Ghost(offset);
        proof {
            let bbi = bb as int;
            assert((aligned as int) % bbi == 0 && (aligned as int) / bbi * self.blocksize * (self.ch as int)
                == aligned) by (nonlinear_arith)
                requires
                    aligned == (total_bytes as int / bbi) * bbi,
                    bbi == self.blocksize * (self.ch as int),
                    self.blocksize >= 1,
                    (self.ch as int) >= 1,
            ;
            assert(0int / (self.ch as int) == 0) by (nonlinear_arith)
                requires
                    self.ch >= 1,
            ;
        }
        Ok(())
    }

    /// `seek_samples` at the frame `floor(total * num / den)`, where
    /// `num / den` is the wanted position as a fraction of the total. A
    /// fraction above one, or one with a zero denominator, fails with
    /// `InputError` and changes nothing; a fraction of zero targets
    /// frame zero, which every payload start is block-aligned to.
    pub fn seek_percent(&mut self, num: u64, den: u64) -> (r: Result<(), DsdError>)
        requires
            old(self).wf(),
            old(self).channel_count() > 0,
        ensures
            final(self).wf(),
            final(self).source() == old(self).source(),
            final(self).channel_count() == old(self).channel_count(),
            final(self).block_size() == old(self).block_size(),
            final(self).total() == old(self).total(),
            final(self).audio_start() == old(self).audio_start(),
            den == 0 || num > den ==> r == Err::<(), DsdError>(DsdError::InputError)
                && *final(self) == *old(self),
            den > 0 && num <= den ==> {
                let target = old(self).total() * num / (den as int);
                let ch = old(self).channel_count();
                let bb = old(self).block_size() * ch;
                let aligned = dsf_aligned_bytes(target, ch, bb);
                &&& (r is Ok <==> target * ch <= u64::MAX && old(self).audio_start() + aligned
                    <= u64::MAX)
                &&& (r is Ok ==> final(self).position_bits() == aligned * 8
                    && final(self).at_block_start() && final(self).block_start() == old(
                    self,
                ).audio_start() + aligned)
                &&& (r is Err ==> *final(self) == *old(self) && r == Err::<(), DsdError>(
                    DsdError::InputError,
                ))
            },
    {
        if den == 0 || num > den {
            return Err(DsdError::InputError);
        }
        proof {
            assert(self.total_samples * num <= u128::MAX) by (nonlinear_arith)
                requires
                    self.total_samples <= u64::MAX,
                    num <= u64::MAX,
            ;
            assert(self.total_samples * num / (den as int) <= self.total_samples)
                by (nonlinear_arith)
                requires
                    num <= den,
                    0 < den,
                    0 <= self.total_samples,
            ;
        }
        let target = ((self.total_samples as u128) * (num as u128) / (den as u128)) as u64;
        self.seek_samples(target)
    }

    /// The delivered position in frames: the bit-granular counter
    /// divided by the channel count, or zero on a reader that was
    /// never opened.
    pub fn get_position_frames(&self) -> (r: u64)
        ensures
            0 <= self.channel_count(),
            self.channel_count() == 0 ==> r == 0,
            self.channel_count() > 0 ==> r == self.position_bits() as int / self.channel_count(),
    {
        if self.ch == 0 {
            return 0;
        }
        self.read_samples / (self.ch as u64)
    }

    /// The delivered position as a fraction of the total, a numerator
    /// and denominator pair: the frame position clamped to the total,
    /// over the total. A reader whose total is zero reports zero as
    /// `(0, 1)`.
    pub fn get_position_percent(&self) -> (r: (u64, u64))
        ensures
            0 <= self.channel_count(),
            self.total() == 0 ==> r == (0u64, 1u64),
            self.total() != 0 ==> r.1 == self.total() && r.0 == ({
                let frames = if self.channel_count() == 0 {
                    0
                } else {
                    self.position_bits() as int / self.channel_count()
                };
                if frames <= self.total() {
                    frames
                } else {
                    self.total() as int
                }
            }),
    {
        if self.total_samples == 0 {
            return (0, 1);
        }
        let frames = self.get_position_frames();
        if frames <= self.total_samples {
            (frames, self.total_samples)
        } else {
            (self.total_samples, self.total_samples)
        }
    }
}

/// DSF seeks land on block boundaries, by design: after a successful
/// `seek_samples(k)` the reported frame position is frame `k`'s byte
/// offset floored to the enclosing physical block, scaled back to
/// frames — `floor(k*ch/8 / (bs*ch)) * (bs*ch) * 8 / ch`, not `k`,
/// unless `k` already lands on a block boundary.
pub proof fn lemma_dsf_seek_alignment(r: DSFReader, k: u64)
    requires
        r.channel_count() > 0,
        r.block_size() > 0,
        r.position_bits() == dsf_aligned_bytes(
            k as int,
            r.channel_count(),
            r.block_size() * r.channel_count(),
        ) * 8,
    ensures
        r.position_bits() as int / r.channel_count() == ((k * r.channel_count() / 8) / (
        r.block_size() * r.channel_count())) * (r.block_size() * r.channel_count()) * 8 / (
        r.channel_count()),
{
    let ch = r.channel_count();
    let bs = r.block_size();
    let bb = bs * ch;
    let m = (k * ch / 8) / bb;
    assert((m * bb) * 8 / ch == m * bb * 8 / ch) by (nonlinear_arith);
}

/// Standing at a block boundary, the bytes per channel still to come
/// are the per-channel share of each remaining whole physical block,
/// plus the per-channel share of the partial trailing block — the
/// count a container whose data region is not block-padded delivers
/// before the short read.
pub proof fn lemma_dsf_available_at_block_start(r: DSFReader)
    requires
        r.wf(),
        r.channel_count() > 0,
        r.at_block_start(),
        r.block_start() <= r.source().len(),
    ensures
        r.available() == ({
            let bb = r.block_size() * r.channel_count();
            let rem = r.source().len() - r.block_start();
            (rem / bb) * r.block_size() + (rem % bb) / r.channel_count()
        }),
{
}

/// Every byte of the audio region is delivered exactly once, in each
/// channel's order: standing at a block boundary, with the rest of the
/// data a whole number of physical blocks, the bytes per channel still
/// to come are exactly the per-channel share of what remains.
pub proof fn lemma_dsf_reads_deliver_all(r: DSFReader)
    requires
        r.wf(),
        r.channel_count() > 0,
        r.at_block_start(),
        r.block_start() <= r.source().len(),
        (r.source().len() - r.block_start()) % (r.block_size() * r.channel_count()) == 0,
    ensures
        r.available() == (r.source().len() - r.block_start()) / r.channel_count(),
{
    let ch = r.channel_count();
    let bs = r.block_size();
    let bb = bs * ch;
    let rem = r.source().len() - r.block_start();
    assert((rem / bb) * bs + (rem % bb) / ch == rem / ch) by (nonlinear_arith)
        requires
            rem >= 0,
            rem % bb == 0,
            bb == bs * ch,
            bs >= 1,
            ch >= 1,
    ;
}

} // verus!
