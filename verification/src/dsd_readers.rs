//! Shared surface of the two container parsers: the negotiated stream
//! parameters, the error taxonomy, the chunk tags both formats use, and
//! the format dispatcher.

pub mod dff_reader;
pub mod dsf_reader;

use vstd::prelude::*;

use crate::byte_stream::be32;
use crate::dsd_readers::dff_reader::{dff_parse, DFFReader};
use crate::dsd_readers::dsf_reader::{dsf_aligned_bytes, dsf_channel_byte, dsf_parse, DSFReader};

verus! {

// The 4-byte chunk tags both containers are built from, read big-endian.
/// `"FRM8"`, the DFF container magic.
pub const FRM8_TAG: u32 = 0x4652_4D38;
/// `"DSD "`: the DSF container magic, the DFF form type, the DFF audio
/// chunk, and the only compression id the DFF parser accepts.
pub const DSD_TAG: u32 = 0x4453_4420;
/// `"PROP"`, the DFF property chunk.
pub const PROP_TAG: u32 = 0x5052_4F50;
/// `"SND "`, the property-set id whose sub-chunks carry the parameters.
pub const SND_TAG: u32 = 0x534E_4420;
/// `"FS  "`, the DFF sample-rate sub-chunk.
pub const FS_TAG: u32 = 0x4653_2020;
/// `"CHNL"`, the DFF channel-count sub-chunk.
pub const CHNL_TAG: u32 = 0x4348_4E4C;
/// `"CMPR"`, the DFF compression-id sub-chunk.
pub const CMPR_TAG: u32 = 0x434D_5052;
/// `"fmt "`, the DSF format chunk.
pub const FMT_TAG: u32 = 0x666D_7420;
/// `"data"`, the DSF audio chunk.
pub const DATA_TAG: u32 = 0x6461_7461;

/// Why a call failed.
///
/// `FormatError` marks a malformed or unsupported container and is fatal
/// to `open`; the reader is unusable afterwards. `InputError` marks a
/// call that violated the contract of the reader (too few channel
/// buffers, a seek fraction above one) and is fatal to that call only.
#[derive(Clone, Copy, Debug, PartialEq, Eq, Structural)]
pub enum DsdError {
    FormatError,
    InputError,
}

/// Negotiated stream parameters, populated exactly once by a successful
/// `open` and never partially valid.
#[derive(Clone, Copy, Debug, PartialEq, Eq, Structural)]
pub struct DSDFormat {
    /// Sample rate in hertz.
    pub sampling_rate: u32,
    /// Number of channels; greater than zero once `open` has succeeded.
    pub num_channels: u32,
    /// Total per-channel frame count.
    pub total_samples: u64,
    /// Bit ordering of the payload bytes; always false for DFF.
    pub is_lsb_first: bool,
}

impl Default for DSDFormat {
    fn default() -> (d: Self)
        ensures
            d.sampling_rate == 0,
            d.num_channels == 0,
            d.total_samples == 0,
            !d.is_lsb_first,
    {
        DSDFormat { sampling_rate: 0, num_channels: 0, total_samples: 0, is_lsb_first: false }
    }
}

impl DSDFormat {
    /// Whether switching from `other` to `self` forces the output device
    /// to renegotiate: the rate or the channel count differs.
    pub fn is_alsa_update_need(&self, other: &Self) -> (r: bool)
        ensures
            r == (self.sampling_rate != other.sampling_rate
                || self.num_channels != other.num_channels),
    {
        self.sampling_rate != other.sampling_rate || self.num_channels != other.num_channels
    }
}

/// The uniform pull interface over an opened container: a tagged
/// variant holding whichever parser the magic selected. All later
/// interaction goes through it, format-agnostic.
pub enum DSDReader {
    Dff(DFFReader),
    Dsf(DSFReader),
}

impl DSDReader {
    /// The underlying container bytes.
    pub open spec fn source(self) -> Seq<u8> {
        match self {
            DSDReader::Dff(r) => r.source(),
            DSDReader::Dsf(r) => r.source(),
        }
    }

    /// The channel count.
    pub open spec fn channel_count(self) -> int {
        match self {
            DSDReader::Dff(r) => r.channel_count(),
            DSDReader::Dsf(r) => r.channel_count(),
        }
    }

    /// The total per-channel frame count.
    pub open spec fn total(self) -> u64 {
        match self {
            DSDReader::Dff(r) => r.total(),
            DSDReader::Dsf(r) => r.total(),
        }
    }

    /// The held parser's internal consistency.
    pub open spec fn wf(self) -> bool {
        match self {
            DSDReader::Dff(r) => r.wf(),
            DSDReader::Dsf(r) => r.wf(),
        }
    }

    /// How many per-channel bytes remain before the end of the data.
    pub open spec fn available(self) -> int {
        match self {
            DSDReader::Dff(r) => r.available(),
            DSDReader::Dsf(r) => r.available(),
        }
    }

    /// The reported frame position.
    pub open spec fn position_frames_spec(self) -> int {
        match self {
            DSDReader::Dff(r) => r.position() as int,
            DSDReader::Dsf(r) => if r.channel_count() == 0 {
                0
            } else {
                r.position_bits() as int / r.channel_count()
            },
        }
    }

    /// The byte that `read` will hand channel `c` as its `j`-th byte:
    /// byte-interleaved for DFF, block-planar for DSF.
    pub open spec fn channel_byte(self, j: int, c: int) -> u8 {
        match self {
            DSDReader::Dff(r) => r.source()[r.audio_start() + r.position() * r.channel_count() + j
                * r.channel_count() + c],
            DSDReader::Dsf(r) => dsf_channel_byte(
                r.source(),
                r.audio_start() as int,
                r.block_size(),
                r.channel_count(),
                c,
                r.next_byte_index() + j,
            ),
        }
    }

    /// Pulls `bytes_per_channel` bytes per channel, or as many as
    /// remain: byte `j` handed to channel `c` is `channel_byte(j, c)`,
    /// so reads deliver each channel's payload in order, nothing
    /// skipped, nothing repeated. A short count signals end of data,
    /// never a fault. With fewer buffers than channels the call fails
    /// with `InputError` before touching the stream. Each delivered
    /// byte is eight one-bit frames, so the reported frame position
    /// advances by eight times the count (until the DSF bit counter
    /// saturates); DFF counts byte-frames, advancing by the count
    /// itself.
    pub fn read(&mut self, out: &mut Vec<Vec<u8>>, bytes_per_channel: usize) -> (r: Result<
        usize,
        DsdError,
    >)
        requires
            old(self).wf(),
            old(out)@.len() >= old(self).channel_count() ==> forall|c: int|
                0 <= c < old(self).channel_count() ==> (#[trigger] old(out)@[c])@.len()
                    >= bytes_per_channel,
        ensures
            final(self).wf(),
            final(self).source() == old(self).source(),
            final(self).channel_count() == old(self).channel_count(),
            final(self).total() == old(self).total(),
            (*old(self) is Dff <==> *final(self) is Dff),
            old(self).channel_count() == 0 ==> r == Ok::<usize, DsdError>(0) && *final(self)
                == *old(self) && *final(out) == *old(out),
            old(self).channel_count() > 0 && old(out)@.len() < old(self).channel_count() ==> r
                == Err::<usize, DsdError>(DsdError::InputError) && *final(self) == *old(self)
                && *final(out) == *old(out),
            old(self).channel_count() > 0 && old(out)@.len() >= old(self).channel_count() ==> (
            r matches Ok(w) && {
                let ch = old(self).channel_count();
                &&& w == if bytes_per_channel as int <= old(self).available() {
                    bytes_per_channel as int
                } else {
                    old(self).available()
                }
                &&& final(self).available() == old(self).available() - w
                &&& final(out)@.len() == old(out)@.len()
                &&& forall|c: int|
                    0 <= c < old(out)@.len() ==> (#[trigger] final(out)@[c])@.len()
                        == old(out)@[c]@.len()
                &&& forall|c: int, j: int|
                    0 <= c < ch && 0 <= j < w ==> #[trigger] final(out)@[c]@[j] == old(self).channel_byte(j, c)
                &&& forall|c: int, j: int|
                    0 <= c < ch && w <= j < old(out)@[c]@.len() ==> #[trigger] final(out)@[c]@[j]
                        == old(out)@[c]@[j]
                &&& forall|c: int|
                    ch <= c < old(out)@.len() ==> #[trigger] final(out)@[c]@ == old(out)@[c]@
            }),
            *old(self) matches DSDReader::Dff(p) ==> (old(self).channel_count() > 0 && old(out)@.len() >= old(self).channel_count() ==> (r matches Ok(w) && (*final(self)
                matches DSDReader::Dff(q) && q.position() == p.position() + w && final(self).position_frames_spec() == old(self).position_frames_spec() + w))),
            *old(self) matches DSDReader::Dsf(p) ==> (old(self).channel_count() > 0 && old(out)@.len() >= old(self).channel_count() ==> (r matches Ok(w) && (*final(self)
                matches DSDReader::Dsf(q) && q.position_bits() == (if p.position_bits() + 8 * w
                * p.channel_count() <= u64::MAX {
                p.position_bits() + 8 * w * p.channel_count()
            } else {
                u64::MAX as int
            }) && (p.position_bits() + 8 * w * p.channel_count() <= u64::MAX ==> final(self).position_frames_spec() == old(self).position_frames_spec() + 8 * w)))),
    {
        match self {
            DSDReader::Dff(rd) => rd.read(out, bytes_per_channel),
            DSDReader::Dsf(rd) => rd.read(out, bytes_per_channel),
        }
    }

    /// Repositions at frame `sample_index`: sample-exact for DFF,
    /// floored to the enclosing physical block for DSF. An index whose
    /// offsets do not fit in 64 bits fails with `InputError` and
    /// changes nothing.
    pub fn seek_samples(&mut self, sample_index: u64) -> (r: Result<(), DsdError>)
        requires
            old(self).wf(),
            old(self).channel_count() > 0,
        ensures
            final(self).wf(),
            final(self).source() == old(self).source(),
            final(self).channel_count() == old(self).channel_count(),
            final(self).total() == old(self).total(),
            (*old(self) is Dff <==> *final(self) is Dff),
            r is Err ==> *final(self) == *old(self) && r == Err::<(), DsdError>(
                DsdError::InputError,
            ),
            *old(self) is Dff && r is Ok ==> final(self).position_frames_spec() == sample_index,
            *old(self) is Dsf && r is Ok ==> final(self).position_frames_spec()
                == dsf_aligned_bytes(
                sample_index as int,
                old(self).channel_count(),
                old(self).block_size_spec() * old(self).channel_count(),
            ) * 8 / old(self).channel_count(),
    {
        match self {
            DSDReader::Dff(rd) => rd.seek_samples(sample_index),
            DSDReader::Dsf(rd) => rd.seek_samples(sample_index),
        }
    }

    /// The per-channel block size; zero for a DFF reader, whose layout
    /// has no blocks.
    pub open spec fn block_size_spec(self) -> int {
        match self {
            DSDReader::Dff(r) => 0,
            DSDReader::Dsf(r) => r.block_size(),
        }
    }

    /// `seek_samples` at the frame `floor(total * num / den)`. A
    /// fraction above one, or one with a zero denominator, fails with
    /// `InputError` and changes nothing; a fraction of zero targets
    /// frame zero.
    pub fn seek_percent(&mut self, num: u64, den: u64) -> (r: Result<(), DsdError>)
        requires
            old(self).wf(),
            old(self).channel_count() > 0,
        ensures
            final(self).wf(),
            final(self).source() == old(self).source(),
            final(self).channel_count() == old(self).channel_count(),
            final(self).total() == old(self).total(),
            (*old(self) is Dff <==> *final(self) is Dff),
            den == 0 || num > den ==> r == Err::<(), DsdError>(DsdError::InputError)
                && *final(self) == *old(self),
            r is Err ==> *final(self) == *old(self) && r == Err::<(), DsdError>(
                DsdError::InputError,
            ),
            den > 0 && num <= den && r is Ok && *old(self) is Dff ==> final(self).position_frames_spec() == old(self).total() * num / (den as int),
            den > 0 && num <= den && r is Ok && *old(self) is Dsf ==> final(self).position_frames_spec() == dsf_aligned_bytes(
                old(self).total() * num / (den as int),
                old(self).channel_count(),
                old(self).block_size_spec() * old(self).channel_count(),
            ) * 8 / old(self).channel_count(),
    {
        match self {
            DSDReader::Dff(rd) => rd.seek_percent(num, den),
            DSDReader::Dsf(rd) => rd.seek_percent(num, den),
        }
    }

    /// The delivered position, in frames.
    pub fn get_position_frames(&self) -> (r: u64)
        ensures
            r == self.position_frames_spec(),
    {
        match self {
            DSDReader::Dff(rd) => rd.get_position_frames(),
            DSDReader::Dsf(rd) => rd.get_position_frames(),
        }
    }

    /// The delivered position as a fraction of the total, a numerator
    /// and denominator pair: the frame position clamped to the total,
    /// over the total; zero as `(0, 1)` when the total is zero.
    pub fn get_position_percent(&self) -> (r: (u64, u64))
        ensures
            self.total() == 0 ==> r == (0u64, 1u64),
            self.total() != 0 ==> r.1 == self.total() && r.0 == if self.position_frames_spec()
                <= self.total() {
                self.position_frames_spec()
            } else {
                self.total() as int
            },
    {
        match self {
            DSDReader::Dff(rd) => rd.get_position_percent(),
            DSDReader::Dsf(rd) => rd.get_position_percent(),
        }
    }
}

/// Opens the data as a DSF container: the DSF half of the dispatcher.
#[verifier::rlimit(100)]
#[verifier::spinoff_prover]
fn open_as_dsf(data: Vec<u8>, format: &mut DSDFormat) -> (r: Result<DSDReader, DsdError>)
    ensures
        r is Ok <==> dsf_parse(data@) is Some,
        r matches Err(e) ==> e == DsdError::FormatError && *final(format) == *old(format),
        r matches Ok(h) ==> h.wf() && h is Dsf && h.source() == data@
            && h.position_frames_spec() == 0 && (dsf_parse(data@) matches Some(m) && {
            &&& h.channel_count() == m.num_channels
            &&& h.total() == m.total_samples
            &&& h.block_size_spec() == m.block_size
            &&& *final(format) == (DSDFormat {
                sampling_rate: m.sampling_rate,
                num_channels: m.num_channels,
                total_samples: m.total_samples,
                is_lsb_first: m.is_lsb_first,
            })
        }),
{
    let mut rd = DSFReader::new(data);
    match rd.open(format) {
        Ok(()) => Ok(DSDReader::Dsf(rd)),
        Err(e) => Err(e),
    }
}

/// Opens the data as a DFF container: the DFF half of the dispatcher.
fn open_as_dff(data: Vec<u8>, format: &mut DSDFormat) -> (r: Result<DSDReader, DsdError>)
    ensures
        r is Ok <==> dff_parse(data@) is Some,
        r matches Err(e) ==> e == DsdError::FormatError && *final(format) == *old(format),
        r matches Ok(h) ==> h.wf() && h is Dff && h.source() == data@
            && h.position_frames_spec() == 0 && (dff_parse(data@) matches Some(m) && {
            &&& h.channel_count() == m.num_channels
            &&& h.total() == m.total_samples
            &&& *final(format) == (DSDFormat {
                sampling_rate: m.sampling_rate,
                num_channels: m.num_channels as u32,
                total_samples: m.total_samples,
                is_lsb_first: false,
            })
        }),
{
    let mut rd = DFFReader::new(data);
    match rd.open(format) {
        Ok(()) => Ok(DSDReader::Dff(rd)),
        Err(e) => Err(e),
    }
}

/// Sniffs the 4-byte magic and opens the matching parser: `DSD ` for
/// DSF, `FRM8` for DFF, anything else a `FormatError`. On success the
/// descriptor is populated as the parser's model (`dsf_parse` or
/// `dff_parse`) dictates, and the handle stands at the start of the
/// payload; this is the single point where the format is resolved.
pub fn open_dsd_auto(data: Vec<u8>, format: &mut DSDFormat) -> (r: Result<DSDReader, DsdError>)
    ensures
        r is Ok <==> data@.len() >= 4 && (be32(data@, 0) == DSD_TAG && dsf_parse(data@) is Some
            || be32(data@, 0) == FRM8_TAG && dff_parse(data@) is Some),
        r matches Err(e) ==> e == DsdError::FormatError && *final(format) == *old(format),
        r matches Ok(h) ==> h.wf() && h.source() == data@ && h.position_frames_spec() == 0 && {
            ||| (be32(data@, 0) == DSD_TAG && h is Dsf && (dsf_parse(data@) matches Some(m) && {
                &&& h.channel_count() == m.num_channels
                &&& h.total() == m.total_samples
                &&& h.block_size_spec() == m.block_size
                &&& *final(format) == (DSDFormat {
                    sampling_rate: m.sampling_rate,
                    num_channels: m.num_channels,
                    total_samples: m.total_samples,
                    is_lsb_first: m.is_lsb_first,
                })
            }))
            ||| (be32(data@, 0) == FRM8_TAG && h is Dff && (dff_parse(data@) matches Some(m) && {
                &&& h.channel_count() == m.num_channels
                &&& h.total() == m.total_samples
                &&& *final(format) == (DSDFormat {
                    sampling_rate: m.sampling_rate,
                    num_channels: m.num_channels as u32,
                    total_samples: m.total_samples,
                    is_lsb_first: false,
                })
            }))
        },
{
    if data.len() < 4 {
        return Err(DsdError::FormatError);
    }
    let magic: u32 = ((data[0] as u32) * 0x100_0000) + ((data[1] as u32) * 0x1_0000) + ((
    data[2] as u32) * 0x100) + (data[3] as u32);
    proof {
        assert(magic == be32(data@, 0));
    }
    if magic == DSD_TAG {
        open_as_dsf(data, format)
    } else if magic == FRM8_TAG {
        open_as_dff(data, format)
    } else {
        Err(DsdError::FormatError)
    }
}

} // verus!
