//! End-to-end checks of the two container parsers and the dispatcher,
//! over hand-built in-memory containers.

use dsd_core::dsd_readers::dff_reader::DFFReader;
use dsd_core::dsd_readers::dsf_reader::DSFReader;
use dsd_core::dsd_readers::{open_dsd_auto, DSDFormat, DsdError};

fn push_tag(v: &mut Vec<u8>, tag: &[u8; 4]) {
    v.extend_from_slice(tag);
}

fn push_u64_be(v: &mut Vec<u8>, x: u64) {
    v.extend_from_slice(&x.to_be_bytes());
}

fn push_u32_be(v: &mut Vec<u8>, x: u32) {
    v.extend_from_slice(&x.to_be_bytes());
}

fn push_u16_be(v: &mut Vec<u8>, x: u16) {
    v.extend_from_slice(&x.to_be_bytes());
}

fn push_u64_le(v: &mut Vec<u8>, x: u64) {
    v.extend_from_slice(&x.to_le_bytes());
}

fn push_u32_le(v: &mut Vec<u8>, x: u32) {
    v.extend_from_slice(&x.to_le_bytes());
}

/// The audio payload used by the DFF tests: 2000 interleaved bytes for
/// two channels, 1000 frames.
fn dff_payload() -> Vec<u8> {
    (0..2000u32).map(|i| (i % 251) as u8).collect()
}

/// A well-formed two-channel DFF container: FRM8 / DSD form, a PROP
/// chunk with FS, CHNL and CMPR sub-chunks, then the DSD audio chunk.
/// `junk_before_audio` inserts an unrecognized top-level chunk with an
/// odd declared size between PROP and the audio chunk.
fn dff_container(junk_before_audio: bool) -> Vec<u8> {
    let payload = dff_payload();
    let mut v = Vec::new();
    push_tag(&mut v, b"FRM8");
    push_u64_be(&mut v, 0); // form size, not used by the reader
    push_tag(&mut v, b"DSD ");

    // PROP payload: prop id + three sub-chunks
    let mut prop = Vec::new();
    push_tag(&mut prop, b"SND ");
    push_tag(&mut prop, b"FS  ");
    push_u64_be(&mut prop, 4);
    push_u32_be(&mut prop, 176_400);
    push_tag(&mut prop, b"CHNL");
    push_u64_be(&mut prop, 2);
    push_u16_be(&mut prop, 2);
    push_tag(&mut prop, b"CMPR");
    push_u64_be(&mut prop, 4);
    push_tag(&mut prop, b"DSD ");

    push_tag(&mut v, b"PROP");
    push_u64_be(&mut v, prop.len() as u64);
    v.extend_from_slice(&prop);

    if junk_before_audio {
        // an unrecognized chunk with an odd size: consumed padded to even
        push_tag(&mut v, b"JUNK");
        push_u64_be(&mut v, 5);
        v.extend_from_slice(&[9, 9, 9, 9, 9, 0]);
    }

    push_tag(&mut v, b"DSD ");
    push_u64_be(&mut v, payload.len() as u64);
    v.extend_from_slice(&payload);
    v
}

fn two_buffers(len: usize) -> Vec<Vec<u8>> {
    vec![vec![0u8; len], vec![0u8; len]]
}

#[test]
fn dff_open_reports_declared_parameters() {
    let mut format = DSDFormat::default();
    let mut rd = DFFReader::new(dff_container(false));
    rd.open(&mut format).unwrap();
    assert_eq!(format.sampling_rate, 176_400);
    assert_eq!(format.num_channels, 2);
    assert_eq!(format.total_samples, 1000);
    assert!(!format.is_lsb_first);
}

#[test]
fn dff_position_percent_is_half_after_half_the_frames() {
    let mut format = DSDFormat::default();
    let mut rd = DFFReader::new(dff_container(false));
    rd.open(&mut format).unwrap();
    let mut bufs = two_buffers(500);
    assert_eq!(rd.read(&mut bufs, 500).unwrap(), 500);
    assert_eq!(rd.get_position_frames(), 500);
    let (num, den) = rd.get_position_percent();
    assert_eq!((num, den), (500, 1000));
    assert_eq!(num as f64 / den as f64, 0.5);
}

#[test]
fn dff_reads_deliver_every_byte_once_in_order() {
    let payload = dff_payload();
    let mut format = DSDFormat::default();
    let mut rd = DFFReader::new(dff_container(false));
    rd.open(&mut format).unwrap();

    let mut delivered: Vec<Vec<u8>> = vec![Vec::new(), Vec::new()];
    let mut total = 0usize;
    loop {
        let mut bufs = two_buffers(300);
        let n = rd.read(&mut bufs, 300).unwrap();
        for c in 0..2 {
            delivered[c].extend_from_slice(&bufs[c][..n]);
        }
        total += n;
        if n < 300 {
            break;
        }
    }
    assert_eq!(total, 1000);
    for c in 0..2 {
        for f in 0..1000 {
            assert_eq!(delivered[c][f], payload[f * 2 + c]);
        }
    }
    // the stream is exhausted: one more read delivers nothing
    let mut bufs = two_buffers(10);
    assert_eq!(rd.read(&mut bufs, 10).unwrap(), 0);
}

#[test]
fn dff_seek_is_sample_exact() {
    let payload = dff_payload();
    let mut format = DSDFormat::default();
    let mut rd = DFFReader::new(dff_container(false));
    rd.open(&mut format).unwrap();
    for &k in &[0u64, 1, 499, 998, 999] {
        rd.seek_samples(k).unwrap();
        assert_eq!(rd.get_position_frames(), k);
        let mut bufs = two_buffers(1);
        assert_eq!(rd.read(&mut bufs, 1).unwrap(), 1);
        for c in 0..2 {
            assert_eq!(bufs[c][0], payload[(k as usize) * 2 + c]);
        }
    }
}

#[test]
fn dff_seek_percent_zero_resets_and_out_of_range_fails() {
    let mut format = DSDFormat::default();
    let mut rd = DFFReader::new(dff_container(false));
    rd.open(&mut format).unwrap();
    rd.seek_percent(1, 2).unwrap();
    assert_eq!(rd.get_position_frames(), 500);
    rd.seek_percent(0, 1).unwrap();
    assert_eq!(rd.get_position_frames(), 0);

    rd.seek_samples(123).unwrap();
    assert_eq!(rd.seek_percent(3, 2), Err(DsdError::InputError));
    assert_eq!(rd.get_position_frames(), 123);
    assert_eq!(rd.seek_percent(1, 0), Err(DsdError::InputError));
    assert_eq!(rd.get_position_frames(), 123);
}

#[test]
fn dff_read_with_too_few_buffers_fails_without_consuming() {
    let payload = dff_payload();
    let mut format = DSDFormat::default();
    let mut rd = DFFReader::new(dff_container(false));
    rd.open(&mut format).unwrap();
    let mut one = vec![vec![0u8; 10]];
    assert_eq!(rd.read(&mut one, 10), Err(DsdError::InputError));
    assert_eq!(rd.get_position_frames(), 0);
    // the next proper read still starts at the first frame
    let mut bufs = two_buffers(4);
    assert_eq!(rd.read(&mut bufs, 4).unwrap(), 4);
    assert_eq!(bufs[0][0], payload[0]);
    assert_eq!(bufs[1][0], payload[1]);
}

#[test]
fn dff_unknown_chunk_is_skipped_without_altering_descriptor() {
    let mut format_plain = DSDFormat::default();
    let mut rd_plain = DFFReader::new(dff_container(false));
    rd_plain.open(&mut format_plain).unwrap();

    let mut format_junk = DSDFormat::default();
    let mut rd_junk = DFFReader::new(dff_container(true));
    rd_junk.open(&mut format_junk).unwrap();

    assert_eq!(format_plain, format_junk);
    // and the audio bytes still decode identically
    let mut a = two_buffers(8);
    let mut b = two_buffers(8);
    assert_eq!(rd_plain.read(&mut a, 8).unwrap(), 8);
    assert_eq!(rd_junk.read(&mut b, 8).unwrap(), 8);
    assert_eq!(a, b);
}

#[test]
fn dff_seek_overflow_is_an_input_error() {
    let mut format = DSDFormat::default();
    let mut rd = DFFReader::new(dff_container(false));
    rd.open(&mut format).unwrap();
    assert_eq!(rd.seek_samples(u64::MAX / 2 + 1), Err(DsdError::InputError));
    assert_eq!(rd.get_position_frames(), 0);
}

#[test]
fn dff_malformed_containers_fail_open() {
    // wrong magic
    let mut bad = dff_container(false);
    bad[0] = b'X';
    let mut format = DSDFormat::default();
    assert_eq!(
        DFFReader::new(bad).open(&mut format),
        Err(DsdError::FormatError)
    );
    // wrong form type
    let mut bad = dff_container(false);
    bad[12] = b'X';
    assert_eq!(
        DFFReader::new(bad).open(&mut format),
        Err(DsdError::FormatError)
    );
    // truncated inside a chunk header
    let mut bad = dff_container(false);
    bad.truncate(20);
    assert_eq!(
        DFFReader::new(bad).open(&mut format),
        Err(DsdError::FormatError)
    );
    // the descriptor was never touched by the failures above
    assert_eq!(format, DSDFormat::default());
}

#[test]
fn dff_unsupported_compression_fails_open() {
    let mut bad = dff_container(false);
    // the CMPR value is the final 4 bytes of the PROP payload
    let cmpr_value = 16 + 12 + 50 - 4;
    bad[cmpr_value..cmpr_value + 4].copy_from_slice(b"DST ");
    let mut format = DSDFormat::default();
    assert_eq!(
        DFFReader::new(bad).open(&mut format),
        Err(DsdError::FormatError)
    );
}

#[test]
fn dff_missing_parameters_fail_open() {
    // no FS sub-chunk: replace its id with an unknown one
    let mut bad = dff_container(false);
    bad[32..36].copy_from_slice(b"XXXX");
    let mut format = DSDFormat::default();
    assert_eq!(
        DFFReader::new(bad).open(&mut format),
        Err(DsdError::FormatError)
    );
    // no CHNL sub-chunk
    let mut bad = dff_container(false);
    bad[48..52].copy_from_slice(b"XXXX");
    assert_eq!(
        DFFReader::new(bad).open(&mut format),
        Err(DsdError::FormatError)
    );
    // a declared channel count of zero
    let mut bad = dff_container(false);
    bad[60..62].copy_from_slice(&[0, 0]);
    assert_eq!(
        DFFReader::new(bad).open(&mut format),
        Err(DsdError::FormatError)
    );
    // no DSD audio chunk at all
    let mut bad = dff_container(false);
    bad.truncate(16 + 12 + 50);
    assert_eq!(
        DFFReader::new(bad).open(&mut format),
        Err(DsdError::FormatError)
    );
}

/// The audio payload used by the DSF tests: one partial physical block
/// holding 1000 bytes per channel, channel-planar.
fn dsf_payload() -> Vec<u8> {
    (0..2000u32).map(|i| (i % 241) as u8).collect()
}

/// A well-formed two-channel DSF container with the given
/// bits-per-sample value: `DSD ` header, `fmt ` parameters, `data`
/// payload.
fn dsf_container(bits_per_sample: u32) -> Vec<u8> {
    let payload = dsf_payload();
    let mut v = Vec::new();
    push_tag(&mut v, b"DSD ");
    push_u64_le(&mut v, 28); // this chunk's size
    push_u64_le(&mut v, 0); // file size, not validated
    push_u64_le(&mut v, 0); // metadata offset, not validated

    push_tag(&mut v, b"fmt ");
    push_u64_le(&mut v, 52); // this chunk's size
    push_u32_le(&mut v, 1); // format version
    push_u32_le(&mut v, 0); // format id: raw DSD
    push_u32_le(&mut v, 2); // channel type, informational
    push_u32_le(&mut v, 2); // channel count
    push_u32_le(&mut v, 2_822_400); // sampling rate
    push_u32_le(&mut v, bits_per_sample);
    push_u64_le(&mut v, 1000); // sample count per channel
    push_u32_le(&mut v, 4096); // block size per channel
    push_u32_le(&mut v, 0); // reserved

    push_tag(&mut v, b"data");
    push_u64_le(&mut v, 12 + payload.len() as u64);
    v.extend_from_slice(&payload);
    v
}

#[test]
fn dsf_open_reports_declared_parameters() {
    let mut format = DSDFormat::default();
    let mut rd = DSFReader::empty();
    assert_eq!(rd.open(&mut format), Err(DsdError::FormatError));

    let mut format = DSDFormat::default();
    open_dsd_auto(dsf_container(1), &mut format).unwrap();
    assert_eq!(format.sampling_rate, 2_822_400);
    assert_eq!(format.num_channels, 2);
    assert_eq!(format.total_samples, 1000);
    assert!(format.is_lsb_first);

    let mut format = DSDFormat::default();
    open_dsd_auto(dsf_container(8), &mut format).unwrap();
    assert!(!format.is_lsb_first);
}

#[test]
fn dsf_short_read_signals_end_of_stream() {
    let payload = dsf_payload();
    let mut format = DSDFormat::default();
    let mut rd = open_dsd_auto(dsf_container(8), &mut format).unwrap();

    let mut bufs = two_buffers(500);
    assert_eq!(rd.read(&mut bufs, 500).unwrap(), 500);
    // the first channel's run is the first 1000 payload bytes
    assert_eq!(&bufs[0][..500], &payload[..500]);
    // the second channel's run lies past the 1000 bytes actually in the
    // block, so the zero-filled remainder of the block is delivered
    assert!(bufs[1][..500].iter().all(|&b| b == 0));

    let mut bufs = two_buffers(600);
    assert_eq!(rd.read(&mut bufs, 600).unwrap(), 500);
    assert_eq!(&bufs[0][..500], &payload[500..1000]);

    let mut bufs = two_buffers(10);
    assert_eq!(rd.read(&mut bufs, 10).unwrap(), 0);
}

#[test]
fn dsf_read_advances_position_by_eight_frames_per_byte() {
    let mut format = DSDFormat::default();
    let mut rd = open_dsd_auto(dsf_container(8), &mut format).unwrap();
    assert_eq!(rd.get_position_frames(), 0);
    let mut bufs = two_buffers(10);
    assert_eq!(rd.read(&mut bufs, 10).unwrap(), 10);
    assert_eq!(rd.get_position_frames(), 80);
    // 125 bytes per channel are the declared 1000 one-bit frames
    let mut bufs = two_buffers(115);
    assert_eq!(rd.read(&mut bufs, 115).unwrap(), 115);
    assert_eq!(rd.get_position_frames(), 1000);
    assert_eq!(rd.get_position_percent(), (1000, 1000));
}

#[test]
fn dsf_seek_floors_to_the_enclosing_block() {
    let mut format = DSDFormat::default();
    let mut rd = open_dsd_auto(dsf_container(8), &mut format).unwrap();

    // 100 frames is 25 bytes across channels: inside the first block
    rd.seek_samples(100).unwrap();
    assert_eq!(rd.get_position_frames(), 0);

    // 40000 frames is 10000 bytes across channels: one whole 8192-byte
    // block is skipped, and the position reports the block boundary
    rd.seek_samples(40_000).unwrap();
    let expected = ((40_000u64 * 2 / 8) / (4096 * 2)) * (4096 * 2) * 8 / 2;
    assert_eq!(rd.get_position_frames(), expected);
    assert_eq!(expected, 32_768);
}

#[test]
fn dsf_seek_percent_zero_resets_and_out_of_range_fails() {
    let mut format = DSDFormat::default();
    let mut rd = open_dsd_auto(dsf_container(8), &mut format).unwrap();
    rd.seek_samples(40_000).unwrap();
    assert_eq!(rd.seek_percent(2, 1), Err(DsdError::InputError));
    assert_eq!(rd.get_position_frames(), 32_768);
    rd.seek_percent(0, 1).unwrap();
    assert_eq!(rd.get_position_frames(), 0);
}

#[test]
fn dsf_malformed_containers_fail_open() {
    let mut format = DSDFormat::default();
    // wrong format version
    let mut bad = dsf_container(8);
    bad[40] = 2;
    assert!(matches!(
        open_dsd_auto(bad, &mut format),
        Err(DsdError::FormatError)
    ));
    // DST-compressed payload (format id 1)
    let mut bad = dsf_container(8);
    bad[44] = 1;
    assert!(matches!(
        open_dsd_auto(bad, &mut format),
        Err(DsdError::FormatError)
    ));
    // a declared channel count of zero
    let mut bad = dsf_container(8);
    bad[52..56].copy_from_slice(&[0, 0, 0, 0]);
    assert!(matches!(
        open_dsd_auto(bad, &mut format),
        Err(DsdError::FormatError)
    ));
    // the data chunk is missing
    let mut bad = dsf_container(8);
    bad.truncate(80);
    assert!(matches!(
        open_dsd_auto(bad, &mut format),
        Err(DsdError::FormatError)
    ));
    assert_eq!(format, DSDFormat::default());
}

#[test]
fn dispatcher_rejects_unknown_magic() {
    let mut format = DSDFormat::default();
    assert!(matches!(
        open_dsd_auto(b"RIFF0000".to_vec(), &mut format),
        Err(DsdError::FormatError)
    ));
    assert!(matches!(
        open_dsd_auto(vec![1, 2], &mut format),
        Err(DsdError::FormatError)
    ));
    assert_eq!(format, DSDFormat::default());
}

#[test]
fn dispatcher_selects_dff_by_magic() {
    let payload = dff_payload();
    let mut format = DSDFormat::default();
    let mut rd = open_dsd_auto(dff_container(false), &mut format).unwrap();
    assert_eq!(format.num_channels, 2);
    assert_eq!(format.total_samples, 1000);
    let mut bufs = two_buffers(3);
    assert_eq!(rd.read(&mut bufs, 3).unwrap(), 3);
    assert_eq!(&bufs[0][..3], &[payload[0], payload[2], payload[4]]);
    assert_eq!(&bufs[1][..3], &[payload[1], payload[3], payload[5]]);
    let (num, den) = rd.get_position_percent();
    assert_eq!((num, den), (3, 1000));
}

#[test]
fn format_update_check_compares_rate_and_channels() {
    let a = DSDFormat {
        sampling_rate: 2_822_400,
        num_channels: 2,
        total_samples: 10,
        is_lsb_first: false,
    };
    let mut b = a;
    assert!(!a.is_alsa_update_need(&b));
    b.total_samples = 99;
    assert!(!a.is_alsa_update_need(&b));
    b.sampling_rate = 5_644_800;
    assert!(a.is_alsa_update_need(&b));
    b = a;
    b.num_channels = 6;
    assert!(a.is_alsa_update_need(&b));
}

#[test]
fn default_descriptor_is_empty() {
    let d = DSDFormat::default();
    assert_eq!(d.sampling_rate, 0);
    assert_eq!(d.num_channels, 0);
    assert_eq!(d.total_samples, 0);
    assert!(!d.is_lsb_first);
}

#[test]
fn dff_empty_reader_fails_open_and_reads_nothing() {
    let mut format = DSDFormat::default();
    let mut rd = DFFReader::empty();
    assert_eq!(rd.open(&mut format), Err(DsdError::FormatError));
    let mut bufs = two_buffers(4);
    // never opened: no channels, nothing delivered
    assert_eq!(rd.read(&mut bufs, 4).unwrap(), 0);
    assert_eq!(rd.get_position_percent(), (0, 1));
}
