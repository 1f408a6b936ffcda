use octave::file_io::buf_to_int;
use octave::file_io::channel_map_from_mask;
use octave::file_io::deinterleave;
use octave::file_io::get_channel_mask;
use octave::file_io::pcm_value;
use octave::file_io::sample_type_name;
use octave::file_io::SpeakerPos;
use octave::file_io::WavLayout;
use octave::file_io::WavWriteInfo;

const ALL_POSITIONS: [SpeakerPos; 17] = [
    SpeakerPos::FrontLeft,
    SpeakerPos::FrontRight,
    SpeakerPos::BackLeft,
    SpeakerPos::BackRight,
    SpeakerPos::FrontLeftOfCenter,
    SpeakerPos::FrontRightOfCenter,
    SpeakerPos::BackCenter,
    SpeakerPos::SideLeft,
    SpeakerPos::SideRight,
    SpeakerPos::TopCenter,
    SpeakerPos::TopFrontLeft,
    SpeakerPos::TopFrontCenter,
    SpeakerPos::TopFrontRight,
    SpeakerPos::TopBackLeft,
    SpeakerPos::TopBackCenter,
    SpeakerPos::TopBackRight,
    SpeakerPos::Reserved,
];

fn stereo_pcm16() -> WavWriteInfo {
    WavWriteInfo {
        sample_type: 1,
        channels: 2,
        sample_rate: 48000,
        bit_depth: 16,
        channel_mapping: vec![(0, SpeakerPos::FrontLeft), (1, SpeakerPos::FrontRight)],
    }
}

#[test]
fn speaker_names() {
    assert_eq!(SpeakerPos::FrontLeft.to_string(), "FrontLeft");
    assert_eq!(SpeakerPos::FrontRightOfCenter.to_string(), "FrontRightOfCenter");
    assert_eq!(SpeakerPos::TopBackCenter.to_string(), "TopBackCenter");
    assert_eq!(SpeakerPos::Reserved.to_string(), "Reserved");
}

#[test]
fn speaker_name_is_debug_name() {
    for position in ALL_POSITIONS {
        assert_eq!(position.to_string(), format!("{:?}", position));
    }
}

#[test]
fn speaker_short_names() {
    let expected = [
        "FL", "FR", "BL", "BR", "FLC", "FRC", "BC", "SL", "SR", "TC", "TFL", "TFC", "TFR", "TBL",
        "TBC", "TBR", "RES",
    ];
    for (position, short) in ALL_POSITIONS.iter().zip(expected) {
        assert_eq!(position.short_name(), short);
    }
}

#[test]
fn speaker_standard_locations() {
    for (place, position) in ALL_POSITIONS.iter().enumerate() {
        assert_eq!(position.std_location(), place as u32);
    }
}

#[test]
fn speaker_mask_bits() {
    assert_eq!(SpeakerPos::FrontLeft.mask(), 0x1);
    assert_eq!(SpeakerPos::FrontRight.mask(), 0x2);
    assert_eq!(SpeakerPos::BackLeft.mask(), 0x10);
    assert_eq!(SpeakerPos::BackRight.mask(), 0x20);
    assert_eq!(SpeakerPos::FrontLeftOfCenter.mask(), 0x40);
    assert_eq!(SpeakerPos::FrontRightOfCenter.mask(), 0x80);
    assert_eq!(SpeakerPos::BackCenter.mask(), 0x100);
    assert_eq!(SpeakerPos::SideLeft.mask(), 0x200);
    assert_eq!(SpeakerPos::SideRight.mask(), 0x400);
    assert_eq!(SpeakerPos::TopCenter.mask(), 0x800);
    assert_eq!(SpeakerPos::TopFrontLeft.mask(), 0x1000);
    assert_eq!(SpeakerPos::TopFrontCenter.mask(), 0x2000);
    assert_eq!(SpeakerPos::TopFrontRight.mask(), 0x4000);
    assert_eq!(SpeakerPos::TopBackLeft.mask(), 0x8000);
    assert_eq!(SpeakerPos::TopBackCenter.mask(), 0x10000);
    assert_eq!(SpeakerPos::TopBackRight.mask(), 0x20000);
    assert_eq!(SpeakerPos::Reserved.mask(), 0x80000000);
}

#[test]
fn speaker_from_its_mask_bit() {
    for position in ALL_POSITIONS {
        assert_eq!(SpeakerPos::from(position.mask()), position);
    }
}

#[test]
fn speaker_from_other_values_is_reserved() {
    for value in [0u32, 0x3, 0x4, 0x8, 0x40000, 0x40000000, u32::MAX] {
        assert_eq!(SpeakerPos::from(value), SpeakerPos::Reserved);
    }
}

#[test]
fn channel_mask_joins_the_bits() {
    let mapping = vec![
        (0, SpeakerPos::FrontLeft),
        (1, SpeakerPos::FrontRight),
        (2, SpeakerPos::SideLeft),
        (3, SpeakerPos::SideRight),
    ];
    assert_eq!(get_channel_mask(&mapping), 0x603);
}

#[test]
fn channel_mask_of_no_channels() {
    assert_eq!(get_channel_mask(&vec![]), 0);
}

#[test]
fn channel_mask_counts_a_position_once() {
    let mapping = vec![(0, SpeakerPos::BackCenter), (1, SpeakerPos::BackCenter)];
    assert_eq!(get_channel_mask(&mapping), 0x100);
}

#[test]
fn little_endian_fields() {
    let buf = [0x78, 0x56, 0x34, 0x12];
    assert_eq!(buf_to_int(&buf, 0), 0);
    assert_eq!(buf_to_int(&buf, 1), 0x78);
    assert_eq!(buf_to_int(&buf, 2), 0x5678);
    assert_eq!(buf_to_int(&buf, 3), 0x345678);
    assert_eq!(buf_to_int(&buf, 4), 0x12345678);
}

#[test]
fn little_endian_field_of_largest_value() {
    assert_eq!(buf_to_int(&[0xff, 0xff, 0xff, 0xff], 4), u32::MAX);
    assert_eq!(buf_to_int(&[0x80, 0xbb, 0x00, 0x00, 0xaa], 4), 48000);
}

#[test]
fn channel_map_of_the_direct_mask() {
    let map = channel_map_from_mask(0xFFFFFFFF, 2);
    assert_eq!(map, vec![(0, SpeakerPos::FrontLeft), (1, SpeakerPos::FrontRight)]);
}

#[test]
fn channel_map_skips_clear_bits() {
    // Bits 2 and 3 belong to no position.
    let map = channel_map_from_mask(0x63C, 6);
    assert_eq!(
        map,
        vec![
            (0, SpeakerPos::Reserved),
            (1, SpeakerPos::Reserved),
            (2, SpeakerPos::BackLeft),
            (3, SpeakerPos::BackRight),
            (4, SpeakerPos::SideLeft),
            (5, SpeakerPos::SideRight),
        ]
    );
}

#[test]
fn channel_map_of_five_point_one() {
    let map = channel_map_from_mask(0x33, 4);
    assert_eq!(
        map,
        vec![
            (0, SpeakerPos::FrontLeft),
            (1, SpeakerPos::FrontRight),
            (2, SpeakerPos::BackLeft),
            (3, SpeakerPos::BackRight),
        ]
    );
}

#[test]
fn channel_map_ends_with_the_mask() {
    let map = channel_map_from_mask(0x80000002, 5);
    assert_eq!(map, vec![(0, SpeakerPos::FrontRight), (1, SpeakerPos::Reserved)]);
    assert!(channel_map_from_mask(0, 3).is_empty());
    assert!(channel_map_from_mask(0xFFFFFFFF, 0).is_empty());
}

#[test]
fn channel_map_and_mask_round_trip() {
    let mask = 0x20633;
    let map = channel_map_from_mask(mask, 7);
    assert_eq!(map.len(), 7);
    assert_eq!(get_channel_mask(&map), mask);
}

#[test]
fn sample_type_names() {
    assert_eq!(sample_type_name(1), "PCM");
    assert_eq!(sample_type_name(3), "IEEE Float");
    assert_eq!(sample_type_name(6), "8-bit ITU-T G.711 A-law");
    assert_eq!(sample_type_name(7), "8-bit ITU-T G.711 \u{b5}-law");
    assert_eq!(sample_type_name(254), "Wav Extensible Format");
    assert_eq!(sample_type_name(0), "Unsupported");
    assert_eq!(sample_type_name(2), "Unsupported");
    assert_eq!(sample_type_name(255), "Unsupported");
}

#[test]
fn pcm_samples_of_sixteen_bits() {
    assert_eq!(pcm_value(&[0x00, 0x00]), Some(0));
    assert_eq!(pcm_value(&[0x01, 0x00]), Some(1));
    assert_eq!(pcm_value(&[0xff, 0x7f]), Some(32767));
    assert_eq!(pcm_value(&[0x00, 0x80]), Some(-32768));
    assert_eq!(pcm_value(&[0xff, 0xff]), Some(-1));
}

#[test]
fn pcm_samples_of_twenty_four_bits() {
    assert_eq!(pcm_value(&[0x56, 0x34, 0x12]), Some(0x123456));
    assert_eq!(pcm_value(&[0xff, 0xff, 0x7f]), Some(8388607));
    assert_eq!(pcm_value(&[0x00, 0x00, 0x80]), Some(-8388608));
    assert_eq!(pcm_value(&[0xfe, 0xff, 0xff]), Some(-2));
}

#[test]
fn pcm_samples_of_thirty_two_bits() {
    assert_eq!(pcm_value(&[0x78, 0x56, 0x34, 0x12]), Some(0x12345678));
    assert_eq!(pcm_value(&[0xff, 0xff, 0xff, 0x7f]), Some(i32::MAX));
    assert_eq!(pcm_value(&[0x00, 0x00, 0x00, 0x80]), Some(i32::MIN));
    assert_eq!(pcm_value(&[0xff, 0xff, 0xff, 0xff]), Some(-1));
}

#[test]
fn pcm_samples_of_other_sizes_are_not_decoded() {
    assert_eq!(pcm_value(&[]), None);
    assert_eq!(pcm_value(&[0x7f]), None);
    assert_eq!(pcm_value(&[1, 2, 3, 4, 5]), None);
}

#[test]
fn pcm_sample_agrees_with_standard_decoding() {
    for value in [-32768i16, -12345, -1, 0, 1, 255, 256, 12345, 32767] {
        assert_eq!(pcm_value(&value.to_le_bytes()), Some(value as i32));
    }
    for value in [i32::MIN, -70000, -1, 0, 65536, i32::MAX] {
        assert_eq!(pcm_value(&value.to_le_bytes()), Some(value));
    }
}

#[test]
fn deinterleave_stereo_sixteen_bit() {
    let data = [1u8, 0, 2, 0, 3, 0, 4, 0, 5, 0, 6, 0];
    let channels = deinterleave(&data, 2, 2, |b: &[u8]| pcm_value(b).unwrap());
    assert_eq!(channels, vec![vec![1, 3, 5], vec![2, 4, 6]]);
}

#[test]
fn deinterleave_leaves_out_an_incomplete_frame() {
    let data = [1u8, 2, 3, 4, 5, 6, 7];
    let channels = deinterleave(&data, 3, 1, |b: &[u8]| b[0]);
    assert_eq!(channels, vec![vec![1, 4], vec![2, 5], vec![3, 6]]);
}

#[test]
fn deinterleave_mono() {
    let data = [0x00u8, 0x80, 0xff, 0x7f];
    let channels = deinterleave(&data, 1, 2, |b: &[u8]| pcm_value(b).unwrap() as f32 / 32768.0);
    assert_eq!(channels, vec![vec![-1.0, 32767.0 / 32768.0]]);
}

#[test]
fn deinterleave_no_data() {
    let channels = deinterleave(&[], 2, 3, |b: &[u8]| b.len());
    assert_eq!(channels, vec![Vec::<usize>::new(), Vec::new()]);
}

#[test]
fn deinterleave_floats() {
    let samples = [0.5f32, -0.25, 0.125, 1.0];
    let data: Vec<u8> = samples.iter().flat_map(|s| s.to_le_bytes()).collect();
    let channels =
        deinterleave(&data, 2, 4, |b: &[u8]| f32::from_le_bytes([b[0], b[1], b[2], b[3]]));
    assert_eq!(channels, vec![vec![0.5, 0.125], vec![-0.25, 1.0]]);
}

#[test]
fn layout_of_plain_stereo_pcm() {
    let layout = stereo_pcm16().layout(1000).unwrap();
    assert_eq!(
        layout,
        WavLayout {
            is_extended_fmt: false,
            ext_size: 0,
            has_fact_chunk: false,
            format_tag: 1,
            channel_mask: 0x3,
            data_block_size: 4,
            data_rate: 192000,
            fmt_chunk_size: 16,
            data_chunk_size: 4000,
            file_size: 4020,
        }
    );
}

#[test]
fn layout_of_float_samples_has_an_empty_extension() {
    let info = WavWriteInfo {
        sample_type: 3,
        channels: 1,
        sample_rate: 44100,
        bit_depth: 32,
        channel_mapping: vec![(0, SpeakerPos::FrontLeft)],
    };
    let layout = info.layout(10).unwrap();
    assert!(layout.is_extended_fmt);
    assert_eq!(layout.ext_size, 0);
    assert_eq!(layout.format_tag, 3);
    assert_eq!(layout.fmt_chunk_size, 18);
    assert_eq!(layout.data_block_size, 4);
    assert_eq!(layout.data_rate, 176400);
    assert_eq!(layout.data_chunk_size, 40);
    assert_eq!(layout.file_size, 4 + 18 + 40);
    assert!(!layout.has_fact_chunk);
}

#[test]
fn layout_of_surround_pcm_is_extensible() {
    let info = WavWriteInfo {
        sample_type: 1,
        channels: 4,
        sample_rate: 48000,
        bit_depth: 24,
        channel_mapping: vec![
            (0, SpeakerPos::FrontLeft),
            (1, SpeakerPos::FrontRight),
            (2, SpeakerPos::BackLeft),
            (3, SpeakerPos::BackRight),
        ],
    };
    let layout = info.layout(100).unwrap();
    assert!(layout.is_extended_fmt);
    assert_eq!(layout.ext_size, 22);
    assert_eq!(layout.format_tag, 254);
    assert_eq!(layout.fmt_chunk_size, 40);
    assert_eq!(layout.channel_mask, 0x33);
    assert_eq!(layout.data_block_size, 12);
    assert_eq!(layout.data_rate, 576000);
    assert_eq!(layout.data_chunk_size, 1200);
    assert_eq!(layout.file_size, 4 + 40 + 1200);
}

#[test]
fn layout_of_swapped_stereo_is_extensible() {
    let mut info = stereo_pcm16();
    info.channel_mapping = vec![(1, SpeakerPos::FrontLeft), (0, SpeakerPos::FrontRight)];
    let layout = info.layout(1).unwrap();
    assert!(layout.is_extended_fmt);
    assert_eq!(layout.ext_size, 22);
    assert_eq!(layout.format_tag, 254);
}

#[test]
fn layout_of_companded_samples_has_a_fact_chunk() {
    for sample_type in [6u8, 7] {
        let info = WavWriteInfo {
            sample_type,
            channels: 1,
            sample_rate: 8000,
            bit_depth: 8,
            channel_mapping: vec![(0, SpeakerPos::FrontLeft)],
        };
        let layout = info.layout(80).unwrap();
        assert!(layout.has_fact_chunk);
        assert!(layout.is_extended_fmt);
        assert_eq!(layout.ext_size, 0);
        assert_eq!(layout.format_tag, sample_type as u16);
        assert_eq!(layout.file_size, 4 + 18 + 80 + 4);
    }
}

#[test]
fn no_layout_without_a_speaker_for_every_channel() {
    let mut info = stereo_pcm16();
    info.channel_mapping.pop();
    assert_eq!(info.layout(10), None);
    assert_eq!(info.header(10), None);
}

#[test]
fn no_layout_for_sizes_that_do_not_fit() {
    let mut info = stereo_pcm16();
    assert!(info.layout(u32::MAX / 4 - 5).is_some());
    assert_eq!(info.layout(u32::MAX / 4 - 4), None);
    info.sample_rate = u32::MAX;
    assert_eq!(info.layout(1), None);
    let wide = WavWriteInfo {
        sample_type: 1,
        channels: 255,
        sample_rate: 1,
        bit_depth: 4096,
        channel_mapping: (0..255).map(|c| (c, SpeakerPos::Reserved)).collect(),
    };
    assert_eq!(wide.layout(1), None);
}

#[test]
fn header_of_plain_stereo_pcm() {
    let header = stereo_pcm16().header(2).unwrap();
    let expected: Vec<u8> = [
        &b"RIFF"[..],
        &28u32.to_le_bytes(),
        b"WAVE",
        b"fmt ",
        &16u32.to_le_bytes(),
        &1u16.to_le_bytes(),
        &2u16.to_le_bytes(),
        &48000u32.to_le_bytes(),
        &192000u32.to_le_bytes(),
        &4u16.to_le_bytes(),
        &16u16.to_le_bytes(),
        b"data",
        &8u32.to_le_bytes(),
    ]
    .concat();
    assert_eq!(header.len(), 44);
    assert_eq!(header, expected);
}

#[test]
fn header_of_extensible_file() {
    let info = WavWriteInfo {
        sample_type: 1,
        channels: 3,
        sample_rate: 44100,
        bit_depth: 16,
        channel_mapping: vec![
            (0, SpeakerPos::FrontLeft),
            (1, SpeakerPos::FrontRight),
            (2, SpeakerPos::BackCenter),
        ],
    };
    let header = info.header(5).unwrap();
    let expected: Vec<u8> = [
        &b"RIFF"[..],
        &(4u32 + 40 + 30).to_le_bytes(),
        b"WAVE",
        b"fmt ",
        &40u32.to_le_bytes(),
        &254u16.to_le_bytes(),
        &3u16.to_le_bytes(),
        &44100u32.to_le_bytes(),
        &264600u32.to_le_bytes(),
        &6u16.to_le_bytes(),
        &16u16.to_le_bytes(),
        &22u16.to_le_bytes(),
        &16u16.to_le_bytes(),
        &0x103u32.to_le_bytes(),
        &1u16.to_le_bytes(),
        &[0x00, 0x00, 0x00, 0x00, 0x10, 0x00, 0x80, 0x00, 0x00, 0xAA, 0x00, 0x38, 0x9B, 0x71],
        b"data",
        &30u32.to_le_bytes(),
    ]
    .concat();
    assert_eq!(header, expected);
}

#[test]
fn header_with_fact_chunk() {
    let info = WavWriteInfo {
        sample_type: 7,
        channels: 1,
        sample_rate: 8000,
        bit_depth: 8,
        channel_mapping: vec![(0, SpeakerPos::FrontLeft)],
    };
    let header = info.header(160).unwrap();
    let expected: Vec<u8> = [
        &b"RIFF"[..],
        &(4u32 + 18 + 160 + 4).to_le_bytes(),
        b"WAVE",
        b"fmt ",
        &18u32.to_le_bytes(),
        &7u16.to_le_bytes(),
        &1u16.to_le_bytes(),
        &8000u32.to_le_bytes(),
        &8000u32.to_le_bytes(),
        &1u16.to_le_bytes(),
        &8u16.to_le_bytes(),
        &0u16.to_le_bytes(),
        b"fact",
        &4u32.to_le_bytes(),
        &160u32.to_le_bytes(),
        b"data",
        &160u32.to_le_bytes(),
    ]
    .concat();
    assert_eq!(header, expected);
}

#[test]
fn header_fields_read_back() {
    let header = stereo_pcm16().header(12345).unwrap();
    assert_eq!(buf_to_int(&header[4..], 4), 4 + 16 + 4 * 12345);
    assert_eq!(buf_to_int(&header[22..], 2), 2);
    assert_eq!(buf_to_int(&header[24..], 4), 48000);
    assert_eq!(buf_to_int(&header[34..], 2), 16);
    assert_eq!(buf_to_int(&header[40..], 4), 4 * 12345);
}
