//! The integer side of the WAV container: speaker positions and channel
//! masks, little-endian fields, and the layout of the header that is written.

use crate::audio::is_image_of;
use vstd::prelude::*;
use vstd::slice::slice_subrange;
use vstd::std_specs::convert::FromSpecImpl;

verus! {

/// A speaker position of the extensible WAV format. Each position owns one
/// bit of the channel mask.
#[derive(PartialEq, Eq, Structural, Clone, Copy, Debug)]
pub enum SpeakerPos {
    FrontLeft,
    FrontRight,
    BackLeft,
    BackRight,
    FrontLeftOfCenter,
    FrontRightOfCenter,
    BackCenter,
    SideLeft,
    SideRight,
    TopCenter,
    TopFrontLeft,
    TopFrontCenter,
    TopFrontRight,
    TopBackLeft,
    TopBackCenter,
    TopBackRight,
    Reserved,
}

/// The position that owns the given mask value; `Reserved` stands for every
/// value that is not the bit of another position.
pub open spec fn speaker_of_mask(value: u32) -> SpeakerPos {
    if value == 0x1 {
        SpeakerPos::FrontLeft
    } else if value == 0x2 {
        SpeakerPos::FrontRight
    } else if value == 0x10 {
        SpeakerPos::BackLeft
    } else if value == 0x20 {
        SpeakerPos::BackRight
    } else if value == 0x40 {
        SpeakerPos::FrontLeftOfCenter
    } else if value == 0x80 {
        SpeakerPos::FrontRightOfCenter
    } else if value == 0x100 {
        SpeakerPos::BackCenter
    } else if value == 0x200 {
        SpeakerPos::SideLeft
    } else if value == 0x400 {
        SpeakerPos::SideRight
    } else if value == 0x800 {
        SpeakerPos::TopCenter
    } else if value == 0x1000 {
        SpeakerPos::TopFrontLeft
    } else if value == 0x2000 {
        SpeakerPos::TopFrontCenter
    } else if value == 0x4000 {
        SpeakerPos::TopFrontRight
    } else if value == 0x8000 {
        SpeakerPos::TopBackLeft
    } else if value == 0x10000 {
        SpeakerPos::TopBackCenter
    } else if value == 0x20000 {
        SpeakerPos::TopBackRight
    } else {
        SpeakerPos::Reserved
    }
}

impl SpeakerPos {
    /// The bit of the channel mask that the position owns.
    pub open spec fn mask_bit(self) -> u32 {
        match self {
            SpeakerPos::FrontLeft => 0x1,
            SpeakerPos::FrontRight => 0x2,
            SpeakerPos::BackLeft => 0x10,
            SpeakerPos::BackRight => 0x20,
            SpeakerPos::FrontLeftOfCenter => 0x40,
            SpeakerPos::FrontRightOfCenter => 0x80,
            SpeakerPos::BackCenter => 0x100,
            SpeakerPos::SideLeft => 0x200,
            SpeakerPos::SideRight => 0x400,
            SpeakerPos::TopCenter => 0x800,
            SpeakerPos::TopFrontLeft => 0x1000,
            SpeakerPos::TopFrontCenter => 0x2000,
            SpeakerPos::TopFrontRight => 0x4000,
            SpeakerPos::TopBackLeft => 0x8000,
            SpeakerPos::TopBackCenter => 0x10000,
            SpeakerPos::TopBackRight => 0x20000,
            SpeakerPos::Reserved => 0x80000000,
        }
    }

    /// The full name of the position.
    pub open spec fn name(self) -> Seq<char> {
        match self {
            SpeakerPos::FrontLeft => "FrontLeft"@,
            SpeakerPos::FrontRight => "FrontRight"@,
            SpeakerPos::BackLeft => "BackLeft"@,
            SpeakerPos::BackRight => "BackRight"@,
            SpeakerPos::FrontLeftOfCenter => "FrontLeftOfCenter"@,
            SpeakerPos::FrontRightOfCenter => "FrontRightOfCenter"@,
            SpeakerPos::BackCenter => "BackCenter"@,
            SpeakerPos::SideLeft => "SideLeft"@,
            SpeakerPos::SideRight => "SideRight"@,
            SpeakerPos::TopCenter => "TopCenter"@,
            SpeakerPos::TopFrontLeft => "TopFrontLeft"@,
            SpeakerPos::TopFrontCenter => "TopFrontCenter"@,
            SpeakerPos::TopFrontRight => "TopFrontRight"@,
            SpeakerPos::TopBackLeft => "TopBackLeft"@,
            SpeakerPos::TopBackCenter => "TopBackCenter"@,
            SpeakerPos::TopBackRight => "TopBackRight"@,
            SpeakerPos::Reserved => "Reserved"@,
        }
    }

    /// The abbreviation of the position.
    pub open spec fn abbreviation(self) -> Seq<char> {
        match self {
            SpeakerPos::FrontLeft => "FL"@,
            SpeakerPos::FrontRight => "FR"@,
            SpeakerPos::BackLeft => "BL"@,
            SpeakerPos::BackRight => "BR"@,
            SpeakerPos::FrontLeftOfCenter => "FLC"@,
            SpeakerPos::FrontRightOfCenter => "FRC"@,
            SpeakerPos::BackCenter => "BC"@,
            SpeakerPos::SideLeft => "SL"@,
            SpeakerPos::SideRight => "SR"@,
            SpeakerPos::TopCenter => "TC"@,
            SpeakerPos::TopFrontLeft => "TFL"@,
            SpeakerPos::TopFrontCenter => "TFC"@,
            SpeakerPos::TopFrontRight => "TFR"@,
            SpeakerPos::TopBackLeft => "TBL"@,
            SpeakerPos::TopBackCenter => "TBC"@,
            SpeakerPos::TopBackRight => "TBR"@,
            SpeakerPos::Reserved => "RES"@,
        }
    }

    /// The place of the position in the standard order of channels.
    pub open spec fn location(self) -> u32 {
        match self {
            SpeakerPos::FrontLeft => 0,
            SpeakerPos::FrontRight => 1,
            SpeakerPos::BackLeft => 2,
            SpeakerPos::BackRight => 3,
            SpeakerPos::FrontLeftOfCenter => 4,
            SpeakerPos::FrontRightOfCenter => 5,
            SpeakerPos::BackCenter => 6,
            SpeakerPos::SideLeft => 7,
            SpeakerPos::SideRight => 8,
            SpeakerPos::TopCenter => 9,
            SpeakerPos::TopFrontLeft => 10,
            SpeakerPos::TopFrontCenter => 11,
            SpeakerPos::TopFrontRight => 12,
            SpeakerPos::TopBackLeft => 13,
            SpeakerPos::TopBackCenter => 14,
            SpeakerPos::TopBackRight => 15,
            SpeakerPos::Reserved => 16,
        }
    }

    /// The bit of the channel mask that the position owns.
    pub fn mask(&self) -> (r: u32)
        ensures
            r == self.mask_bit(),
    {
        match self {
            SpeakerPos::FrontLeft => 0x1,
            SpeakerPos::FrontRight => 0x2,
            SpeakerPos::BackLeft => 0x10,
            SpeakerPos::BackRight => 0x20,
            SpeakerPos::FrontLeftOfCenter => 0x40,
            SpeakerPos::FrontRightOfCenter => 0x80,
            SpeakerPos::BackCenter => 0x100,
            SpeakerPos::SideLeft => 0x200,
            SpeakerPos::SideRight => 0x400,
            SpeakerPos::TopCenter => 0x800,
            SpeakerPos::TopFrontLeft => 0x1000,
            SpeakerPos::TopFrontCenter => 0x2000,
            SpeakerPos::TopFrontRight => 0x4000,
            SpeakerPos::TopBackLeft => 0x8000,
            SpeakerPos::TopBackCenter => 0x10000,
            SpeakerPos::TopBackRight => 0x20000,
            SpeakerPos::Reserved => 0x80000000,
        }
    }

    /// The full name of the position, such as "FrontLeft".
    pub fn to_string(&self) -> (r: String)
        ensures
            r@ == self.name(),
    {
        match self {
            SpeakerPos::FrontLeft => "FrontLeft".to_owned(),
            SpeakerPos::FrontRight => "FrontRight".to_owned(),
            SpeakerPos::BackLeft => "BackLeft".to_owned(),
            SpeakerPos::BackRight => "BackRight".to_owned(),
            SpeakerPos::FrontLeftOfCenter => "FrontLeftOfCenter".to_owned(),
            SpeakerPos::FrontRightOfCenter => "FrontRightOfCenter".to_owned(),
            SpeakerPos::BackCenter => "BackCenter".to_owned(),
            SpeakerPos::SideLeft => "SideLeft".to_owned(),
            SpeakerPos::SideRight => "SideRight".to_owned(),
            SpeakerPos::TopCenter => "TopCenter".to_owned(),
            SpeakerPos::TopFrontLeft => "TopFrontLeft".to_owned(),
            SpeakerPos::TopFrontCenter => "TopFrontCenter".to_owned(),
            SpeakerPos::TopFrontRight => "TopFrontRight".to_owned(),
            SpeakerPos::TopBackLeft => "TopBackLeft".to_owned(),
            SpeakerPos::TopBackCenter => "TopBackCenter".to_owned(),
            SpeakerPos::TopBackRight => "TopBackRight".to_owned(),
            SpeakerPos::Reserved => "Reserved".to_owned(),
        }
    }

    /// The abbreviation of the position, such as "FL".
    pub fn short_name(&self) -> (r: String)
        ensures
            r@ == self.abbreviation(),
    {
        match self {
            SpeakerPos::FrontLeft => "FL".to_owned(),
            SpeakerPos::FrontRight => "FR".to_owned(),
            SpeakerPos::BackLeft => "BL".to_owned(),
            SpeakerPos::BackRight => "BR".to_owned(),
            SpeakerPos::FrontLeftOfCenter => "FLC".to_owned(),
            SpeakerPos::FrontRightOfCenter => "FRC".to_owned(),
            SpeakerPos::BackCenter => "BC".to_owned(),
            SpeakerPos::SideLeft => "SL".to_owned(),
            SpeakerPos::SideRight => "SR".to_owned(),
            SpeakerPos::TopCenter => "TC".to_owned(),
            SpeakerPos::TopFrontLeft => "TFL".to_owned(),
            SpeakerPos::TopFrontCenter => "TFC".to_owned(),
            SpeakerPos::TopFrontRight => "TFR".to_owned(),
            SpeakerPos::TopBackLeft => "TBL".to_owned(),
            SpeakerPos::TopBackCenter => "TBC".to_owned(),
            SpeakerPos::TopBackRight => "TBR".to_owned(),
            SpeakerPos::Reserved => "RES".to_owned(),
        }
    }

    /// The place of the position in the standard order of channels, from 0
    /// for the front left speaker to 16 for a reserved position.
    pub fn std_location(&self) -> (r: u32)
        ensures
            r == self.location(),
    {
        match self {
            SpeakerPos::FrontLeft => 0,
            SpeakerPos::FrontRight => 1,
            SpeakerPos::BackLeft => 2,
            SpeakerPos::BackRight => 3,
            SpeakerPos::FrontLeftOfCenter => 4,
            SpeakerPos::FrontRightOfCenter => 5,
            SpeakerPos::BackCenter => 6,
            SpeakerPos::SideLeft => 7,
            SpeakerPos::SideRight => 8,
            SpeakerPos::TopCenter => 9,
            SpeakerPos::TopFrontLeft => 10,
            SpeakerPos::TopFrontCenter => 11,
            SpeakerPos::TopFrontRight => 12,
            SpeakerPos::TopBackLeft => 13,
            SpeakerPos::TopBackCenter => 14,
            SpeakerPos::TopBackRight => 15,
            SpeakerPos::Reserved => 16,
        }
    }
}

impl From<u32> for SpeakerPos {
    /// The position that owns the given mask value.
    fn from(value: u32) -> (r: Self) {
        if value == 0x1 {
            SpeakerPos::FrontLeft
        } else if value == 0x2 {
            SpeakerPos::FrontRight
        } else if value == 0x10 {
            SpeakerPos::BackLeft
        } else if value == 0x20 {
            SpeakerPos::BackRight
        } else if value == 0x40 {
            SpeakerPos::FrontLeftOfCenter
        } else if value == 0x80 {
            SpeakerPos::FrontRightOfCenter
        } else if value == 0x100 {
            SpeakerPos::BackCenter
        } else if value == 0x200 {
            SpeakerPos::SideLeft
        } else if value == 0x400 {
            SpeakerPos::SideRight
        } else if value == 0x800 {
            SpeakerPos::TopCenter
        } else if value == 0x1000 {
            SpeakerPos::TopFrontLeft
        } else if value == 0x2000 {
            SpeakerPos::TopFrontCenter
        } else if value == 0x4000 {
            SpeakerPos::TopFrontRight
        } else if value == 0x8000 {
            SpeakerPos::TopBackLeft
        } else if value == 0x10000 {
            SpeakerPos::TopBackCenter
        } else if value == 0x20000 {
            SpeakerPos::TopBackRight
        } else {
            SpeakerPos::Reserved
        }
    }
}

impl FromSpecImpl<u32> for SpeakerPos {
    open spec fn obeys_from_spec() -> bool {
        true
    }

    open spec fn from_spec(value: u32) -> Self {
        speaker_of_mask(value)
    }
}

/// The channel mask of a mapping: the bits of all its positions together.
pub open spec fn mask_of(mapping: Seq<(u8, SpeakerPos)>) -> u32
    decreases mapping.len(),
{
    if mapping.len() == 0 {
        0
    } else {
        mask_of(mapping.drop_last()) | mapping.last().1.mask_bit()
    }
}

/// The channel mask that stands for a mapping of channels to speakers.
pub fn get_channel_mask(mapping: &Vec<(u8, SpeakerPos)>) -> (mask_num: u32)
    ensures
        mask_num == mask_of(mapping@),
{
    let mut mask_num: u32 = 0;
    let mut i: usize = 0;
    while i < mapping.len()
        invariant
            i <= mapping@.len(),
            mask_num == mask_of(mapping@.subrange(0, i as int)),
        decreases mapping@.len() - i,
    {
        proof {
            assert(mapping@.subrange(0, i + 1).drop_last() =~= mapping@.subrange(0, i as int));
        }
        mask_num = mask_num | mapping[i].1.mask();
        i += 1;
    }
    proof {
        assert(mapping@.subrange(0, i as int) =~= mapping@);
    }
    mask_num
}

/// The number that a run of bytes stands for when the first byte is the
/// least significant.
pub open spec fn le_value(bytes: Seq<u8>) -> nat
    decreases bytes.len(),
{
    if bytes.len() == 0 {
        0
    } else {
        bytes[0] as nat + 256 * le_value(bytes.drop_first())
    }
}

/// The least number that a little-endian field of `count` bytes cannot hold.
pub open spec fn le_limit(count: int) -> nat {
    if count <= 0 {
        1
    } else if count == 1 {
        0x100
    } else if count == 2 {
        0x1_0000
    } else if count == 3 {
        0x100_0000
    } else {
        0x1_0000_0000
    }
}

/// Reads the first `bytes` bytes of `buf` as an unsigned little-endian number.
pub fn buf_to_int(buf: &[u8], bytes: usize) -> (out: u32)
    requires
        bytes <= 4,
        bytes <= buf@.len(),
    ensures
        out == le_value(buf@.subrange(0, bytes as int)),
{
    let mut out: u32 = 0;
    let mut i: usize = bytes;
    while i > 0
        invariant
            i <= bytes <= 4,
            bytes <= buf@.len(),
            out == le_value(buf@.subrange(i as int, bytes as int)),
            out < le_limit(bytes - i),
        decreases i,
    {
        let byte: u32 = buf[i - 1] as u32;
        proof {
            let tail = buf@.subrange(i - 1, bytes as int);
            assert(tail.drop_first() =~= buf@.subrange(i as int, bytes as int));
            assert((out << 8) | byte == out * 256 + byte) by (bit_vector)
                requires
                    out < 0x100_0000,
                    byte < 0x100,
            ;
        }
        out = (out << 8) | byte;
        i -= 1;
    }
    out
}

/// The channels that a channel mask assigns, from bit `bit` of the mask
/// upwards, when the channels before `next` are already assigned: each set
/// bit takes the next channel, until `channels` are assigned or the mask ends.
pub open spec fn mapped_from(mask: u32, channels: int, bit: int, next: int) -> Seq<(u8, SpeakerPos)>
    decreases 32 - bit,
{
    if bit < 0 || bit >= 32 || next >= channels {
        Seq::empty()
    } else if (mask >> (bit as u32)) & 1 == 1 {
        seq![(next as u8, speaker_of_mask(1u32 << (bit as u32)))] + mapped_from(
            mask,
            channels,
            bit + 1,
            next + 1,
        )
    } else {
        mapped_from(mask, channels, bit + 1, next)
    }
}

/// Assigns the channels of a file to speakers as its channel mask says: the
/// channels, in their order, go to the positions of the set bits of the mask,
/// lowest bit first. A mask with fewer set bits than channels leaves the last
/// channels without a speaker.
pub fn channel_map_from_mask(mask: u32, channels: u8) -> (channel_map: Vec<(u8, SpeakerPos)>)
    ensures
        channel_map@ == mapped_from(mask, channels as int, 0, 0),
{
    let mut cur_map: u32 = mask;
    let mut cur_ch: u8 = 0;
    let mut channel_map: Vec<(u8, SpeakerPos)> = Vec::new();
    let mut i: u32 = 0;
    assert(mask >> 0u32 == mask) by (bit_vector);
    while cur_ch < channels && i < 32
        invariant
            i <= 32,
            cur_ch <= channels,
            cur_map == mask >> i,
            channel_map@ + mapped_from(mask, channels as int, i as int, cur_ch as int)
                == mapped_from(mask, channels as int, 0, 0),
        decreases 32 - i,
    {
        let ghost rest = mapped_from(mask, channels as int, i as int, cur_ch as int);
        let ghost sofar = channel_map@;
        proof {
            assert((mask >> i) >> 1u32 == mask >> ((i + 1) as u32)) by (bit_vector)
                requires
                    i < 32,
            ;
            assert(((mask >> i) & 1 != 0) == ((mask >> i) & 1 == 1)) by (bit_vector);
        }
        if cur_map & 1 != 0 {
            let position = SpeakerPos::from(1u32 << i);
            channel_map.push((cur_ch, position));
            proof {
                let entry = (cur_ch, speaker_of_mask(1u32 << i));
                let after = mapped_from(mask, channels as int, i + 1, cur_ch + 1);
                assert(rest == seq![entry] + after);
                assert(sofar.push(entry) + after =~= sofar + (seq![entry] + after));
            }
            cur_ch += 1;
        }
        cur_map = cur_map >> 1;
        i += 1;
    }
    proof {
        assert(channel_map@ + Seq::<(u8, SpeakerPos)>::empty() =~= channel_map@);
    }
    channel_map
}

/// The name of a sample encoding, by its format code.
pub open spec fn sample_type_label(sample_type: u8) -> Seq<char> {
    if sample_type == 1 {
        "PCM"@
    } else if sample_type == 3 {
        "IEEE Float"@
    } else if sample_type == 6 {
        "8-bit ITU-T G.711 A-law"@
    } else if sample_type == 7 {
        "8-bit ITU-T G.711 \u{b5}-law"@
    } else if sample_type == 254 {
        "Wav Extensible Format"@
    } else {
        "Unsupported"@
    }
}

/// The name of the sample encoding with the given format code, or
/// "Unsupported" for a code that the reader cannot decode.
pub fn sample_type_name(sample_type: u8) -> (r: String)
    ensures
        r@ == sample_type_label(sample_type),
{
    if sample_type == 1 {
        "PCM".to_owned()
    } else if sample_type == 3 {
        "IEEE Float".to_owned()
    } else if sample_type == 6 {
        "8-bit ITU-T G.711 A-law".to_owned()
    } else if sample_type == 7 {
        "8-bit ITU-T G.711 \u{b5}-law".to_owned()
    } else if sample_type == 254 {
        "Wav Extensible Format".to_owned()
    } else {
        "Unsupported".to_owned()
    }
}

/// What is known of a WAV file before it is written.
pub struct WavWriteInfo {
    /// The format code of the sample encoding: 1 for PCM, 3 for IEEE float,
    /// 6 for A-law, 7 for mu-law.
    pub sample_type: u8,
    pub channels: u8,
    pub sample_rate: u32,
    pub bit_depth: u16,
    /// The speaker of each channel.
    pub channel_mapping: Vec<(u8, SpeakerPos)>,
}

/// The sizes and flags of the header of a WAV file.
#[derive(PartialEq, Eq, Structural, Clone, Copy, Debug)]
pub struct WavLayout {
    /// Whether the format chunk carries an extension.
    pub is_extended_fmt: bool,
    /// The size of the extension: 22 bytes where the sub-format and the
    /// channel mask are written, else none.
    pub ext_size: u16,
    /// Whether a fact chunk precedes the data.
    pub has_fact_chunk: bool,
    /// The format code written first: that of the extensible format where
    /// the extension is written, else the sample encoding itself.
    pub format_tag: u16,
    pub channel_mask: u32,
    /// The bytes of one sample of every channel.
    pub data_block_size: u16,
    /// The bytes of one second.
    pub data_rate: u32,
    pub fmt_chunk_size: u32,
    pub data_chunk_size: u32,
    pub file_size: u32,
}

/// Channel `i` is listed at place `i`, for each of the first `channels`
/// places of the mapping.
pub open spec fn is_std_channel_map(mapping: Seq<(u8, SpeakerPos)>, channels: int) -> bool {
    forall|i: int| 0 <= i < channels ==> (#[trigger] mapping[i]).0 == i
}

impl WavWriteInfo {
    /// Whether the format chunk needs an extension: for every encoding but
    /// PCM, for more than two channels, and for a mapping that is not the
    /// standard one.
    pub open spec fn extended(&self) -> bool {
        self.sample_type != 1 || self.channels > 2 || !is_std_channel_map(
            self.channel_mapping@,
            self.channels as int,
        )
    }

    /// The size of the extension of the format chunk.
    pub open spec fn extension_size(&self) -> int {
        if self.extended() && (self.sample_type == 1 || !is_std_channel_map(
            self.channel_mapping@,
            self.channels as int,
        )) {
            22
        } else {
            0
        }
    }

    /// The bytes of one sample of every channel.
    pub open spec fn block_size(&self) -> int {
        (self.bit_depth / 8) * self.channels
    }

    /// The size of the format chunk.
    pub open spec fn format_chunk_size(&self) -> int {
        if self.extended() {
            18 + self.extension_size()
        } else {
            16
        }
    }

    /// The size that the header states for the file.
    pub open spec fn stated_file_size(&self, samples_per_channel: u32) -> int {
        4 + self.format_chunk_size() + self.block_size() * samples_per_channel + if self.sample_type
            == 6 || self.sample_type == 7 {
            4int
        } else {
            0int
        }
    }

    /// Whether the header can be written: the mapping covers every channel,
    /// and every size fits the field that holds it.
    pub open spec fn fits(&self, samples_per_channel: u32) -> bool {
        &&& self.channel_mapping@.len() >= self.channels
        &&& self.block_size() <= u16::MAX
        &&& self.sample_rate * self.block_size() <= u32::MAX
        &&& self.stated_file_size(samples_per_channel) <= u32::MAX
    }

    /// The layout of the header for `samples_per_channel` samples in each
    /// channel.
    pub open spec fn layout_of(&self, samples_per_channel: u32) -> WavLayout {
        WavLayout {
            is_extended_fmt: self.extended(),
            ext_size: self.extension_size() as u16,
            has_fact_chunk: self.sample_type == 6 || self.sample_type == 7,
            format_tag: if self.extension_size() > 0 {
                254
            } else {
                self.sample_type as u16
            },
            channel_mask: mask_of(self.channel_mapping@),
            data_block_size: self.block_size() as u16,
            data_rate: (self.sample_rate * self.block_size()) as u32,
            fmt_chunk_size: self.format_chunk_size() as u32,
            data_chunk_size: (self.block_size() * samples_per_channel) as u32,
            file_size: self.stated_file_size(samples_per_channel) as u32,
        }
    }

    /// Works out the layout of the header, or `None` where the header cannot
    /// be written.
    pub fn layout(&self, samples_per_channel: u32) -> (r: Option<WavLayout>)
        ensures
            r == if self.fits(samples_per_channel) {
                Some(self.layout_of(samples_per_channel))
            } else {
                None::<WavLayout>
            },
    {
        let channels: usize = self.channels as usize;
        if self.channel_mapping.len() < channels {
            return None;
        }
        let mut is_std: bool = true;
        let mut i: usize = 0;
        while i < channels
            invariant
                i <= channels == self.channels,
                channels <= self.channel_mapping@.len(),
                is_std == is_std_channel_map(self.channel_mapping@, i as int),
            decreases channels - i,
        {
            if self.channel_mapping[i].0 as usize != i {
                is_std = false;
            }
            i += 1;
        }
        let channel_mask: u32 = get_channel_mask(&self.channel_mapping);
        let is_extended_fmt: bool = self.sample_type != 1 || self.channels > 2 || !is_std;
        let ext_size: u16 = if is_extended_fmt && (self.sample_type == 1 || !is_std) {
            22
        } else {
            0
        };
        let has_fact_chunk: bool = self.sample_type == 6 || self.sample_type == 7;

        let per_sample: u32 = (self.bit_depth / 8) as u32;
        assert(per_sample * self.channels <= 8191 * 255) by (nonlinear_arith)
            requires
                0 <= per_sample <= 8191,
                0 <= self.channels <= 255,
        ;
        let block: u32 = per_sample * (self.channels as u32);
        if block > 0xffff {
            return None;
        }
        assert(self.sample_rate * block <= 0xffff_ffff * 0xffff) by (nonlinear_arith)
            requires
                0 <= self.sample_rate <= 0xffff_ffff,
                0 <= block <= 0xffff,
        ;
        let data_rate: u64 = (self.sample_rate as u64) * (block as u64);
        if data_rate > 0xffff_ffff {
            return None;
        }
        let fmt_chunk_size: u32 = if is_extended_fmt {
            18 + ext_size as u32
        } else {
            16
        };
        assert(block * samples_per_channel <= 0xffff * 0xffff_ffff) by (nonlinear_arith)
            requires
                0 <= block <= 0xffff,
                0 <= samples_per_channel <= 0xffff_ffff,
        ;
        let data_chunk_size: u64 = (block as u64) * (samples_per_channel as u64);
        let fact: u64 = if has_fact_chunk {
            4
        } else {
            0
        };
        let file_size: u64 = 4 + fmt_chunk_size as u64 + data_chunk_size + fact;
        if file_size > 0xffff_ffff {
            return None;
        }
        Some(
            WavLayout {
                is_extended_fmt,
                ext_size,
                has_fact_chunk,
                format_tag: if ext_size > 0 {
                    254
                } else {
                    self.sample_type as u16
                },
                channel_mask,
                data_block_size: block as u16,
                data_rate: data_rate as u32,
                fmt_chunk_size,
                data_chunk_size: data_chunk_size as u32,
                file_size: file_size as u32,
            },
        )
    }
}

/// The `count` bytes of a little-endian field that holds `value`, least
/// significant byte first. What of `value` does not fit in is left out.
pub open spec fn le_bytes(value: nat, count: nat) -> Seq<u8>
    decreases count,
{
    if count == 0 {
        Seq::empty()
    } else {
        seq![(value % 256) as u8] + le_bytes(value / 256, (count - 1) as nat)
    }
}

/// Appends `value` as a little-endian field of `count` bytes.
fn push_le(out: &mut Vec<u8>, value: u32, count: usize)
    requires
        count <= 4,
    ensures
        final(out)@ == old(out)@ + le_bytes(value as nat, count as nat),
{
    let mut rest: u32 = value;
    let mut k: usize = 0;
    let ghost mut written: Seq<u8> = Seq::empty();
    assert(out@ =~= old(out)@ + written);
    while k < count
        invariant
            k <= count,
            out@ == old(out)@ + written,
            written + le_bytes(rest as nat, (count - k) as nat) == le_bytes(
                value as nat,
                count as nat,
            ),
        decreases count - k,
    {
        let byte: u8 = (rest & 0xff) as u8;
        proof {
            assert(rest & 0xff == rest % 256 && rest >> 8 == rest / 256) by (bit_vector);
            let tail = le_bytes((rest / 256) as nat, (count - k - 1) as nat);
            assert(le_bytes(rest as nat, (count - k) as nat) == seq![byte] + tail);
            assert(written.push(byte) + tail =~= written + (seq![byte] + tail));
            assert(out@.push(byte) =~= old(out)@ + written.push(byte));
            written = written.push(byte);
        }
        out.push(byte);
        rest = rest >> 8;
        k += 1;
    }
    proof {
        assert(written + Seq::<u8>::empty() =~= written);
    }
}

/// Appends the four bytes of a chunk tag.
fn push_tag(out: &mut Vec<u8>, a: u8, b: u8, c: u8, d: u8)
    ensures
        final(out)@ == old(out)@ + seq![a, b, c, d],
{
    out.push(a);
    out.push(b);
    out.push(c);
    out.push(d);
    assert(out@ =~= old(out)@ + seq![a, b, c, d]);
}

/// The tag that opens the file, "RIFF".
pub open spec fn riff_tag() -> Seq<u8> {
    seq![0x52u8, 0x49u8, 0x46u8, 0x46u8]
}

/// The tag of the form of the file, "WAVE".
pub open spec fn wave_tag() -> Seq<u8> {
    seq![0x57u8, 0x41u8, 0x56u8, 0x45u8]
}

/// The tag of the format chunk, "fmt ".
pub open spec fn fmt_tag() -> Seq<u8> {
    seq![0x66u8, 0x6du8, 0x74u8, 0x20u8]
}

/// The tag of the fact chunk, "fact".
pub open spec fn fact_tag() -> Seq<u8> {
    seq![0x66u8, 0x61u8, 0x63u8, 0x74u8]
}

/// The tag of the data chunk, "data".
pub open spec fn data_tag() -> Seq<u8> {
    seq![0x64u8, 0x61u8, 0x74u8, 0x61u8]
}

/// The fourteen bytes that follow the format code in the sub-format of an
/// extensible file.
pub open spec fn subformat_tail() -> Seq<u8> {
    seq![
        0x00u8,
        0x00u8,
        0x00u8,
        0x00u8,
        0x10u8,
        0x00u8,
        0x80u8,
        0x00u8,
        0x00u8,
        0xAAu8,
        0x00u8,
        0x38u8,
        0x9Bu8,
        0x71u8,
    ]
}

impl WavWriteInfo {
    /// The start of the file up to the format chunk, and the fields of the
    /// format chunk that every file has.
    pub open spec fn header_base(&self, layout: WavLayout) -> Seq<u8> {
        riff_tag() + le_bytes(layout.file_size as nat, 4) + wave_tag() + fmt_tag() + le_bytes(
            layout.fmt_chunk_size as nat,
            4,
        ) + le_bytes(layout.format_tag as nat, 2) + le_bytes(self.channels as nat, 2) + le_bytes(
            self.sample_rate as nat,
            4,
        ) + le_bytes(layout.data_rate as nat, 4) + le_bytes(layout.data_block_size as nat, 2)
            + le_bytes(self.bit_depth as nat, 2)
    }

    /// The extension of the format chunk: its size and, where it is not
    /// empty, the valid bits of a sample, the channel mask and the sub-format.
    pub open spec fn header_extension(&self, layout: WavLayout) -> Seq<u8> {
        if !layout.is_extended_fmt {
            Seq::empty()
        } else if layout.ext_size == 0 {
            le_bytes(0, 2)
        } else {
            le_bytes(layout.ext_size as nat, 2) + le_bytes(self.bit_depth as nat, 2) + le_bytes(
                layout.channel_mask as nat,
                4,
            ) + le_bytes(self.sample_type as nat, 2) + subformat_tail()
        }
    }

    /// The fact chunk, which states the number of samples in each channel.
    pub open spec fn header_fact(layout: WavLayout, samples_per_channel: u32) -> Seq<u8> {
        if layout.has_fact_chunk {
            fact_tag() + le_bytes(4, 4) + le_bytes(samples_per_channel as nat, 4)
        } else {
            Seq::empty()
        }
    }

    /// Everything that precedes the samples in the file.
    pub open spec fn header_of(&self, samples_per_channel: u32) -> Seq<u8> {
        let layout = self.layout_of(samples_per_channel);
        self.header_base(layout) + self.header_extension(layout) + Self::header_fact(
            layout,
            samples_per_channel,
        ) + data_tag() + le_bytes(layout.data_chunk_size as nat, 4)
    }

    /// The bytes of the file that precede the samples: the RIFF header, the
    /// format chunk, the fact chunk where the encoding asks for one, and the
    /// head of the data chunk. `None` where the header cannot be written.
    pub fn header(&self, samples_per_channel: u32) -> (r: Option<Vec<u8>>)
        ensures
            self.fits(samples_per_channel) ==> r is Some && r->0@ == self.header_of(
                samples_per_channel,
            ),
            !self.fits(samples_per_channel) ==> r is None,
    {
        let layout = match self.layout(samples_per_channel) {
            Some(layout) => layout,
            None => {
                return None;
            },
        };
        let mut out: Vec<u8> = Vec::new();
        push_tag(&mut out, 0x52, 0x49, 0x46, 0x46);
        push_le(&mut out, layout.file_size, 4);
        push_tag(&mut out, 0x57, 0x41, 0x56, 0x45);
        push_tag(&mut out, 0x66, 0x6d, 0x74, 0x20);
        push_le(&mut out, layout.fmt_chunk_size, 4);
        push_le(&mut out, layout.format_tag as u32, 2);
        push_le(&mut out, self.channels as u32, 2);
        push_le(&mut out, self.sample_rate, 4);
        push_le(&mut out, layout.data_rate, 4);
        push_le(&mut out, layout.data_block_size as u32, 2);
        push_le(&mut out, self.bit_depth as u32, 2);
        assert(out@ =~= self.header_base(layout));
        let ghost base = out@;
        if layout.is_extended_fmt {
            push_le(&mut out, layout.ext_size as u32, 2);
            if layout.ext_size > 0 {
                push_le(&mut out, self.bit_depth as u32, 2);
                push_le(&mut out, layout.channel_mask, 4);
                push_le(&mut out, self.sample_type as u32, 2);
                push_tag(&mut out, 0x00, 0x00, 0x00, 0x00);
                push_tag(&mut out, 0x10, 0x00, 0x80, 0x00);
                push_tag(&mut out, 0x00, 0xAA, 0x00, 0x38);
                out.push(0x9B);
                out.push(0x71);
            }
        }
        assert(out@ =~= base + self.header_extension(layout));
        let ghost extended = out@;
        if layout.has_fact_chunk {
            push_tag(&mut out, 0x66, 0x61, 0x63, 0x74);
            push_le(&mut out, 4, 4);
            push_le(&mut out, samples_per_channel, 4);
        }
        assert(out@ =~= extended + Self::header_fact(layout, samples_per_channel));
        push_tag(&mut out, 0x64, 0x61, 0x74, 0x61);
        push_le(&mut out, layout.data_chunk_size, 4);
        Some(out)
    }
}

/// The signed number that a little-endian two's-complement field of `count`
/// bytes stands for, given what it stands for when read as unsigned.
pub open spec fn signed_value(unsigned: int, count: int) -> int {
    if 2 * unsigned >= le_limit(count) {
        unsigned - le_limit(count)
    } else {
        unsigned
    }
}

/// Decodes one PCM sample of 16, 24 or 32 bits: a little-endian
/// two's-complement number. Other sizes are not PCM samples that can be
/// decoded.
pub fn pcm_value(bytes: &[u8]) -> (r: Option<i32>)
    ensures
        r == if 2 <= bytes@.len() <= 4 {
            Some(signed_value(le_value(bytes@) as int, bytes@.len() as int) as i32)
        } else {
            None::<i32>
        },
        r is Some ==> r->0 == signed_value(le_value(bytes@) as int, bytes@.len() as int),
{
    let count: usize = bytes.len();
    if count < 2 || count > 4 {
        return None;
    }
    assert(bytes@.subrange(0, count as int) =~= bytes@);
    let unsigned: i64 = buf_to_int(bytes, count) as i64;
    proof {
        lemma_le_value_bound(bytes@);
    }
    let limit: i64 = if count == 2 {
        0x1_0000
    } else if count == 3 {
        0x100_0000
    } else {
        0x1_0000_0000
    };
    if 2 * unsigned >= limit {
        Some((unsigned - limit) as i32)
    } else {
        Some(unsigned as i32)
    }
}

/// A field of up to four bytes holds a number below the limit of its size.
pub proof fn lemma_le_value_bound(bytes: Seq<u8>)
    requires
        bytes.len() <= 4,
    ensures
        le_value(bytes) < le_limit(bytes.len() as int),
    decreases bytes.len(),
{
    if bytes.len() > 0 {
        lemma_le_value_bound(bytes.drop_first());
    }
}

/// The number of frames, that is of samples per channel, that `len` bytes of
/// interleaved samples hold.
pub open spec fn frame_count(len: int, channels: int, sample_size: int) -> int {
    (len / channels) / sample_size
}

/// The bytes of the sample of channel `j` in frame `i`.
pub open spec fn sample_bytes(
    data: Seq<u8>,
    channels: int,
    sample_size: int,
    j: int,
    i: int,
) -> Seq<u8> {
    data.subrange((i * channels + j) * sample_size, (i * channels + j) * sample_size + sample_size)
}

/// Every sample of every whole frame lies inside the data.
pub proof fn lemma_sample_in_range(len: int, channels: int, sample_size: int, j: int, i: int)
    requires
        len >= 0,
        channels > 0,
        sample_size > 0,
        0 <= j < channels,
        0 <= i < frame_count(len, channels, sample_size),
    ensures
        0 <= (i * channels + j) * sample_size,
        (i * channels + j) * sample_size + sample_size <= len,
{
    let per_channel = len / channels;
    let frames = per_channel / sample_size;
    vstd::arithmetic::div_mod::lemma_fundamental_div_mod(len, channels);
    vstd::arithmetic::div_mod::lemma_fundamental_div_mod(per_channel, sample_size);
    vstd::arithmetic::div_mod::lemma_mod_bound(len, channels);
    vstd::arithmetic::div_mod::lemma_mod_bound(per_channel, sample_size);
    assert(per_channel >= 0) by (nonlinear_arith)
        requires
            len == channels * per_channel + len % channels,
            0 <= len % channels < channels,
            len >= 0,
    ;
    assert(frames * sample_size <= per_channel) by (nonlinear_arith)
        requires
            per_channel == sample_size * frames + per_channel % sample_size,
            0 <= per_channel % sample_size,
    ;
    assert(i * channels + j + 1 <= frames * channels && i * channels + j >= 0) by (nonlinear_arith)
        requires
            0 <= i < frames,
            0 <= j < channels,
    ;
    assert((i * channels + j) * sample_size + sample_size <= frames * channels * sample_size && (i
        * channels + j) * sample_size >= 0) by (nonlinear_arith)
        requires
            0 <= i * channels + j,
            i * channels + j + 1 <= frames * channels,
            sample_size > 0,
    ;
    assert(frames * channels * sample_size <= channels * per_channel) by (nonlinear_arith)
        requires
            frames * sample_size <= per_channel,
            channels > 0,
    ;
}

/// Splits interleaved samples into channels. The data holds frame after
/// frame, and each frame one sample of `sample_size` bytes for each channel
/// in turn; bytes after the last whole frame are left out. Sample `i` of
/// channel `j` is what `decode` makes of the bytes of channel `j` in frame `i`.
pub fn deinterleave<T, F: Fn(&[u8]) -> T>(
    data: &[u8],
    channels: usize,
    sample_size: usize,
    decode: F,
) -> (output: Vec<Vec<T>>)
    requires
        channels > 0,
        sample_size > 0,
        forall|w: &[u8]| w@.len() == sample_size ==> call_requires(decode, (w,)),
    ensures
        output@.len() == channels,
        forall|j: int|
            0 <= j < channels ==> (#[trigger] output@[j])@.len() == frame_count(
                data@.len() as int,
                channels as int,
                sample_size as int,
            ),
        forall|j: int, i: int|
            #![trigger output@[j]@[i]]
            0 <= j < channels && 0 <= i < frame_count(
                data@.len() as int,
                channels as int,
                sample_size as int,
            ) ==> is_image_of(
                decode,
                sample_bytes(data@, channels as int, sample_size as int, j, i),
                output@[j]@[i],
            ),
{
    let len: usize = data.len();
    let frames: usize = len / channels / sample_size;
    let mut output: Vec<Vec<T>> = Vec::with_capacity(channels);
    let mut j: usize = 0;
    while j < channels
        invariant
            j <= channels,
            channels > 0,
            sample_size > 0,
            len == data@.len(),
            frames == frame_count(data@.len() as int, channels as int, sample_size as int),
            forall|w: &[u8]| w@.len() == sample_size ==> call_requires(decode, (w,)),
            output@.len() == j,
            forall|c: int| 0 <= c < j ==> (#[trigger] output@[c])@.len() == frames,
            forall|c: int, i: int|
                #![trigger output@[c]@[i]]
                0 <= c < j && 0 <= i < frames ==> is_image_of(
                    decode,
                    sample_bytes(data@, channels as int, sample_size as int, c, i),
                    output@[c]@[i],
                ),
        decreases channels - j,
    {
        let mut channel: Vec<T> = Vec::with_capacity(frames);
        let mut i: usize = 0;
        while i < frames
            invariant
                i <= frames,
                j < channels,
                sample_size > 0,
                len == data@.len(),
                frames == frame_count(data@.len() as int, channels as int, sample_size as int),
                forall|w: &[u8]| w@.len() == sample_size ==> call_requires(decode, (w,)),
                channel@.len() == i,
                forall|k: int|
                    0 <= k < i ==> is_image_of(
                        decode,
                        sample_bytes(data@, channels as int, sample_size as int, j as int, k),
                        #[trigger] channel@[k],
                    ),
            decreases frames - i,
        {
            proof {
                lemma_sample_in_range(
                    data@.len() as int,
                    channels as int,
                    sample_size as int,
                    j as int,
                    i as int,
                );
                assert(i * channels + j >= 0 && i * channels >= 0) by (nonlinear_arith)
                    requires
                        i >= 0,
                        channels > 0,
                        j >= 0,
                ;
                assert(i * channels + j <= (i * channels + j) * sample_size) by (nonlinear_arith)
                    requires
                        i * channels + j >= 0,
                        sample_size >= 1,
                ;
                assert(i * channels <= i * channels + j);
            }
            let at: usize = (i * channels + j) * sample_size;
            let bytes = slice_subrange(data, at, at + sample_size);
            let sample = decode(bytes);
            channel.push(sample);
            i += 1;
        }
        output.push(channel);
        j += 1;
    }
    output
}

} // verus!
