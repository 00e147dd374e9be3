//! Video codecs, encoder backends and the encoders that serve them.

use vstd::prelude::*;

use crate::text;

verus! {

#[derive(Debug, Clone, Copy, PartialEq, Eq, Structural)]
pub enum Codec {
    H264,
    H265,
    VP9,
    AV1,
}

impl Default for Codec {
    fn default() -> (c: Codec)
        ensures
            c == Codec::H264,
    {
        Codec::H264
    }
}

impl Codec {
    /// The codec's short name.
    pub open spec fn name(self) -> Seq<char> {
        match self {
            Codec::H264 => "h264"@,
            Codec::H265 => "h265"@,
            Codec::VP9 => "vp9"@,
            Codec::AV1 => "av1"@,
        }
    }

    /// A codec's name without what does not count: case, dots and dashes.
    pub open spec fn normalized(s: Seq<char>) -> Seq<char> {
        text::without(text::lowercase(s), seq!['.', '-'])
    }

    /// The codec that a user means by `s`.
    pub open spec fn meant_by(s: Seq<char>) -> Option<Codec> {
        let t = Codec::normalized(s);
        if t == "h264"@ || t == "avc"@ || t == "x264"@ {
            Some(Codec::H264)
        } else if t == "h265"@ || t == "hevc"@ || t == "x265"@ {
            Some(Codec::H265)
        } else if t == "vp9"@ {
            Some(Codec::VP9)
        } else if t == "av1"@ || t == "aom"@ {
            Some(Codec::AV1)
        } else {
            None
        }
    }

    /// FFmpeg's software encoder.
    pub open spec fn cpu_encoder(self) -> Seq<char> {
        match self {
            Codec::H264 => "libx264"@,
            Codec::H265 => "libx265"@,
            Codec::VP9 => "libvpx-vp9"@,
            Codec::AV1 => "libaom-av1"@,
        }
    }

    /// The hardware encoders worth trying, best first.
    pub open spec fn hardware_encoders(self) -> Seq<Seq<char>> {
        match self {
            Codec::H264 => seq!["h264_nvenc"@, "h264_amf"@],
            Codec::H265 => seq!["hevc_nvenc"@, "hevc_amf"@],
            Codec::VP9 => seq!["libvpx-vp9"@],
            Codec::AV1 => seq!["av1_nvenc"@, "av1_qsv"@],
        }
    }

    /// Container extension for output files.
    pub open spec fn container(self) -> Seq<char> {
        match self {
            Codec::H264 | Codec::H265 => "mp4"@,
            Codec::VP9 => "webm"@,
            Codec::AV1 => "mkv"@,
        }
    }

    pub fn all() -> (r: &'static [Codec])
        ensures
            r@ == seq![Codec::H264, Codec::H265, Codec::VP9, Codec::AV1],
    {
        &[Codec::H264, Codec::H265, Codec::VP9, Codec::AV1]
    }

    pub fn as_str(&self) -> (r: &'static str)
        ensures
            r@ == self.name(),
    {
        match self {
            Codec::H264 => "h264",
            Codec::H265 => "h265",
            Codec::VP9 => "vp9",
            Codec::AV1 => "av1",
        }
    }

    /// The codec that a user means by `s`. Case, dots and dashes do not count: a
    /// name means the same codec as the name without them, which has nothing
    /// more to lose.
    pub fn from_name(s: &str) -> (r: Option<Codec>)
        ensures
            r == Codec::meant_by(s@),
            r == Codec::meant_by(Codec::normalized(s@)),
            Codec::normalized(Codec::normalized(s@)) == Codec::normalized(s@),
    {
        let lower = text::to_lowercase(s);
        let t = text::remove_chars(lower.as_str(), ".-");
        proof {
            reveal_strlit(".-");
            assert(".-"@ =~= seq!['.', '-']);
            text::lemma_without_members(lower@, seq!['.', '-']);
            assert(text::made_of(t@, lower@));
            text::lemma_without_fixed(t@, seq!['.', '-']);
        }
        let t = t.as_str();
        if text::same(t, "h264") || text::same(t, "avc") || text::same(t, "x264") {
            Some(Codec::H264)
        } else if text::same(t, "h265") || text::same(t, "hevc") || text::same(t, "x265") {
            Some(Codec::H265)
        } else if text::same(t, "vp9") {
            Some(Codec::VP9)
        } else if text::same(t, "av1") || text::same(t, "aom") {
            Some(Codec::AV1)
        } else {
            None
        }
    }

    /// FFmpeg encoder name for CPU (libx) encoders.
    pub fn ffmpeg_cpu(&self) -> (r: &'static str)
        ensures
            r@ == self.cpu_encoder(),
    {
        match self {
            Codec::H264 => "libx264",
            Codec::H265 => "libx265",
            Codec::VP9 => "libvpx-vp9",
            Codec::AV1 => "libaom-av1",
        }
    }

    /// Recommended GPU encoder name (NVENC). `None` when no reliable GPU
    /// encoder is known for the codec.
    pub fn ffmpeg_gpu(&self) -> (r: Option<&'static str>)
        ensures
            match r {
                Some(name) => *self != Codec::VP9 && name@ == self.hardware_encoders()[0],
                None => *self == Codec::VP9,
            },
    {
        match self {
            Codec::H264 => Some("h264_nvenc"),
            Codec::H265 => Some("hevc_nvenc"),
            Codec::VP9 => None,
            Codec::AV1 => Some("av1_nvenc"),
        }
    }

    /// The encoder to try when the recommended one does not work.
    pub fn ffmpeg_gpu_fallback(&self) -> (r: &'static str)
        ensures
            r@ == self.hardware_encoders().last(),
    {
        match self {
            Codec::H264 => "h264_amf",
            Codec::H265 => "hevc_amf",
            Codec::VP9 => "libvpx-vp9",
            Codec::AV1 => "av1_qsv",
        }
    }

    /// Container extension for output files.
    pub fn extension(&self) -> (r: &'static str)
        ensures
            r@ == self.container(),
    {
        match self {
            Codec::H264 | Codec::H265 => "mp4",
            Codec::VP9 => "webm",
            Codec::AV1 => "mkv",
        }
    }

    pub fn is_gpu_encodable(&self) -> (r: bool)
        ensures
            r == (*self != Codec::VP9),
    {
        !matches!(self, Codec::VP9)
    }
}

#[derive(Debug, Clone, Copy, PartialEq, Eq, Structural)]
pub enum EncoderBackend {
    Auto,
    Cpu,
    Gpu,
}

impl Default for EncoderBackend {
    fn default() -> (b: EncoderBackend)
        ensures
            b == EncoderBackend::Auto,
    {
        EncoderBackend::Auto
    }
}

/// Every codec is found again by its own short name.
pub proof fn codec_name_round_trip(c: Codec)
    ensures
        Codec::meant_by(c.name()) == Some(c),
{
    let n = c.name();
    reveal_strlit("h264");
    reveal_strlit("h265");
    reveal_strlit("vp9");
    reveal_strlit("av1");
    reveal_strlit("avc");
    reveal_strlit("x264");
    reveal_strlit("hevc");
    reveal_strlit("x265");
    reveal_strlit("aom");
    text::lemma_lowercase_fixed(n);
    text::lemma_without_fixed(n, seq!['.', '-']);
    assert("h264"@[3] != "h265"@[3]);
    assert("x264"@[0] != "h265"@[0]);
    assert("avc"@[0] != "vp9"@[0]);
    assert("avc"@[1] != "av1"@[1] || "avc"@[2] != "av1"@[2]);
}

/// Case does not count in a codec's name, and neither does a dot or a dash,
/// wherever it stands.
pub proof fn dots_and_dashes_do_not_count(s: Seq<char>, i: int, mark: char)
    requires
        text::all_ascii(s),
        0 <= i <= s.len(),
        mark == '.' || mark == '-',
    ensures
        Codec::meant_by(s.insert(i, mark)) == Codec::meant_by(s),
        Codec::meant_by(text::lowercase(s)) == Codec::meant_by(s),
{
    let drop = seq!['.', '-'];
    let more = s.insert(i, mark);
    assert(drop[0] == '.' && drop[1] == '-');
    assert forall|k: int| 0 <= k < more.len() implies (#[trigger] more[k] as int) < 128 by {
        if k < i {
            assert(more[k] == s[k]);
        } else if k > i {
            assert(more[k] == s[k - 1]);
        }
    }
    let low = text::lowercase(s);
    assert(text::lowercase(more) =~= low.insert(i, mark));
    text::lemma_without_insert(low, i, mark, drop);
    assert forall|k: int| 0 <= k < low.len() implies (#[trigger] low[k] as int) < 128 && !('A'
        <= low[k] <= 'Z') by {
        assert((s[k] as int) < 128);
        assert(low[k] == text::lower_char(s[k]));
    }
    text::lemma_lowercase_fixed(low);
}

/// Every name that means a codec is one of nine, written in whatever case and
/// with whatever dots and dashes.
pub proof fn nine_names_mean_a_codec(s: Seq<char>)
    ensures
        ({
            let t = text::without(text::lowercase(s), seq!['.', '-']);
            match Codec::meant_by(s) {
                Some(Codec::H264) => seq!["h264"@, "avc"@, "x264"@].contains(t),
                Some(Codec::H265) => seq!["h265"@, "hevc"@, "x265"@].contains(t),
                Some(Codec::VP9) => t == "vp9"@,
                Some(Codec::AV1) => seq!["av1"@, "aom"@].contains(t),
                None => !seq![
                    "h264"@,
                    "avc"@,
                    "x264"@,
                    "h265"@,
                    "hevc"@,
                    "x265"@,
                    "vp9"@,
                    "av1"@,
                    "aom"@,
                ].contains(t),
            }
        }),
{
    let t = text::without(text::lowercase(s), seq!['.', '-']);
    let a = seq!["h264"@, "avc"@, "x264"@];
    let b = seq!["h265"@, "hevc"@, "x265"@];
    let c = seq!["av1"@, "aom"@];
    assert(a[0] == "h264"@ && a[1] == "avc"@ && a[2] == "x264"@);
    assert(b[0] == "h265"@ && b[1] == "hevc"@ && b[2] == "x265"@);
    assert(c[0] == "av1"@ && c[1] == "aom"@);
}

/// A codec's encoders make that codec: their names say so. Software comes from a
/// library; in hardware there are two to try, NVENC before the other, except
/// for VP9, which has none.
pub proof fn encoders_make_their_codec(c: Codec)
    ensures
        c is H264 ==> text::holds(c.cpu_encoder(), "264"@),
        c is H265 ==> text::holds(c.cpu_encoder(), "265"@),
        c is VP9 ==> text::holds(c.cpu_encoder(), "vp9"@),
        c is AV1 ==> text::holds(c.cpu_encoder(), "av1"@),
        text::begins(c.cpu_encoder(), "lib"@),
        c is VP9 ==> c.hardware_encoders() == seq![c.cpu_encoder()],
        !(c is VP9) ==> {
            let maker = if c is H264 {
                "h264_"@
            } else if c is H265 {
                "hevc_"@
            } else {
                "av1_"@
            };
            &&& c.hardware_encoders().len() == 2
            &&& c.hardware_encoders()[0] == maker + "nvenc"@
            &&& c.hardware_encoders()[1] == maker + if c is AV1 {
                "qsv"@
            } else {
                "amf"@
            }
        },
{
    reveal_strlit("264");
    reveal_strlit("265");
    reveal_strlit("vp9");
    reveal_strlit("av1");
    reveal_strlit("lib");
    reveal_strlit("libx264");
    reveal_strlit("libx265");
    reveal_strlit("libvpx-vp9");
    reveal_strlit("libaom-av1");
    reveal_strlit("h264_");
    reveal_strlit("hevc_");
    reveal_strlit("av1_");
    reveal_strlit("nvenc");
    reveal_strlit("amf");
    reveal_strlit("qsv");
    reveal_strlit("h264_nvenc");
    reveal_strlit("h264_amf");
    reveal_strlit("hevc_nvenc");
    reveal_strlit("hevc_amf");
    reveal_strlit("av1_nvenc");
    reveal_strlit("av1_qsv");
    let e = c.cpu_encoder();
    assert(e.take(3) =~= "lib"@);
    match c {
        Codec::H264 => {
            assert(e.subrange(4, 7) =~= "264"@);
            assert(text::stands_at(e, "264"@, 4));
            assert("h264_nvenc"@ =~= "h264_"@ + "nvenc"@);
            assert("h264_amf"@ =~= "h264_"@ + "amf"@);
        },
        Codec::H265 => {
            assert(e.subrange(4, 7) =~= "265"@);
            assert(text::stands_at(e, "265"@, 4));
            assert("hevc_nvenc"@ =~= "hevc_"@ + "nvenc"@);
            assert("hevc_amf"@ =~= "hevc_"@ + "amf"@);
        },
        Codec::VP9 => {
            assert(e.subrange(7, 10) =~= "vp9"@);
            assert(text::stands_at(e, "vp9"@, 7));
            assert(c.hardware_encoders() =~= seq![e]);
        },
        Codec::AV1 => {
            assert(e.subrange(7, 10) =~= "av1"@);
            assert(text::stands_at(e, "av1"@, 7));
            assert("av1_nvenc"@ =~= "av1_"@ + "nvenc"@);
            assert("av1_qsv"@ =~= "av1_"@ + "qsv"@);
        },
    }
}

/// H.264 and H.265 go into MP4 files, VP9 into WebM and AV1 into Matroska.
pub proof fn files_fit_their_codec(c: Codec)
    ensures
        c is H264 || c is H265 <==> c.container() == "mp4"@,
        c is VP9 <==> c.container() == "webm"@,
        c is AV1 <==> c.container() == "mkv"@,
{
    reveal_strlit("mp4");
    reveal_strlit("webm");
    reveal_strlit("mkv");
    assert("mp4"@[1] == 'p' && "mkv"@[1] == 'k' && "webm"@.len() == 4);
}

} // verus!
