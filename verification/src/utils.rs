//! Finding FFmpeg and an encoder that works, and naming outputs by time.

use vstd::prelude::*;

use crate::codec::{Codec, EncoderBackend};
use crate::text;

verus! {

// ---------------------------------------------------------------------------
// Names by time
// ---------------------------------------------------------------------------

/// Whether `s` is a local time: a year of four characters or more, then
/// `-MM-DD_HH-MM-SS`.
pub open spec fn is_stamp(s: Seq<char>) -> bool {
    let n = s.len() as int;
    &&& n >= 19
    &&& forall|i: int|
        0 <= i < n - 15 ==> text::is_digit(#[trigger] s[i]) || s[i] == '+' || s[i] == '-'
    &&& s[n - 15] == '-'
    &&& text::is_digit(s[n - 14]) && text::is_digit(s[n - 13])
    &&& s[n - 12] == '-'
    &&& text::is_digit(s[n - 11]) && text::is_digit(s[n - 10])
    &&& s[n - 9] == '_'
    &&& text::is_digit(s[n - 8]) && text::is_digit(s[n - 7])
    &&& s[n - 6] == '-'
    &&& text::is_digit(s[n - 5]) && text::is_digit(s[n - 4])
    &&& s[n - 3] == '-'
    &&& text::is_digit(s[n - 2]) && text::is_digit(s[n - 1])
}

/// `chrono::Local::now` through `DateTime::format`: the local time, as year,
/// month, day, hour, minute and second. Which time it is depends on the clock
/// and the time zone, so only the form is stated. A year outside 0..=9999
/// carries a sign; all other fields have two digits.
#[verifier::external_body]
fn local_stamp() -> (out: String)
    ensures
        is_stamp(out@),
{
    chrono::Local::now().format("%Y-%m-%d_%H-%M-%S").to_string()
}

/// `kind_stamp`, with a prefix in front where there is one.
pub open spec fn stamped(prefix: Seq<char>, kind: Seq<char>, stamp: Seq<char>) -> Seq<char> {
    if prefix.len() == 0 {
        kind + "_"@ + stamp
    } else {
        prefix + "_"@ + kind + "_"@ + stamp
    }
}

/// The base name for a file made at a given time.
pub fn base_at(prefix: &str, kind: &str, stamp: &str) -> (out: String)
    ensures
        out@ == stamped(prefix@, kind@, stamp@),
{
    proof {
        reveal_strlit("");
    }
    let mut out = String::new();
    if !text::same(prefix, "") {
        out.append(prefix);
        out.append("_");
    }
    assert(prefix@.len() == 0 ==> prefix@ =~= ""@);
    out.append(kind);
    out.append("_");
    out.append(stamp);
    assert(out@ =~= stamped(prefix@, kind@, stamp@));
    out
}

/// Base name for clip files, e.g. `clip_2025-01-01_12-00-00`.
pub fn timestamped_base(prefix: &str, kind: &str) -> (out: String)
    ensures
        exists|stamp: Seq<char>| #[trigger] is_stamp(stamp) && out@ == stamped(prefix@, kind@, stamp),
{
    let stamp = local_stamp();
    base_at(prefix, kind, stamp.as_str())
}

// ---------------------------------------------------------------------------
// Encoders
// ---------------------------------------------------------------------------

/// Whether hardware encoders are tried.
pub open spec fn wants_gpu(codec: Codec, backend: EncoderBackend) -> bool {
    match backend {
        EncoderBackend::Auto => codec != Codec::VP9,
        EncoderBackend::Cpu => false,
        EncoderBackend::Gpu => true,
    }
}

/// The encoders tried when hardware encoding is wanted, best first.
pub fn gpu_candidates(codec: Codec) -> (r: Vec<&'static str>)
    ensures
        r@.len() == codec.hardware_encoders().len(),
        forall|i: int| 0 <= i < r@.len() ==> (#[trigger] r@[i])@ == codec.hardware_encoders()[i],
{
    let mut r: Vec<&'static str> = Vec::new();
    if let Some(nv) = codec.ffmpeg_gpu() {
        r.push(nv);
    }
    r.push(codec.ffmpeg_gpu_fallback());
    r
}

/// The next step in the choice of an encoder.
#[derive(Debug)]
pub enum EncoderChoice {
    /// This encoder serves.
    Use(String),
    /// It has to be found out whether this encoder works.
    Try(String),
    /// Hardware encoding was asked for and no hardware encoder works.
    NoGpu,
}

/// The first of the probes that worked, or the number of probes.
pub open spec fn first_working(probes: Seq<bool>) -> int
    decreases probes.len(),
{
    if probes.len() == 0 || probes[0] {
        0
    } else {
        1 + first_working(probes.drop_first())
    }
}

proof fn lemma_first_working(probes: Seq<bool>, i: int)
    requires
        0 <= i <= probes.len(),
        forall|k: int| 0 <= k < i ==> !#[trigger] probes[k],
        i < probes.len() ==> probes[i],
    ensures
        first_working(probes) == i,
    decreases probes.len(),
{
    if i > 0 {
        let rest = probes.drop_first();
        assert(!probes[0]);
        assert forall|k: int| 0 <= k < i - 1 implies !#[trigger] rest[k] by {
            assert(!probes[k + 1]);
        }
        lemma_first_working(rest, i - 1);
    }
}

/// Resolve an encoder name for a given codec/backend, preferring GPU when
/// supported. `probes` holds what the tries of the hardware encoders gave so
/// far, in order.
pub fn pick_encoder(codec: Codec, backend: EncoderBackend, probes: &Vec<bool>) -> (r: EncoderChoice)
    requires
        probes@.len() <= codec.hardware_encoders().len(),
    ensures
        ({
            let cands = codec.hardware_encoders();
            let k = first_working(probes@);
            match r {
                EncoderChoice::Use(e) => if wants_gpu(codec, backend) && k < probes@.len() {
                    e@ == cands[k]
                } else {
                    e@ == codec.cpu_encoder() && (wants_gpu(codec, backend) ==> k == cands.len()
                        && backend !is Gpu)
                },
                EncoderChoice::Try(e) => wants_gpu(codec, backend) && k == probes@.len() && k
                    < cands.len() && e@ == cands[k],
                EncoderChoice::NoGpu => wants_gpu(codec, backend) && k == cands.len()
                    && backend is Gpu,
            }
        }),
{
    let need_gpu = match backend {
        EncoderBackend::Auto => codec.is_gpu_encodable(),
        EncoderBackend::Cpu => false,
        EncoderBackend::Gpu => true,
    };
    if !need_gpu {
        return EncoderChoice::Use(codec.ffmpeg_cpu().to_owned());
    }
    let cands = gpu_candidates(codec);
    let mut k: usize = 0;
    while k < probes.len() && !probes[k]
        invariant
            k <= probes@.len(),
            forall|j: int| 0 <= j < k ==> !#[trigger] probes@[j],
        decreases probes@.len() - k,
    {
        k += 1;
    }
    proof {
        lemma_first_working(probes@, k as int);
    }
    if k < probes.len() {
        return EncoderChoice::Use(cands[k].to_owned());
    }
    if k < cands.len() {
        return EncoderChoice::Try(cands[k].to_owned());
    }
    match backend {
        EncoderBackend::Gpu => EncoderChoice::NoGpu,
        _ => EncoderChoice::Use(codec.ffmpeg_cpu().to_owned()),
    }
}

// ---------------------------------------------------------------------------
// FFmpeg
// ---------------------------------------------------------------------------

/// Why there is no FFmpeg to run.
#[derive(Debug, Clone, Copy, PartialEq, Eq, Structural)]
pub enum FfmpegError {
    /// The configured program does not run.
    DoesNotRun,
    /// There is no file at the configured path.
    DoesNotExist,
    /// None is configured and none was found.
    NotFound,
}

/// What the search for FFmpeg does next.
#[derive(Debug)]
pub enum FfmpegStep {
    /// This program is the one to run.
    Use(String),
    /// It has to be seen whether this program is there and runs.
    Try(String),
    /// There is none.
    Fail(FfmpegError),
}

/// The program that the search of `PATH` gave: where it lies, or else its name
/// alone, which runs it from `PATH`.
pub open spec fn from_path(which: Option<String>) -> Seq<char> {
    match which {
        Some(p) => p@,
        None => "ffmpeg"@,
    }
}

/// Locate a usable ffmpeg binary. `exists` and `works` speak of the configured
/// path. Where none is configured, `PATH` comes first: `on_path` says whether
/// the program that it gives runs, `which` where that one lies. After that come
/// the candidates, in order; `tried` holds what trying them gave so far.
pub fn find_ffmpeg(
    configured: &str,
    exists: bool,
    works: bool,
    on_path: bool,
    which: Option<String>,
    candidates: &Vec<String>,
    tried: &Vec<bool>,
) -> (r: FfmpegStep)
    requires
        tried@.len() <= candidates@.len(),
    ensures
        ({
            let k = first_working(tried@);
            if configured@.len() > 0 {
                if !exists {
                    r == FfmpegStep::Fail(FfmpegError::DoesNotExist)
                } else if !works {
                    r == FfmpegStep::Fail(FfmpegError::DoesNotRun)
                } else {
                    r matches FfmpegStep::Use(p) && p@ == configured@
                }
            } else if on_path {
                r matches FfmpegStep::Use(p) && p@ == from_path(which)
            } else if k < tried@.len() {
                r matches FfmpegStep::Use(p) && p@ == candidates@[k]@
            } else if k < candidates@.len() {
                r matches FfmpegStep::Try(p) && p@ == candidates@[k]@
            } else {
                r == FfmpegStep::Fail(FfmpegError::NotFound)
            }
        }),
{
    proof {
        reveal_strlit("");
    }
    if !text::same(configured, "") {
        assert(configured@.len() > 0) by {
            if configured@.len() == 0 {
                assert(configured@ =~= ""@);
            }
        }
        if !exists {
            return FfmpegStep::Fail(FfmpegError::DoesNotExist);
        }
        if !works {
            return FfmpegStep::Fail(FfmpegError::DoesNotRun);
        }
        return FfmpegStep::Use(configured.to_owned());
    }
    if on_path {
        return match which {
            Some(p) => FfmpegStep::Use(p),
            None => FfmpegStep::Use("ffmpeg".to_owned()),
        };
    }
    let mut k: usize = 0;
    while k < tried.len() && !tried[k]
        invariant
            k <= tried@.len(),
            forall|j: int| 0 <= j < k ==> !#[trigger] tried@[j],
        decreases tried@.len() - k,
    {
        k += 1;
    }
    proof {
        lemma_first_working(tried@, k as int);
    }
    if k < tried.len() {
        return FfmpegStep::Use(candidates[k].clone());
    }
    if k < candidates.len() {
        return FfmpegStep::Try(candidates[k].clone());
    }
    FfmpegStep::Fail(FfmpegError::NotFound)
}

/// The environment variables whose directories are searched, in order.
pub open spec fn searched() -> Seq<Seq<char>> {
    seq!["ProgramFiles"@, "ProgramFiles(x86)"@, "LOCALAPPDATA"@, "USERPROFILE"@]
}

/// The environment variables whose directories are searched, in order.
pub fn ffmpeg_variables() -> (r: Vec<&'static str>)
    ensures
        r@.len() == searched().len(),
        forall|i: int| 0 <= i < r@.len() ==> (#[trigger] r@[i])@ == searched()[i],
{
    let mut r: Vec<&'static str> = Vec::new();
    r.push("ProgramFiles");
    r.push("ProgramFiles(x86)");
    r.push("LOCALAPPDATA");
    r.push("USERPROFILE");
    r
}

/// Whether packages lie below the directory that a variable names. They are
/// looked at after the usual places there.
pub fn holds_packages(variable: &str) -> (r: bool)
    ensures
        r == (variable@ == "LOCALAPPDATA"@),
{
    text::same(variable, "LOCALAPPDATA")
}

/// Where FFmpeg is usually installed, below a directory that the environment
/// names.
pub open spec fn usual_places(variable: Seq<char>) -> Seq<Seq<char>> {
    if variable == "ProgramFiles"@ {
        seq!["ffmpeg\\bin\\ffmpeg.exe"@, "FFmpeg\\bin\\ffmpeg.exe"@]
    } else if variable == "ProgramFiles(x86)"@ {
        seq!["ffmpeg\\bin\\ffmpeg.exe"@]
    } else if variable == "LOCALAPPDATA"@ {
        seq!["ffmpeg\\bin\\ffmpeg.exe"@]
    } else if variable == "USERPROFILE"@ {
        seq!["scoop\\shims\\ffmpeg.exe"@, "winget\\links\\ffmpeg.exe"@]
    } else {
        seq![]
    }
}

/// The usual places below the directory that an environment variable names.
pub fn ffmpeg_places(variable: &str) -> (r: Vec<&'static str>)
    ensures
        r@.len() == usual_places(variable@).len(),
        forall|i: int| 0 <= i < r@.len() ==> (#[trigger] r@[i])@ == usual_places(variable@)[i],
{
    let mut r: Vec<&'static str> = Vec::new();
    if text::same(variable, "ProgramFiles") {
        r.push("ffmpeg\\bin\\ffmpeg.exe");
        r.push("FFmpeg\\bin\\ffmpeg.exe");
    } else if text::same(variable, "ProgramFiles(x86)") {
        r.push("ffmpeg\\bin\\ffmpeg.exe");
    } else if text::same(variable, "LOCALAPPDATA") {
        r.push("ffmpeg\\bin\\ffmpeg.exe");
    } else if text::same(variable, "USERPROFILE") {
        r.push("scoop\\shims\\ffmpeg.exe");
        r.push("winget\\links\\ffmpeg.exe");
    }
    r
}

/// The first line of what a program printed, without white space around it.
pub open spec fn first_line(out: Seq<char>) -> Seq<char> {
    text::trimmed(text::split(out, '\n')[0])
}

/// The path on the first line of what a search of `PATH` printed, where there
/// is one.
pub fn which_ffmpeg(out: &str) -> (r: Option<String>)
    ensures
        match r {
            Some(p) => p@ == first_line(out@) && p@.len() > 0,
            None => first_line(out@).len() == 0,
        },
{
    let lines = text::split_text(out, '\n');
    proof {
        text::lemma_split_nonempty(out@, '\n');
        reveal_strlit("");
    }
    assert(lines.deep_view()[0] == lines@[0]@);
    let first = text::trim(lines[0].as_str());
    if text::same(first.as_str(), "") {
        None
    } else {
        assert(first@.len() > 0) by {
            if first@.len() == 0 {
                assert(first@ =~= ""@);
            }
        }
        Some(first)
    }
}

// ---------------------------------------------------------------------------
// Laws
// ---------------------------------------------------------------------------

/// The encoder chosen works, and none that works comes before it. `works` says
/// of each hardware encoder, in order, whether it works.
pub proof fn first_working_is_preferred(works: Seq<bool>, i: int)
    requires
        0 <= i < works.len(),
        works[i],
    ensures
        0 <= first_working(works) <= i,
        works[first_working(works)],
    decreases works.len(),
{
    if !works[0] {
        let rest = works.drop_first();
        first_working_is_preferred(rest, i - 1);
        assert(rest[first_working(rest)] == works[first_working(works)]);
    }
}

/// Where a candidate runs and nothing is configured or on `PATH`, the search
/// ends with a candidate that runs: none before the first such one is used, and
/// none after it is tried.
pub proof fn search_ends_with_the_first_that_runs(works: Seq<bool>, i: int, n: int)
    requires
        0 <= i < works.len(),
        works[i],
        forall|j: int| 0 <= j < i ==> !#[trigger] works[j],
        0 <= n <= works.len(),
    ensures
        first_working(works.take(n)) == if n <= i {
            n
        } else {
            i
        },
{
    let part = works.take(n);
    if n <= i {
        assert forall|j: int| 0 <= j < n implies !#[trigger] part[j] by {
            assert(part[j] == works[j]);
        }
        lemma_first_working(part, n);
    } else {
        assert forall|j: int| 0 <= j < i implies !#[trigger] part[j] by {
            assert(part[j] == works[j]);
        }
        assert(part[i] == works[i]);
        lemma_first_working(part, i);
    }
}

/// An output's base name says what it is and when it was made, in this order,
/// behind the prefix where there is one.
pub proof fn base_names_say_what_and_when(
    prefix: Seq<char>,
    kind: Seq<char>,
    stamp: Seq<char>,
)
    ensures
        ({
            let name = stamped(prefix, kind, stamp);
            let lead = if prefix.len() == 0 {
                0int
            } else {
                prefix.len() as int + 1
            };
            &&& name.len() == lead + kind.len() + 1 + stamp.len()
            &&& name.skip(name.len() - stamp.len()) == stamp
            &&& name.subrange(lead, lead + kind.len()) == kind
            &&& name[lead + kind.len()] == '_'
            &&& prefix.len() > 0 ==> name.take(prefix.len() as int) == prefix
                && name[prefix.len() as int] == '_'
        }),
{
    reveal_strlit("_");
    let name = stamped(prefix, kind, stamp);
    let lead = if prefix.len() == 0 {
        0int
    } else {
        prefix.len() as int + 1
    };
    assert(name.skip(name.len() - stamp.len()) =~= stamp);
    assert(name.subrange(lead, lead + kind.len()) =~= kind);
    if prefix.len() > 0 {
        assert(name.take(prefix.len() as int) =~= prefix);
    }
}

/// Hardware is tried where it is asked for, never where the processor is asked
/// for, and else exactly where the codec has an encoder in hardware.
pub proof fn hardware_is_tried_as_asked(codec: Codec)
    ensures
        wants_gpu(codec, EncoderBackend::Gpu),
        !wants_gpu(codec, EncoderBackend::Cpu),
        wants_gpu(codec, EncoderBackend::Auto) <==> codec.hardware_encoders()[0]
            != codec.cpu_encoder(),
{
    reveal_strlit("h264_nvenc");
    reveal_strlit("hevc_nvenc");
    reveal_strlit("av1_nvenc");
    reveal_strlit("libx264");
    reveal_strlit("libx265");
    reveal_strlit("libaom-av1");
    assert("h264_nvenc"@[0] == 'h' && "hevc_nvenc"@[0] == 'h' && "av1_nvenc"@[0] == 'a');
    assert("libx264"@[0] == 'l' && "libx265"@[0] == 'l' && "libaom-av1"@[0] == 'l');
}

/// The first that works is found: it works, and none before it does.
pub proof fn first_working_is_the_first(probes: Seq<bool>)
    ensures
        0 <= first_working(probes) <= probes.len(),
        first_working(probes) < probes.len() ==> probes[first_working(probes)],
        forall|i: int| 0 <= i < first_working(probes) ==> !#[trigger] probes[i],
    decreases probes.len(),
{
    if probes.len() > 0 && !probes[0] {
        let rest = probes.drop_first();
        first_working_is_the_first(rest);
        assert forall|i: int| 0 <= i < first_working(probes) implies !#[trigger] probes[i] by {
            if i > 0 {
                assert(!rest[i - 1]);
            }
        }
    }
}

/// What a search of `PATH` gave is used as it is; else the program is run by its
/// bare name.
pub proof fn programs_on_path_are_used(which: Option<String>)
    ensures
        which is Some ==> from_path(which) == which->0@,
        which is None ==> from_path(which) == seq!['f', 'f', 'm', 'p', 'e', 'g'],
{
    reveal_strlit("ffmpeg");
    assert("ffmpeg"@ =~= seq!['f', 'f', 'm', 'p', 'e', 'g']);
}

/// Of what a search printed, the first line counts, without the white space
/// around it, whatever follows.
pub proof fn first_line_counts(line: Seq<char>, rest: Seq<char>)
    requires
        !line.contains('\n'),
    ensures
        first_line(line) == text::trimmed(line),
        first_line(line.push('\n') + rest) == text::trimmed(line),
{
    text::lemma_split_whole(line, '\n');
    text::lemma_split_join(line, rest, '\n');
    text::lemma_split_nonempty(rest, '\n');
    assert((seq![line] + text::split(rest, '\n'))[0] == line);
}

/// What is looked for below a directory is the FFmpeg program, in one place at
/// least for each of the variables and nowhere else.
pub proof fn programs_are_looked_for_below_variables(variable: Seq<char>)
    ensures
        searched().contains(variable) <==> usual_places(variable).len() > 0,
        forall|i: int|
            0 <= i < usual_places(variable).len() ==> text::finishes(
                #[trigger] usual_places(variable)[i],
                "\\ffmpeg.exe"@,
            ),
{
    reveal_strlit("\\ffmpeg.exe");
    reveal_strlit("ffmpeg\\bin\\ffmpeg.exe");
    reveal_strlit("FFmpeg\\bin\\ffmpeg.exe");
    reveal_strlit("scoop\\shims\\ffmpeg.exe");
    reveal_strlit("winget\\links\\ffmpeg.exe");
    let s = searched();
    assert(s[0] == "ProgramFiles"@ && s[1] == "ProgramFiles(x86)"@ && s[2] == "LOCALAPPDATA"@ && s[3]
        == "USERPROFILE"@);
    let tail = "\\ffmpeg.exe"@;
    let a = "ffmpeg\\bin\\ffmpeg.exe"@;
    let b = "FFmpeg\\bin\\ffmpeg.exe"@;
    let c = "scoop\\shims\\ffmpeg.exe"@;
    let d = "winget\\links\\ffmpeg.exe"@;
    assert(a.skip(a.len() - tail.len()) =~= tail);
    assert(b.skip(b.len() - tail.len()) =~= tail);
    assert(c.skip(c.len() - tail.len()) =~= tail);
    assert(d.skip(d.len() - tail.len()) =~= tail);
}

} // verus!
