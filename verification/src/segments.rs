//! The rolling window of video segments on disk.

use std::collections::BTreeMap;
use vstd::prelude::*;

use crate::paths;
use crate::text;

verus! {

/// Container of the segments.
pub const SEGMENT_EXTENSION: &'static str = "mkv";

// ---------------------------------------------------------------------------
// Segment file names
// ---------------------------------------------------------------------------

/// The file name of segment `seq`, e.g. `seg_00042.mkv`.
pub open spec fn segment_name(seq: nat) -> Seq<char> {
    "seg_"@ + text::padded(seq, 5) + "."@ + SEGMENT_EXTENSION@
}

/// What ends a segment's file name.
pub open spec fn segment_suffix() -> Seq<char> {
    "."@ + SEGMENT_EXTENSION@
}

/// The segment that a file name stands for.
pub open spec fn segment_number(name: Seq<char>) -> Option<u64> {
    match text::between(name, "seg_"@, segment_suffix()) {
        Some(rest) => text::number_u64(rest),
        None => None,
    }
}

fn suffix_text() -> (out: String)
    ensures
        out@ == segment_suffix(),
{
    let mut out = ".".to_owned();
    out.append(SEGMENT_EXTENSION);
    out
}

/// The file name of segment `seq`.
pub fn segment_file_name(seq: u64) -> (out: String)
    ensures
        out@ == segment_name(seq as nat),
{
    let mut out = "seg_".to_owned();
    out.append(text::padded_text(seq, 5).as_str());
    out.append(".");
    out.append(SEGMENT_EXTENSION);
    out
}

/// The segment that a file name stands for.
pub fn parse_segment_name(name: &str) -> (r: Option<u64>)
    ensures
        r == segment_number(name@),
{
    let suffix = suffix_text();
    match text::strip(name, "seg_", suffix.as_str()) {
        Some(rest) => text::parse_u64(rest.as_str()),
        None => None,
    }
}

/// A segment's file name leads back to the segment, so no two segments share
/// one.
pub proof fn segment_name_round_trip(seq: u64)
    ensures
        segment_number(segment_name(seq as nat)) == Some(seq),
{
    let name = segment_name(seq as nat);
    let body = text::padded(seq as nat, 5);
    text::decimal_round_trip(seq as nat, 5);
    assert(name.take("seg_"@.len() as int) =~= "seg_"@);
    let rest = name.skip("seg_"@.len() as int);
    assert(rest =~= body + segment_suffix());
    assert(rest.skip(rest.len() - segment_suffix().len()) =~= segment_suffix());
    assert(name.subrange("seg_"@.len() as int, name.len() - segment_suffix().len()) =~= body);
}

/// A segment's file name is a plain file name.
pub proof fn lemma_segment_names_are_plain(name: Seq<char>)
    requires
        segment_number(name) is Some,
    ensures
        paths::plain_name(name),
{
    reveal_strlit("seg_");
    reveal_strlit(".");
    reveal_strlit("mkv");
    let p = "seg_"@;
    let q = segment_suffix();
    let rest = text::between(name, p, q)->0;
    let digits = text::unsigned_part(rest);
    assert forall|i: int| 0 <= i < name.len() implies #[trigger] name[i] != '/' && name[i] != '\\'
        && name[i] != ':' by {
        if i < p.len() {
            assert(name[i] == name.take(p.len() as int)[i]);
        } else if i < name.len() - q.len() {
            let j = i - p.len();
            assert(name[i] == rest[j]);
            if rest.len() > 0 && rest[0] == '+' {
                if j > 0 {
                    assert(digits[j - 1] == rest[j]);
                }
            } else {
                assert(digits[j] == rest[j]);
            }
        } else {
            let after = name.skip(p.len() as int);
            let k = i - (name.len() - q.len());
            assert(after.skip(after.len() - q.len())[k] == name[i]);
        }
    }
}

/// One segment on disk.
#[derive(Debug)]
pub struct SegmentInfo {
    pub seq: u64,
    pub path: String,
}

impl Clone for SegmentInfo {
    fn clone(&self) -> (r: SegmentInfo)
        ensures
            r == *self,
    {
        SegmentInfo { seq: self.seq, path: self.path.clone() }
    }
}

/// Where segment `seq` lies in `seg_dir`.
pub fn segment_path(seg_dir: &str, seq: u64) -> (out: String)
    ensures
        paths::is_under(out@, seg_dir@, segment_name(seq as nat)),
{
    let name = segment_file_name(seq);
    proof {
        segment_name_round_trip(seq);
        lemma_segment_names_are_plain(name@);
    }
    paths::join(seg_dir, name.as_str())
}

// ---------------------------------------------------------------------------
// Frames and segments
// ---------------------------------------------------------------------------

/// The segment that holds frame `frame`, at `frames` frames per segment.
pub open spec fn segment_of(frame: int, frames: int) -> int {
    frame / frames
}

/// The first segment that begins at or after frame `frame`.
pub open spec fn segment_from(frame: int, frames: int) -> int {
    (frame + frames - 1) / frames
}

/// The segments `first..=last` of `dir`, in order.
pub open spec fn is_run(segs: Seq<SegmentInfo>, dir: Seq<char>, first: int, last: int) -> bool {
    &&& segs.len() == if first <= last { last - first + 1 } else { 0 }
    &&& forall|i: int|
        #![trigger segs[i]]
        0 <= i < segs.len() ==> segs[i].seq == first + i && paths::is_under(
            segs[i].path@,
            dir,
            segment_name(segs[i].seq as nat),
        )
}

/// Snapshot the segment paths covering frames `[start, end)`, including the
/// possibly still-open tail (path is deterministic even before closure).
pub fn range_segments(seg_dir: &str, start_frame: u64, end_frame: u64, segment_frames: u64) -> (out:
    Vec<SegmentInfo>)
    requires
        segment_frames > 0,
    ensures
        is_run(
            out@,
            seg_dir@,
            segment_of(start_frame as int, segment_frames as int),
            segment_of(end_frame as int, segment_frames as int),
        ),
{
    segment_run(seg_dir, start_frame / segment_frames, end_frame / segment_frames)
}

/// The segments `first..=last`, whether or not they are there yet.
pub fn segment_run(seg_dir: &str, first: u64, last: u64) -> (out: Vec<SegmentInfo>)
    ensures
        is_run(out@, seg_dir@, first as int, last as int),
{
    let mut out: Vec<SegmentInfo> = Vec::new();
    if first > last {
        return out;
    }
    let mut seq: u64 = first;
    loop
        invariant
            first <= seq <= last,
            is_run(out@, seg_dir@, first as int, seq - 1),
        decreases last - seq,
    {
        let path = segment_path(seg_dir, seq);
        out.push(SegmentInfo { seq, path });
        assert(is_run(out@, seg_dir@, first as int, seq as int));
        if seq == last {
            return out;
        }
        seq += 1;
    }
}

/// Every frame of `[start, end)` lies in one of the segments that
/// `range_segments` lists for it.
pub proof fn range_covers_every_frame(
    segs: Seq<SegmentInfo>,
    dir: Seq<char>,
    start: int,
    end: int,
    frames: int,
    frame: int,
)
    requires
        frames > 0,
        0 <= start <= frame < end,
        is_run(segs, dir, segment_of(start, frames), segment_of(end, frames)),
    ensures
        exists|i: int|
            0 <= i < segs.len() && (#[trigger] segs[i]).seq == segment_of(frame, frames),
{
    vstd::arithmetic::div_mod::lemma_div_is_ordered(start, frame, frames);
    vstd::arithmetic::div_mod::lemma_div_is_ordered(frame, end, frames);
    let i = segment_of(frame, frames) - segment_of(start, frames);
    assert(segs[i].seq == segment_of(frame, frames));
}

// ---------------------------------------------------------------------------
// The window
// ---------------------------------------------------------------------------

/// Of the file names `names`, the last that stands for segment `seq`.
pub open spec fn last_named(names: Seq<Seq<char>>, seq: u64) -> Option<Seq<char>>
    decreases names.len(),
{
    if names.len() == 0 {
        None
    } else if segment_number(names.last()) == Some(seq) {
        Some(names.last())
    } else {
        last_named(names.drop_last(), seq)
    }
}

/// `after` is what is known of the segments in `dir` once the file names
/// `names` were seen, where `before` was known: a segment that is named there
/// lies at (the last of) its names, and nothing else changes.
pub open spec fn saw(
    before: Map<u64, String>,
    after: Map<u64, String>,
    dir: Seq<char>,
    names: Seq<Seq<char>>,
) -> bool {
    forall|seq: u64|
        #![trigger after.contains_key(seq)]
        #![trigger last_named(names, seq)]
        match last_named(names, seq) {
            Some(name) => after.contains_key(seq) && paths::is_under(after[seq]@, dir, name),
            None => (after.contains_key(seq) <==> before.contains_key(seq)) && (before.contains_key(
                seq,
            ) ==> after[seq] == before[seq]),
        }
}

/// `segs` lists, in ascending order, exactly the segments of `known` that
/// `pick` picks.
pub open spec fn lists(
    segs: Seq<SegmentInfo>,
    known: Map<u64, String>,
    pick: spec_fn(u64) -> bool,
) -> bool {
    &&& forall|i: int, j: int| 0 <= i < j < segs.len() ==> (#[trigger] segs[i]).seq < (#[trigger] segs[j]).seq
    &&& forall|i: int|
        #![trigger segs[i]]
        0 <= i < segs.len() ==> known.contains_key(segs[i].seq) && pick(segs[i].seq) && segs[i].path
            == known[segs[i].seq]
    &&& forall|seq: u64| #[trigger]
        known.contains_key(seq) && pick(seq) ==> exists|i: int|
            0 <= i < segs.len() && (#[trigger] segs[i]).seq == seq
}

/// A list of segments is fixed by what it lists.
pub proof fn lists_is_unique(
    a: Seq<SegmentInfo>,
    b: Seq<SegmentInfo>,
    known: Map<u64, String>,
    pick: spec_fn(u64) -> bool,
)
    requires
        lists(a, known, pick),
        lists(b, known, pick),
    ensures
        a == b,
    decreases a.len(),
{
    if a.len() == 0 {
        if b.len() > 0 {
            assert(known.contains_key(b[0].seq));
        }
        assert(a =~= b);
    } else {
        assert(known.contains_key(a.last().seq));
        let j = choose|j: int| 0 <= j < b.len() && (#[trigger] b[j]).seq == a.last().seq;
        assert(known.contains_key(b.last().seq));
        let i = choose|i: int| 0 <= i < a.len() && (#[trigger] a[i]).seq == b.last().seq;
        assert(a.last().seq == b.last().seq) by {
            if i < a.len() - 1 {
                assert(a[i].seq < a[a.len() - 1].seq);
                if j < b.len() - 1 {
                    assert(b[j].seq < b[b.len() - 1].seq);
                }
            }
        }
        lemma_lists_front(a, known, pick);
        lemma_lists_front(b, known, pick);
        let pick_a = |seq: u64| pick(seq) && seq != a.last().seq;
        let pick_b = |seq: u64| pick(seq) && seq != b.last().seq;
        assert(pick_a =~= pick_b);
        lists_is_unique(a.drop_last(), b.drop_last(), known, pick_a);
        assert(a[a.len() - 1] == b[b.len() - 1]);
        assert(a =~= a.drop_last().push(a.last()));
        assert(b =~= b.drop_last().push(b.last()));
    }
}

proof fn lemma_lists_front(segs: Seq<SegmentInfo>, known: Map<u64, String>, pick: spec_fn(u64) -> bool)
    requires
        lists(segs, known, pick),
        segs.len() > 0,
    ensures
        lists(segs.drop_last(), known, |seq: u64| pick(seq) && seq != segs.last().seq),
{
    let front = segs.drop_last();
    let p = |seq: u64| pick(seq) && seq != segs.last().seq;
    assert forall|i: int, j: int| 0 <= i < j < front.len() implies (#[trigger] front[i]).seq < (
    #[trigger] front[j]).seq by {
        assert(front[i] == segs[i] && front[j] == segs[j]);
    }
    assert forall|i: int| #![trigger front[i]] 0 <= i < front.len() implies known.contains_key(
        front[i].seq,
    ) && p(front[i].seq) && front[i].path == known[front[i].seq] by {
        assert(front[i] == segs[i]);
        assert(segs[i].seq < segs[segs.len() - 1].seq);
    }
    assert forall|seq: u64| #[trigger] known.contains_key(seq) && p(seq) implies exists|i: int|
        0 <= i < front.len() && (#[trigger] front[i]).seq == seq by {
        let i = choose|i: int| 0 <= i < segs.len() && (#[trigger] segs[i]).seq == seq;
        assert(front[i] == segs[i]);
    }
}

/// The oldest segment to keep: the rolling window holds the last `history`
/// segments before the open one, and everything from `needed_from` on stays: the
/// segment in which a recording in progress began, or the first one of an output
/// still to be written.
pub open spec fn oldest_kept(open_seq: int, history: int, needed_from: Option<u64>) -> int {
    let window = if open_seq > history { open_seq - history } else { 0 };
    match needed_from {
        Some(from) => if from < window { from as int } else { window },
        None => window,
    }
}

/// A file of the segment directory.
pub struct SegmentFile {
    pub name: String,
    /// Its last write is long enough ago that it is certainly closed.
    pub closed: bool,
}

/// The file goes when everything older than `oldest` goes: it is a segment, it
/// is older, and it is closed.
pub open spec fn is_stale(f: SegmentFile, oldest: int) -> bool {
    match segment_number(f.name@) {
        Some(seq) => seq < oldest && f.closed,
        None => false,
    }
}

/// `picked` holds exactly the positions of the stale files, in order.
pub open spec fn are_stale(picked: Seq<usize>, files: Seq<SegmentFile>, oldest: int) -> bool {
    &&& forall|i: int, j: int| 0 <= i < j < picked.len() ==> picked[i] < picked[j]
    &&& forall|i: int|
        #![trigger picked[i]]
        0 <= i < picked.len() ==> picked[i] < files.len() && is_stale(files[picked[i] as int], oldest)
    &&& forall|k: int|
        0 <= k < files.len() && is_stale(#[trigger] files[k], oldest) ==> exists|i: int|
            0 <= i < picked.len() && #[trigger] picked[i] == k
}

/// Some stale file stands for segment `seq`.
pub open spec fn is_dropped(files: Seq<SegmentFile>, oldest: int, seq: u64) -> bool {
    exists|k: int|
        0 <= k < files.len() && is_stale(#[trigger] files[k], oldest) && segment_number(
            files[k].name@,
        ) == Some(seq)
}

/// The names of the files.
pub open spec fn names_of(files: Seq<SegmentFile>) -> Seq<Seq<char>> {
    files.map_values(|f: SegmentFile| f.name@)
}

/// Whether `x` is in `v`.
fn among(v: &Vec<u64>, x: u64) -> (r: bool)
    ensures
        r == v@.contains(x),
{
    let mut i: usize = 0;
    while i < v.len()
        invariant
            i <= v@.len(),
            forall|j: int| 0 <= j < i ==> v@[j] != x,
        decreases v@.len() - i,
    {
        if v[i] == x {
            return true;
        }
        i += 1;
    }
    false
}

/// Rolling-window segment manager.
pub struct SegmentManager {
    seg_dir: String,
    segment_frames: u64,
    history_segments: u64,
    cache: BTreeMap<u64, String>,
}

impl SegmentManager {
    /// The directory of the segments.
    pub closed spec fn dir(self) -> Seq<char> {
        self.seg_dir@
    }

    /// Frames per segment.
    pub closed spec fn frames(self) -> u64 {
        self.segment_frames
    }

    /// How many segments the rolling window holds.
    pub closed spec fn history(self) -> u64 {
        self.history_segments
    }

    /// The segments seen in the directory, with their paths.
    pub closed spec fn known(self) -> Map<u64, String> {
        self.cache@
    }

    /// Segments hold at least one frame.
    pub open spec fn valid(self) -> bool {
        self.frames() >= 1
    }

    /// Everything but the known segments is as before.
    pub open spec fn same_setup(self, other: SegmentManager) -> bool {
        self.dir() == other.dir() && self.frames() == other.frames() && self.history()
            == other.history()
    }

    pub fn new(seg_dir: String, segment_frames: u64, history_segments: u64) -> (m: SegmentManager)
        requires
            segment_frames >= 1,
        ensures
            m.valid(),
            m.dir() == seg_dir@,
            m.frames() == segment_frames,
            m.history() == history_segments,
            m.known() == Map::<u64, String>::empty(),
    {
        SegmentManager { seg_dir, segment_frames, history_segments, cache: BTreeMap::new() }
    }

    /// Frames per segment.
    pub fn segment_frames(&self) -> (r: u64)
        ensures
            r == self.frames(),
    {
        self.segment_frames
    }

    /// Seq index that contains a given frame count.
    pub fn segment_of_frame(&self, frame: u64) -> (r: u64)
        requires
            self.valid(),
        ensures
            r == segment_of(frame as int, self.frames() as int),
    {
        frame / self.segment_frames
    }

    /// Number of segment files among the names in the segment directory.
    pub fn count_segments(&self, names: &Vec<String>) -> (r: usize)
        ensures
            r == names.deep_view().filter(|n: Seq<char>| text::begins(n, "seg_"@)).len(),
    {
        let ghost mine = |n: Seq<char>| text::begins(n, "seg_"@);
        let ghost all = names.deep_view();
        let mut count: usize = 0;
        let mut i: usize = 0;
        proof {
            reveal(Seq::filter);
            assert(all.take(0) =~= Seq::<Seq<char>>::empty());
        }
        while i < names.len()
            invariant
                i <= names@.len(),
                count <= i,
                all == names.deep_view(),
                mine == (|n: Seq<char>| text::begins(n, "seg_"@)),
                count == all.take(i as int).filter(mine).len(),
            decreases names@.len() - i,
        {
            proof {
                reveal(Seq::filter);
                assert(all[i as int] == names@[i as int]@);
                assert(all.take(i + 1).drop_last() =~= all.take(i as int));
                assert(all.take(i + 1).last() == all[i as int]);
            }
            if text::starts_with(names[i].as_str(), "seg_") {
                count += 1;
            }
            i += 1;
        }
        assert(all.take(all.len() as int) =~= all);
        count
    }

    /// Takes note of the files in the segment directory.
    pub fn refresh(&mut self, names: &Vec<String>)
        ensures
            final(self).same_setup(*old(self)),
            saw(old(self).known(), final(self).known(), old(self).dir(), names.deep_view()),
    {
        let ghost all = names.deep_view();
        let ghost before = self.cache@;
        let mut i: usize = 0;
        assert(all.take(0) =~= Seq::<Seq<char>>::empty());
        while i < names.len()
            invariant
                i <= names@.len(),
                all == names.deep_view(),
                self.same_setup(*old(self)),
                before == old(self).cache@,
                saw(before, self.cache@, self.seg_dir@, all.take(i as int)),
            decreases names@.len() - i,
        {
            let ghost mid = self.cache@;
            let name = names[i].as_str();
            proof {
                assert(all[i as int] == names@[i as int]@);
                assert(all.take(i + 1).drop_last() =~= all.take(i as int));
                assert(all.take(i + 1).last() == all[i as int]);
            }
            if let Some(seq) = parse_segment_name(name) {
                proof {
                    lemma_segment_names_are_plain(name@);
                }
                let path = paths::join(self.seg_dir.as_str(), name);
                self.cache.insert(seq, path);
            }
            proof {
                assert forall|seq: u64|
                    #![trigger self.cache@.contains_key(seq)]
                    #![trigger last_named(all.take(i + 1), seq)]
                    match last_named(all.take(i + 1), seq) {
                        Some(name) => self.cache@.contains_key(seq) && paths::is_under(
                            self.cache@[seq]@,
                            self.seg_dir@,
                            name,
                        ),
                        None => (self.cache@.contains_key(seq) <==> before.contains_key(seq)) && (
                        before.contains_key(seq) ==> self.cache@[seq] == before[seq]),
                    } by {
                    assert(mid.contains_key(seq) || !mid.contains_key(seq));
                    let l = last_named(all.take(i as int), seq);
                }
            }
            i += 1;
        }
        assert(all.take(all.len() as int) =~= all);
    }

    /// Everything known, in ascending order.
    pub fn segments(&self) -> (out: Vec<SegmentInfo>)
        ensures
            lists(out@, self.known(), |seq: u64| true),
    {
        let mut out: Vec<SegmentInfo> = Vec::new();
        for kv in it: self.cache.iter()
            invariant
                it.seq() == vstd::std_specs::iter::IteratorSpec::remaining(
                    &vstd::std_specs::btree::spec_btree_map_iter(&self.cache),
                ),
                vstd::std_specs::btree::increasing_seq(
                    it.seq().map_values(|kv: (&u64, &String)| *kv.0),
                ),
                out@.len() == it.index(),
                forall|i: int|
                    #![trigger out@[i]]
                    0 <= i < out@.len() ==> out@[i].seq == *it.seq()[i].0 && out@[i].path
                        == *it.seq()[i].1,
        {
            out.push(SegmentInfo { seq: *kv.0, path: kv.1.clone() });
        }
        proof {
            let all = vstd::std_specs::iter::IteratorSpec::remaining(
                &vstd::std_specs::btree::spec_btree_map_iter(&self.cache),
            );
            let keys = all.map_values(|kv: (&u64, &String)| *kv.0);
            assert(vstd::std_specs::btree::increasing_seq(keys));
            vstd::std_specs::btree::axiom_increasing_seq_meaning(keys);
            assert forall|i: int, j: int| 0 <= i < j < out@.len() implies (#[trigger] out@[i]).seq
                < (#[trigger] out@[j]).seq by {
                assert(keys[i] == out@[i].seq && keys[j] == out@[j].seq);
                assert(vstd::std_specs::cmp::OrdSpec::cmp_spec(&keys[i], &keys[j]) is Less);
            }
            assert forall|seq: u64| #[trigger] self.cache@.contains_key(seq) implies exists|i: int|
                0 <= i < out@.len() && (#[trigger] out@[i]).seq == seq by {
                assert(all.contains((&seq, &self.cache@[seq])));
                let i = choose|i: int| 0 <= i < all.len() && all[i] == (&seq, &self.cache@[seq]);
                assert(out@[i].seq == seq);
            }
            assert forall|i: int| #![trigger out@[i]] 0 <= i < out@.len() implies self.cache@.contains_key(
                out@[i].seq,
            ) && out@[i].path == self.cache@[out@[i].seq] by {
                assert(self.cache@.contains_key(*all[i].0));
            }
        }
        out
    }

    /// What is known, on disk, at or after `low` and before `high`.
    fn select(&self, low: u64, high: Option<u64>, present: &Vec<u64>) -> (out: Vec<SegmentInfo>)
        ensures
            lists(
                out@,
                self.known(),
                |seq: u64|
                    low <= seq && (high is Some ==> seq < high->0) && present@.contains(seq),
            ),
    {
        let ghost pick = |seq: u64|
            low <= seq && (high is Some ==> seq < high->0) && present@.contains(seq);
        let all = self.segments();
        let mut out: Vec<SegmentInfo> = Vec::new();
        let mut i: usize = 0;
        while i < all.len()
            invariant
                i <= all@.len(),
                lists(all@, self.known(), |seq: u64| true),
                pick == (|seq: u64|
                    low <= seq && (high is Some ==> seq < high->0) && present@.contains(seq)),
                picked_from(out@, all@.take(i as int), pick),
            decreases all@.len() - i,
        {
            let seq = all[i].seq;
            let below = match high {
                Some(h) => seq < h,
                None => true,
            };
            proof {
                lemma_picked_step(out@, all@, i as int, pick);
            }
            if low <= seq && below && among(present, seq) {
                out.push(all[i].clone());
            }
            i += 1;
        }
        proof {
            assert(all@.take(all@.len() as int) =~= all@);
            lemma_picked_lists(out@, all@, self.known(), pick);
        }
        out
    }

    /// All finalized segments (seq < open_seq) sorted ascending. `present`
    /// names those whose file is there.
    pub fn finalized(&self, open_seq: u64, present: &Vec<u64>) -> (out: Vec<SegmentInfo>)
        ensures
            lists(out@, self.known(), finished(open_seq, present@)),
    {
        let out = self.select(0, Some(open_seq), present);
        proof {
            let a = |seq: u64|
                0 <= seq && (Some(open_seq) is Some ==> seq < Some(open_seq)->0)
                    && present@.contains(seq);
            assert(a =~= finished(open_seq, present@));
        }
        out
    }

    /// Up to `n` most-recent finalized segments.
    pub fn take_last(&self, open_seq: u64, n: usize, present: &Vec<u64>) -> (out: Vec<SegmentInfo>)
        ensures
            exists|all: Seq<SegmentInfo>|
                {
                    &&& #[trigger] lists(all, self.known(), finished(open_seq, present@))
                    &&& out@ == most_recent(all, n as nat)
                },
    {
        let all = self.finalized(open_seq, present);
        let start: usize = if all.len() > n { all.len() - n } else { 0 };
        let mut out: Vec<SegmentInfo> = Vec::new();
        let mut i: usize = start;
        while i < all.len()
            invariant
                start <= i <= all@.len(),
                out@ == all@.subrange(start as int, i as int),
            decreases all@.len() - i,
        {
            out.push(all[i].clone());
            assert(all@.subrange(start as int, i + 1) =~= all@.subrange(start as int, i as int).push(
                all@[i as int],
            ));
            i += 1;
        }
        assert(out@ =~= most_recent(all@, n as nat));
        out
    }

    /// Every segment currently on disk (used after encoder EOF, when the last
    /// segment is guaranteed closed even though its seq >= open_seq).
    pub fn all_on_disk(&self, present: &Vec<u64>) -> (out: Vec<SegmentInfo>)
        ensures
            lists(out@, self.known(), |seq: u64| present@.contains(seq)),
    {
        let out = self.select(0, None, present);
        proof {
            let h: Option<u64> = None;
            let a = |seq: u64| 0 <= seq && (h is Some ==> seq < h->0) && present@.contains(seq);
            let b = |seq: u64| present@.contains(seq);
            assert(a =~= b);
        }
        out
    }

    /// Finalized segments overlapping a frame range `[start, end)` — plus one
    /// extra after so remuxers get a trailing keyframe boundary. Sorted.
    pub fn in_range(
        &self,
        open_seq: u64,
        start_frame: u64,
        end_frame: u64,
        present: &Vec<u64>,
    ) -> (out: Vec<SegmentInfo>)
        requires
            self.valid(),
        ensures
            lists(
                out@,
                self.known(),
                |seq: u64|
                    {
                        &&& seq < open_seq
                        &&& present@.contains(seq)
                        &&& segment_of(start_frame as int, self.frames() as int) <= seq
                        &&& seq <= segment_from(end_frame as int, self.frames() as int)
                    },
            ),
    {
        let frames = self.segment_frames;
        let first = self.segment_of_frame(start_frame);
        let whole: u64 = end_frame / frames;
        let rest: u64 = end_frame % frames;
        proof {
            lemma_segment_from(end_frame as int, frames as int);
        }
        let last: u64 = if rest == 0 { whole } else { whole + 1 };
        let high: u64 = if last < open_seq { last + 1 } else { open_seq };
        let out = self.select(first, Some(high), present);
        proof {
            let a = |seq: u64|
                first <= seq && (Some(high) is Some ==> seq < Some(high)->0) && present@.contains(
                    seq,
                );
            let b = |seq: u64|
                {
                    &&& seq < open_seq
                    &&& present@.contains(seq)
                    &&& segment_of(start_frame as int, self.frames() as int) <= seq
                    &&& seq <= segment_from(end_frame as int, self.frames() as int)
                };
            assert(a =~= b);
        }
        out
    }

    /// The oldest segment to keep.
    pub fn oldest_to_keep(&self, open_seq: u64, needed_from: Option<u64>) -> (r: u64)
        ensures
            r == oldest_kept(open_seq as int, self.history() as int, needed_from),
    {
        let window: u64 = if open_seq > self.history_segments {
            open_seq - self.history_segments
        } else {
            0
        };
        match needed_from {
            Some(from) => if from < window { from } else { window },
            None => window,
        }
    }

    /// Delete segments that fall outside the rolling window and that neither an
    /// active recording nor an output still to be written needs.
    /// Takes note of the directory's files, forgets those that have to go, and
    /// returns their positions in `files`.
    pub fn trim(
        &mut self,
        open_seq: u64,
        needed_from: Option<u64>,
        files: &Vec<SegmentFile>,
    ) -> (out: Vec<usize>)
        ensures
            final(self).same_setup(*old(self)),
            ({
                let oldest = oldest_kept(
                    open_seq as int,
                    old(self).history() as int,
                    needed_from,
                );
                &&& are_stale(out@, files@, oldest)
                &&& exists|seen: Map<u64, String>|
                    {
                        &&& #[trigger] saw(old(self).known(), seen, old(self).dir(), names_of(files@))
                        &&& final(self).known() == seen.remove_keys(
                            Set::new(|seq: u64| is_dropped(files@, oldest, seq)),
                        )
                    }
            }),
    {
        let mut names: Vec<String> = Vec::new();
        let mut n: usize = 0;
        while n < files.len()
            invariant
                n <= files@.len(),
                names.deep_view() == names_of(files@.take(n as int)),
            decreases files@.len() - n,
        {
            let ghost before = names.deep_view();
            names.push(files[n].name.clone());
            assert(names.deep_view() =~= before.push(files@[n as int].name@));
            assert(names_of(files@.take(n + 1)) =~= names_of(files@.take(n as int)).push(
                files@[n as int].name@,
            ));
            n += 1;
        }
        assert(files@.take(files@.len() as int) =~= files@);
        self.refresh(&names);
        let ghost seen = self.cache@;
        let oldest = self.oldest_to_keep(open_seq, needed_from);
        let mut out: Vec<usize> = Vec::new();
        let mut i: usize = 0;
        assert(self.cache@ =~= seen.remove_keys(Set::new(|seq: u64| is_dropped(files@.take(0), oldest as int, seq))));
        while i < files.len()
            invariant
                i <= files@.len(),
                self.same_setup(*old(self)),
                are_stale(out@, files@.take(i as int), oldest as int),
                self.cache@ == seen.remove_keys(
                    Set::new(|seq: u64| is_dropped(files@.take(i as int), oldest as int, seq)),
                ),
            decreases files@.len() - i,
        {
            let ghost part = files@.take(i as int);
            let ghost next = files@.take(i + 1);
            let ghost picked = out@;
            let ghost known = self.cache@;
            proof {
                assert(next[i as int] == files@[i as int]);
                assert(forall|k: int| 0 <= k < i ==> #[trigger] next[k] == part[k]);
            }
            let number = parse_segment_name(files[i].name.as_str());
            match number {
                Some(seq) => {
                    if seq < oldest && files[i].closed {
                        out.push(i);
                        self.cache.remove(&seq);
                    }
                },
                None => {},
            }
            proof {
                lemma_stale_step(picked, out@, files@, i as int, oldest as int);
                assert forall|seq: u64| is_dropped(next, oldest as int, seq) <==> (is_dropped(
                    part,
                    oldest as int,
                    seq,
                ) || (is_stale(files@[i as int], oldest as int) && number == Some(seq))) by {
                    if is_dropped(part, oldest as int, seq) {
                        let k = choose|k: int|
                            0 <= k < part.len() && is_stale(#[trigger] part[k], oldest as int)
                                && segment_number(part[k].name@) == Some(seq);
                        assert(is_stale(next[k], oldest as int));
                    }
                    if is_dropped(next, oldest as int, seq) {
                        let k = choose|k: int|
                            0 <= k < next.len() && is_stale(#[trigger] next[k], oldest as int)
                                && segment_number(next[k].name@) == Some(seq);
                        if k < i {
                            assert(is_stale(part[k], oldest as int));
                        }
                    }
                    if is_stale(files@[i as int], oldest as int) && number == Some(seq) {
                        assert(is_stale(next[i as int], oldest as int));
                    }
                }
                assert(self.cache@ =~= seen.remove_keys(
                    Set::new(|seq: u64| is_dropped(next, oldest as int, seq)),
                ));
            }
            i += 1;
        }
        assert(files@.take(files@.len() as int) =~= files@);
        out
    }

    /// Forgets the segments before `oldest` whose file is gone.
    pub fn forget_missing(&mut self, oldest: u64, present: &Vec<u64>)
        ensures
            final(self).same_setup(*old(self)),
            final(self).known() == old(self).known().remove_keys(
                Set::new(|seq: u64| seq < oldest && !present@.contains(seq)),
            ),
    {
        let all = self.segments();
        let ghost known = self.cache@;
        let ghost gone = |seq: u64| seq < oldest && !present@.contains(seq);
        let mut i: usize = 0;
        assert(self.cache@ =~= known.remove_keys(Set::new(|seq: u64| false)));
        while i < all.len()
            invariant
                i <= all@.len(),
                self.same_setup(*old(self)),
                lists(all@, known, |seq: u64| true),
                forall|seq: u64| #[trigger]
                    self.cache@.contains_key(seq) <==> known.contains_key(seq) && !(seq < oldest
                        && !present@.contains(seq) && exists|j: int|
                        0 <= j < i && (#[trigger] all@[j]).seq == seq),
                forall|seq: u64| #[trigger] self.cache@.contains_key(seq) ==> self.cache@[seq] == known[seq],
            decreases all@.len() - i,
        {
            let seq = all[i].seq;
            let ghost before = self.cache@;
            if seq < oldest && !among(present, seq) {
                self.cache.remove(&seq);
            }
            proof {
                assert forall|s: u64| #[trigger] self.cache@.contains_key(s) <==> known.contains_key(s)
                    && !(s < oldest && !present@.contains(s) && exists|j: int|
                    0 <= j < i + 1 && (#[trigger] all@[j]).seq == s) by {
                    assert(before.contains_key(s) || !before.contains_key(s));
                    if exists|j: int| 0 <= j < i && (#[trigger] all@[j]).seq == s {
                        let j = choose|j: int| 0 <= j < i && (#[trigger] all@[j]).seq == s;
                        assert(0 <= j < i + 1 && all@[j].seq == s);
                    }
                    assert(all@[i as int].seq == seq);
                }
            }
            i += 1;
        }
        proof {
            assert forall|s: u64| #[trigger] self.cache@.contains_key(s) <==> known.contains_key(s) && !gone(
                s,
            ) by {
                if known.contains_key(s) {
                    let j = choose|j: int| 0 <= j < all@.len() && (#[trigger] all@[j]).seq == s;
                    assert(all@[j].seq == s);
                }
            }
            assert(self.cache@ =~= known.remove_keys(Set::new(gone)));
        }
    }
}

/// Whether `out` is ordered and holds what `pick` picks from `all`.
spec fn picked_from(out: Seq<SegmentInfo>, all: Seq<SegmentInfo>, pick: spec_fn(u64) -> bool) -> bool {
    &&& forall|a: int, b: int|
        0 <= a < b < out.len() ==> (#[trigger] out[a]).seq < (#[trigger] out[b]).seq
    &&& forall|a: int|
        #![trigger out[a]]
        0 <= a < out.len() ==> pick(out[a].seq) && all.contains(out[a])
    &&& forall|j: int|
        #![trigger all[j]]
        0 <= j < all.len() && pick(all[j].seq) ==> out.contains(all[j])
}

proof fn lemma_picked_step(
    out: Seq<SegmentInfo>,
    all: Seq<SegmentInfo>,
    i: int,
    pick: spec_fn(u64) -> bool,
)
    requires
        0 <= i < all.len(),
        forall|a: int, b: int|
            0 <= a < b < all.len() ==> (#[trigger] all[a]).seq < (#[trigger] all[b]).seq,
        picked_from(out, all.take(i), pick),
    ensures
        pick(all[i].seq) ==> picked_from(out.push(all[i]), all.take(i + 1), pick),
        !pick(all[i].seq) ==> picked_from(out, all.take(i + 1), pick),
{
    let part = all.take(i);
    let next = all.take(i + 1);
    let more = if pick(all[i].seq) {
        out.push(all[i])
    } else {
        out
    };
    assert(next =~= part.push(all[i]));
    assert forall|a: int| 0 <= a < out.len() implies next.contains(#[trigger] out[a]) && out[a].seq
        < all[i].seq by {
        let j = choose|j: int| 0 <= j < part.len() && #[trigger] part[j] == out[a];
        assert(next[j] == out[a]);
        assert(all[j] == out[a]);
    }
    assert forall|a: int| #![trigger more[a]] 0 <= a < more.len() implies pick(more[a].seq)
        && next.contains(more[a]) by {
        if a < out.len() {
            assert(more[a] == out[a]);
        } else {
            assert(next[i] == more[a]);
        }
    }
    assert forall|j: int| #![trigger next[j]] 0 <= j < next.len() && pick(next[j].seq) implies more.contains(
        next[j],
    ) by {
        if j < i {
            assert(part[j] == next[j]);
            let a = choose|a: int| 0 <= a < out.len() && #[trigger] out[a] == part[j];
            assert(more[a] == next[j]);
        } else {
            assert(more[out.len() as int] == next[j]);
        }
    }
}

proof fn lemma_picked_lists(
    out: Seq<SegmentInfo>,
    all: Seq<SegmentInfo>,
    known: Map<u64, String>,
    pick: spec_fn(u64) -> bool,
)
    requires
        lists(all, known, |seq: u64| true),
        picked_from(out, all, pick),
    ensures
        lists(out, known, pick),
{
    assert forall|a: int| #![trigger out[a]] 0 <= a < out.len() implies known.contains_key(
        out[a].seq,
    ) && pick(out[a].seq) && out[a].path == known[out[a].seq] by {
        let j = choose|j: int| 0 <= j < all.len() && #[trigger] all[j] == out[a];
    }
    assert forall|seq: u64| #[trigger] known.contains_key(seq) && pick(seq) implies exists|a: int|
        0 <= a < out.len() && (#[trigger] out[a]).seq == seq by {
        let j = choose|j: int| 0 <= j < all.len() && (#[trigger] all[j]).seq == seq;
        let a = choose|a: int| 0 <= a < out.len() && #[trigger] out[a] == all[j];
        assert(out[a].seq == seq);
    }
}

/// What is finished and on disk while segment `open_seq` is being written.
pub open spec fn finished(open_seq: u64, present: Seq<u64>) -> spec_fn(u64) -> bool {
    |seq: u64| seq < open_seq && present.contains(seq)
}

/// The last `n` of `all`, as far as there are so many.
pub open spec fn most_recent(all: Seq<SegmentInfo>, n: nat) -> Seq<SegmentInfo> {
    if all.len() > n {
        all.skip(all.len() - n)
    } else {
        all
    }
}

proof fn lemma_segment_from(frame: int, frames: int)
    requires
        frames >= 1,
        frame >= 0,
    ensures
        segment_from(frame, frames) == if frame % frames == 0 {
            frame / frames
        } else {
            frame / frames + 1
        },
        frames >= 2 ==> frame / frames <= frame / 2,
        frames == 1 ==> frame % frames == 0,
{
    vstd::arithmetic::div_mod::lemma_fundamental_div_mod(frame, frames);
    let q = frame / frames;
    let r = frame % frames;
    assert(0 <= r < frames);
    if r == 0 {
        assert(frame + frames - 1 == q * frames + (frames - 1)) by (nonlinear_arith)
            requires
                frame == frames * q + r,
                r == 0,
        ;
        vstd::arithmetic::div_mod::lemma_fundamental_div_mod_converse(
            frame + frames - 1,
            frames,
            q,
            frames - 1,
        );
    } else {
        assert(frame + frames - 1 == (q + 1) * frames + (r - 1)) by (nonlinear_arith)
            requires
                frame == frames * q + r,
        ;
        vstd::arithmetic::div_mod::lemma_fundamental_div_mod_converse(
            frame + frames - 1,
            frames,
            q + 1,
            r - 1,
        );
    }
    if frames >= 2 {
        vstd::arithmetic::div_mod::lemma_div_is_ordered_by_denominator(frame, 2, frames);
    }
}

proof fn lemma_stale_step(
    before: Seq<usize>,
    after: Seq<usize>,
    files: Seq<SegmentFile>,
    i: int,
    oldest: int,
)
    requires
        0 <= i < files.len() <= usize::MAX,
        are_stale(before, files.take(i), oldest),
        after == if is_stale(files[i], oldest) {
            before.push(i as usize)
        } else {
            before
        },
    ensures
        are_stale(after, files.take(i + 1), oldest),
{
    let part = files.take(i);
    let next = files.take(i + 1);
    assert(forall|k: int| 0 <= k < i ==> #[trigger] next[k] == part[k]);
    assert(next[i] == files[i]);
    assert forall|k: int| 0 <= k < next.len() && is_stale(#[trigger] next[k], oldest) implies exists|a: int|
        0 <= a < after.len() && #[trigger] after[a] == k by {
        if k < i {
            assert(is_stale(part[k], oldest));
            let a = choose|a: int| 0 <= a < before.len() && #[trigger] before[a] == k;
            assert(after[a] == k);
        } else {
            assert(after[before.len() as int] == k);
        }
    }
}

// ---------------------------------------------------------------------------
// Laws
// ---------------------------------------------------------------------------

/// Trimming spares the rolling window: of the last `history` segments before
/// the open one, none is older than the oldest one kept.
pub proof fn trim_spares_the_window(
    open_seq: int,
    history: int,
    needed_from: Option<u64>,
    seq: int,
)
    requires
        0 <= seq,
        open_seq - history <= seq,
    ensures
        oldest_kept(open_seq, history, needed_from) <= seq,
{
}

/// Trimming spares what a recording in progress or an output still to be
/// written needs: nothing from its first segment on is older than the oldest
/// one kept.
pub proof fn trim_spares_what_is_needed(open_seq: int, history: int, from: u64, seq: int)
    requires
        from <= seq,
    ensures
        oldest_kept(open_seq, history, Some(from)) <= seq,
{
}

/// Trimming spares the rolling window and what is needed besides: every file
/// that it picks is that of a segment before both.
pub proof fn trim_picks_only_what_is_outside(
    picked: Seq<usize>,
    files: Seq<SegmentFile>,
    open_seq: int,
    history: int,
    needed_from: Option<u64>,
    i: int,
)
    requires
        are_stale(picked, files, oldest_kept(open_seq, history, needed_from)),
        0 <= i < picked.len(),
    ensures
        segment_number(files[picked[i] as int].name@) is Some,
        ({
            let seq = segment_number(files[picked[i] as int].name@)->0;
            &&& seq < open_seq - history
            &&& needed_from is Some ==> seq < needed_from->0
        }),
{
}

/// A clip is made of the newest segments: as many as asked for, as far as
/// there are any, and whatever is left out is older.
pub proof fn clip_is_made_of_the_newest(
    all: Seq<SegmentInfo>,
    known: Map<u64, String>,
    pick: spec_fn(u64) -> bool,
    n: nat,
)
    requires
        lists(all, known, pick),
    ensures
        most_recent(all, n).len() == if all.len() > n {
            n
        } else {
            all.len()
        },
        forall|i: int, j: int|
            0 <= i < all.len() - most_recent(all, n).len() && 0 <= j < most_recent(all, n).len()
                ==> (#[trigger] all[i]).seq < (#[trigger] most_recent(all, n)[j]).seq,
{
    let skipped = all.len() - most_recent(all, n).len();
    assert forall|i: int, j: int| 0 <= i < skipped && 0 <= j < most_recent(all, n).len() implies (
    #[trigger] all[i]).seq < (#[trigger] most_recent(all, n)[j]).seq by {
        assert(most_recent(all, n)[j] == all[skipped + j]);
    }
}

/// A clip plays forwards and leaves nothing out. Its segments come in strictly
/// ascending order, each once; every one is finished, on disk, and lies where it
/// is known to lie. There are as many as asked for, or all there are. Whatever
/// finished segment is not among them is older than all of them.
pub proof fn clip_plays_forwards(
    all: Seq<SegmentInfo>,
    known: Map<u64, String>,
    open_seq: u64,
    present: Seq<u64>,
    n: nat,
)
    requires
        lists(all, known, finished(open_seq, present)),
    ensures
        ({
            let clip = most_recent(all, n);
            &&& forall|i: int, j: int|
                0 <= i < j < clip.len() ==> (#[trigger] clip[i]).seq < (#[trigger] clip[j]).seq
            &&& forall|i: int|
                #![trigger clip[i]]
                0 <= i < clip.len() ==> {
                    &&& clip[i].seq < open_seq
                    &&& present.contains(clip[i].seq)
                    &&& known.contains_key(clip[i].seq)
                    &&& clip[i].path == known[clip[i].seq]
                }
            &&& clip.len() <= n
            &&& forall|seq: u64|
                #![trigger known.contains_key(seq)]
                known.contains_key(seq) && seq < open_seq && present.contains(seq) ==> {
                    ||| exists|i: int| 0 <= i < clip.len() && (#[trigger] clip[i]).seq == seq
                    ||| clip.len() == n && forall|i: int|
                        0 <= i < clip.len() ==> seq < (#[trigger] clip[i]).seq
                }
        }),
{
    let clip = most_recent(all, n);
    let skipped = all.len() - clip.len();
    assert forall|i: int| 0 <= i < clip.len() implies #[trigger] clip[i] == all[skipped + i] by {}
    assert forall|i: int| #![trigger clip[i]] 0 <= i < clip.len() implies clip[i].seq < open_seq
        && present.contains(clip[i].seq) && known.contains_key(clip[i].seq) && clip[i].path
        == known[clip[i].seq] by {
        assert(finished(open_seq, present)(all[skipped + i].seq));
    }
    assert forall|seq: u64|
        #![trigger known.contains_key(seq)]
        known.contains_key(seq) && seq < open_seq && present.contains(seq) implies {
        ||| exists|i: int| 0 <= i < clip.len() && (#[trigger] clip[i]).seq == seq
        ||| clip.len() == n && forall|i: int|
            0 <= i < clip.len() ==> seq < (#[trigger] clip[i]).seq
    } by {
        assert(finished(open_seq, present)(seq));
        let k = choose|k: int| 0 <= k < all.len() && (#[trigger] all[k]).seq == seq;
        if k >= skipped {
            assert(clip[k - skipped].seq == seq);
        } else {
            assert forall|i: int| 0 <= i < clip.len() implies seq < (#[trigger] clip[i]).seq by {
                assert(all[k].seq < all[skipped + i].seq);
            }
        }
    }
}

/// A list of segments holds exactly what it lists: each once, in strictly
/// ascending order, with the path known of it.
pub proof fn lists_are_ascending_and_complete(
    segs: Seq<SegmentInfo>,
    known: Map<u64, String>,
    pick: spec_fn(u64) -> bool,
    seq: u64,
)
    requires
        lists(segs, known, pick),
    ensures
        forall|i: int, j: int|
            0 <= i < j < segs.len() ==> (#[trigger] segs[i]).seq < (#[trigger] segs[j]).seq,
        forall|i: int|
            #![trigger segs[i]]
            0 <= i < segs.len() ==> known.contains_key(segs[i].seq) && segs[i].path
                == known[segs[i].seq],
        (exists|i: int| 0 <= i < segs.len() && (#[trigger] segs[i]).seq == seq)
            <==> known.contains_key(seq) && pick(seq),
{
}

/// A segment holds exactly `frames` frames, one segment behind the other.
pub proof fn segments_hold_their_frames(frame: int, frames: int, seq: int)
    requires
        frames > 0,
        0 <= frame,
    ensures
        segment_of(frame, frames) == seq <==> seq * frames <= frame < (seq + 1) * frames,
{
    vstd::arithmetic::div_mod::lemma_fundamental_div_mod(frame, frames);
    let q = frame / frames;
    let r = frame % frames;
    assert(frame == q * frames + r && (q + 1) * frames == q * frames + frames) by (nonlinear_arith)
        requires
            frame == frames * q + r,
    ;
    if seq * frames <= frame < (seq + 1) * frames {
        assert(seq == q) by (nonlinear_arith)
            requires
                seq * frames <= q * frames + r,
                q * frames + r < (seq + 1) * frames,
                0 <= r < frames,
        ;
    }
}

/// The segment that a range reaches up to is the first that begins at the
/// range's end or after it.
pub proof fn range_ends_with_one_segment_more(frame: int, frames: int)
    requires
        frames > 0,
        0 <= frame,
    ensures
        segment_from(frame, frames) * frames >= frame,
        (segment_from(frame, frames) - 1) * frames < frame,
{
    lemma_segment_from(frame, frames);
    vstd::arithmetic::div_mod::lemma_fundamental_div_mod(frame, frames);
    let q = frame / frames;
    let r = frame % frames;
    let s = segment_from(frame, frames);
    assert(s * frames >= frame && (s - 1) * frames < frame) by (nonlinear_arith)
        requires
            frame == frames * q + r,
            0 <= r < frames,
            frames > 0,
            s == if r == 0 {
                q
            } else {
                q + 1
            },
    ;
}

/// A range of frames is listed without gaps: from the segment that holds its
/// first frame to the one that holds the frame at its end, one number after the
/// other, each under the name that it is written under.
pub proof fn range_is_listed_without_gaps(
    segs: Seq<SegmentInfo>,
    dir: Seq<char>,
    start: int,
    end: int,
    frames: int,
)
    requires
        frames > 0,
        0 <= start <= end,
        is_run(segs, dir, segment_of(start, frames), segment_of(end, frames)),
    ensures
        segs.len() > 0,
        segs[0].seq * frames <= start < (segs[0].seq + 1) * frames,
        segs.last().seq * frames <= end < (segs.last().seq + 1) * frames,
        forall|i: int| 0 < i < segs.len() ==> (#[trigger] segs[i]).seq == segs[0].seq + i,
        forall|i: int|
            #![trigger segs[i]]
            0 <= i < segs.len() ==> paths::is_under(
                segs[i].path@,
                dir,
                segment_name(segs[i].seq as nat),
            ) && segment_number(segment_name(segs[i].seq as nat)) == Some(segs[i].seq),
{
    vstd::arithmetic::div_mod::lemma_div_is_ordered(start, end, frames);
    segments_hold_their_frames(start, frames, segment_of(start, frames));
    segments_hold_their_frames(end, frames, segment_of(end, frames));
    assert forall|i: int| #![trigger segs[i]] 0 <= i < segs.len() implies segment_number(
        segment_name(segs[i].seq as nat),
    ) == Some(segs[i].seq) by {
        segment_name_round_trip(segs[i].seq);
    }
}

/// A segment is named as FFmpeg names it by the pattern `seg_%05d.mkv`: its
/// number in decimal, with zeros in front up to five digits and no further.
pub proof fn segment_names_have_five_digits(seq: u64)
    ensures
        ({
            let name = segment_name(seq as nat);
            let digits = name.subrange(4, name.len() - 4);
            &&& name.take(4) == seq!['s', 'e', 'g', '_']
            &&& name.skip(name.len() - 4) == seq!['.', 'm', 'k', 'v']
            &&& digits.len() >= 5
            &&& digits.len() > 5 ==> digits[0] != '0'
            &&& forall|i: int| 0 <= i < digits.len() ==> '0' <= #[trigger] digits[i] <= '9'
            &&& text::digits_value(digits) == seq
        }),
{
    reveal_strlit("seg_");
    reveal_strlit(".");
    reveal_strlit("mkv");
    let name = segment_name(seq as nat);
    let body = text::padded(seq as nat, 5);
    text::decimal_round_trip(seq as nat, 5);
    text::decimal_has_no_leading_zero(seq as nat);
    assert(name.take(4) =~= seq!['s', 'e', 'g', '_']);
    assert(name.skip(name.len() - 4) =~= seq!['.', 'm', 'k', 'v']);
    assert(name.subrange(4, name.len() - 4) =~= body);
    assert(text::is_digit(body[0]));
    assert forall|i: int| 0 <= i < body.len() implies '0' <= #[trigger] body[i] <= '9' by {
        assert(text::is_digit(body[i]));
    }
}

/// Trimming removes exactly what is outside: a file goes where it is that of a
/// closed segment which is further back than the window and which neither a
/// recording nor an output needs. No other file goes.
pub proof fn trim_removes_exactly_what_is_outside(
    picked: Seq<usize>,
    files: Seq<SegmentFile>,
    open_seq: int,
    history: int,
    needed_from: Option<u64>,
    k: int,
)
    requires
        are_stale(picked, files, oldest_kept(open_seq, history, needed_from)),
        0 <= k < files.len() <= usize::MAX,
    ensures
        picked.contains(k as usize) <==> {
            &&& files[k].closed
            &&& segment_number(files[k].name@) is Some
            &&& segment_number(files[k].name@)->0 + history < open_seq
            &&& needed_from is Some ==> segment_number(files[k].name@)->0 < needed_from->0
        },
        picked.no_duplicates(),
{
    let oldest = oldest_kept(open_seq, history, needed_from);
    if picked.contains(k as usize) {
        let i = choose|i: int| 0 <= i < picked.len() && picked[i] == k as usize;
        assert(is_stale(files[picked[i] as int], oldest));
    }
    if is_stale(files[k], oldest) {
        let i = choose|i: int| 0 <= i < picked.len() && #[trigger] picked[i] == k;
        assert(picked[i] == k as usize);
    }
    assert forall|i: int, j: int|
        0 <= i < picked.len() && 0 <= j < picked.len() && i != j implies picked[i] != picked[j] by {
        if i < j {
            assert(picked[i] < picked[j]);
        } else {
            assert(picked[j] < picked[i]);
        }
    }
}

/// After a look at the directory exactly those segments are known that were
/// known before or that one of the files there is named for. One of these lies
/// in the directory, under such a name.
pub proof fn refresh_learns_only_what_is_there(
    before: Map<u64, String>,
    after: Map<u64, String>,
    dir: Seq<char>,
    names: Seq<Seq<char>>,
    seq: u64,
)
    requires
        saw(before, after, dir, names),
    ensures
        ({
            let named = exists|i: int|
                0 <= i < names.len() && segment_number(#[trigger] names[i]) == Some(seq);
            &&& after.contains_key(seq) <==> before.contains_key(seq) || named
            &&& !named && before.contains_key(seq) ==> after[seq] == before[seq]
            &&& named ==> exists|i: int|
                0 <= i < names.len() && segment_number(names[i]) == Some(seq) && paths::is_under(
                    after[seq]@,
                    dir,
                    #[trigger] names[i],
                )
        }),
{
    lemma_last_named_is_there(names, seq);
    if exists|i: int| 0 <= i < names.len() && segment_number(#[trigger] names[i]) == Some(seq) {
        let i = choose|i: int|
            0 <= i < names.len() && segment_number(#[trigger] names[i]) == Some(seq);
        lemma_last_named(names, i);
        let j = choose|j: int|
            0 <= j < names.len() && #[trigger] names[j] == last_named(names, seq)->0;
        assert(paths::is_under(after[seq]@, dir, names[j]));
    }
    assert(after.contains_key(seq) || !after.contains_key(seq));
}

proof fn lemma_last_named_is_there(names: Seq<Seq<char>>, seq: u64)
    ensures
        match last_named(names, seq) {
            Some(name) => segment_number(name) == Some(seq) && exists|i: int|
                0 <= i < names.len() && #[trigger] names[i] == name,
            None => true,
        },
    decreases names.len(),
{
    if names.len() > 0 {
        if segment_number(names.last()) == Some(seq) {
            assert(names[names.len() - 1] == names.last());
        } else {
            lemma_last_named_is_there(names.drop_last(), seq);
            if last_named(names, seq) is Some {
                let front = names.drop_last();
                let i = choose|i: int|
                    0 <= i < front.len() && #[trigger] front[i] == last_named(front, seq)->0;
                assert(names[i] == front[i]);
            }
        }
    }
}

/// Every file of a segment in the directory is known after a look at it.
pub proof fn refresh_finds_every_segment(
    before: Map<u64, String>,
    after: Map<u64, String>,
    dir: Seq<char>,
    names: Seq<Seq<char>>,
    i: int,
)
    requires
        saw(before, after, dir, names),
        0 <= i < names.len(),
        segment_number(names[i]) is Some,
    ensures
        after.contains_key(segment_number(names[i])->0),
{
    let seq = segment_number(names[i])->0;
    lemma_last_named(names, i);
    assert(last_named(names, seq) is Some);
}

proof fn lemma_last_named(names: Seq<Seq<char>>, i: int)
    requires
        0 <= i < names.len(),
        segment_number(names[i]) is Some,
    ensures
        last_named(names, segment_number(names[i])->0) is Some,
    decreases names.len(),
{
    if i < names.len() - 1 {
        assert(names.drop_last()[i] == names[i]);
        lemma_last_named(names.drop_last(), i);
    }
}

/// After trimming, a segment that was seen is still known unless one of its files
/// had to go: one that is closed, further back than the window, and that neither a
/// recording nor an output needs. What is known of the others stays.
pub proof fn trimmed_segments_are_forgotten(
    seen: Map<u64, String>,
    after: Map<u64, String>,
    files: Seq<SegmentFile>,
    open_seq: int,
    history: int,
    needed_from: Option<u64>,
    seq: u64,
)
    requires
        after == seen.remove_keys(
            Set::new(
                |seq: u64| is_dropped(files, oldest_kept(open_seq, history, needed_from), seq),
            ),
        ),
    ensures
        ({
            let goes = {
                &&& seq + history < open_seq
                &&& needed_from is Some ==> seq < needed_from->0
                &&& exists|k: int|
                    0 <= k < files.len() && (#[trigger] files[k]).closed && segment_number(
                        files[k].name@,
                    ) == Some(seq)
            };
            &&& after.contains_key(seq) <==> seen.contains_key(seq) && !goes
            &&& after.contains_key(seq) ==> after[seq] == seen[seq]
        }),
{
    let oldest = oldest_kept(open_seq, history, needed_from);
    if is_dropped(files, oldest, seq) {
        let k = choose|k: int|
            0 <= k < files.len() && is_stale(#[trigger] files[k], oldest) && segment_number(
                files[k].name@,
            ) == Some(seq);
        assert(files[k].closed);
    }
    if seq < oldest && exists|k: int|
        0 <= k < files.len() && (#[trigger] files[k]).closed && segment_number(files[k].name@)
            == Some(seq) {
        let k = choose|k: int|
            0 <= k < files.len() && (#[trigger] files[k]).closed && segment_number(files[k].name@)
                == Some(seq);
        assert(is_stale(files[k], oldest));
    }
}

/// Looking at the directory and trimming change neither the directory, nor how
/// many frames a segment has, nor how far the window reaches back.
pub proof fn upkeep_changes_no_setting(a: SegmentManager, b: SegmentManager)
    requires
        a.same_setup(b),
    ensures
        a.dir() == b.dir(),
        a.frames() == b.frames(),
        a.history() == b.history(),
{
}

} // verus!
