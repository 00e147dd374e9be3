//! Clip/recording storage: destination naming, retention and sizes.

use vstd::prelude::*;

use crate::config::Storage;
use crate::paths;
use crate::text;

verus! {

// ---------------------------------------------------------------------------
// Destination names
// ---------------------------------------------------------------------------

/// The `k`-th name to try: `base.ext`, then `base_1.ext`, `base_2.ext`...
pub open spec fn candidate_name(base: Seq<char>, extension: Seq<char>, k: nat) -> Seq<char> {
    if k == 0 {
        base + "."@ + extension
    } else {
        base + "_"@ + text::decimal(k) + "."@ + extension
    }
}

/// The `k`-th name to try.
pub fn candidate(base: &str, extension: &str, k: u32) -> (out: String)
    ensures
        out@ == candidate_name(base@, extension@, k as nat),
{
    let mut out = base.to_owned();
    if k > 0 {
        out.append("_");
        out.append(text::decimal_text(k as u64).as_str());
    }
    out.append(".");
    out.append(extension);
    out
}

/// The next thing to do in the search for a destination.
#[derive(Debug)]
pub enum Destination {
    /// This path is free.
    Free(String),
    /// It has to be found out whether this path exists.
    Ask(String),
}

/// The first of the answers that says "does not exist".
pub open spec fn first_free(exists_at: Seq<bool>) -> int
    decreases exists_at.len(),
{
    if exists_at.len() == 0 {
        0
    } else if !exists_at[0] {
        0
    } else {
        1 + first_free(exists_at.drop_first())
    }
}

proof fn lemma_first_free(exists_at: Seq<bool>, i: int)
    requires
        0 <= i <= exists_at.len(),
        forall|k: int| 0 <= k < i ==> #[trigger] exists_at[k],
        i < exists_at.len() ==> !exists_at[i],
    ensures
        first_free(exists_at) == i,
    decreases exists_at.len(),
{
    if i > 0 {
        let rest = exists_at.drop_first();
        assert(exists_at[0]);
        assert forall|k: int| 0 <= k < i - 1 implies #[trigger] rest[k] by {
            assert(exists_at[k + 1]);
        }
        lemma_first_free(rest, i - 1);
    }
}

/// Produce a unique destination path in `dir`. `exists_at` holds the answers
/// for the names tried so far, in order.
pub fn destination(dir: &str, base: &str, extension: &str, exists_at: &Vec<bool>) -> (r: Destination)
    requires
        exists_at@.len() <= u32::MAX,
    ensures
        ({
            let k = first_free(exists_at@);
            let name = candidate_name(base@, extension@, k as nat);
            match r {
                Destination::Free(path) => 0 <= k < exists_at@.len() && !exists_at@[k]
                    && paths::is_joined(path@, dir@, name),
                Destination::Ask(path) => k == exists_at@.len() && paths::is_joined(
                    path@,
                    dir@,
                    name,
                ),
            }
        }),
{
    let mut k: usize = 0;
    while k < exists_at.len() && exists_at[k]
        invariant
            k <= exists_at@.len(),
            forall|j: int| 0 <= j < k ==> #[trigger] exists_at@[j],
        decreases exists_at@.len() - k,
    {
        k += 1;
    }
    proof {
        lemma_first_free(exists_at@, k as int);
    }
    let name = candidate(base, extension, k as u32);
    let path = paths::join(dir, name.as_str());
    if k < exists_at.len() {
        Destination::Free(path)
    } else {
        Destination::Ask(path)
    }
}

/// No name is tried twice, so the search comes to an end.
pub proof fn candidate_names_differ(base: Seq<char>, extension: Seq<char>, j: nat, k: nat)
    requires
        j != k,
    ensures
        candidate_name(base, extension, j) != candidate_name(base, extension, k),
{
    reveal_strlit("_");
    reveal_strlit(".");
    let a = candidate_name(base, extension, j);
    let b = candidate_name(base, extension, k);
    if a == b {
        if j == 0 || k == 0 {
            let n = if j == 0 {
                k
            } else {
                j
            };
            assert(candidate_name(base, extension, 0).len() == base.len() + 1 + extension.len());
            assert(candidate_name(base, extension, n).len() == base.len() + 2 + text::decimal(n).len()
                + extension.len());
        } else {
            let x = text::decimal(j);
            let y = text::decimal(k);
            assert(a.len() == base.len() + 2 + x.len() + extension.len());
            assert(b.len() == base.len() + 2 + y.len() + extension.len());
            let s = base.len() as int + 1;
            assert(a.subrange(s, s + x.len()) =~= x);
            assert(b.subrange(s, s + y.len()) =~= y);
            text::decimal_round_trip(j, 0);
            text::decimal_round_trip(k, 0);
            assert(text::padded(j, 0) =~= x);
            assert(text::padded(k, 0) =~= y);
        }
    }
}

// ---------------------------------------------------------------------------
// Retention
// ---------------------------------------------------------------------------

/// An output on disk.
#[derive(Debug, Clone, Copy)]
pub struct OutputFile {
    pub size: u64,
    /// When it was last written, in milliseconds.
    pub modified_ms: u128,
    /// Whether it lies in the clip directory.
    pub is_clip: bool,
}

/// Whether file `i` comes before file `j`: the older one, and of two of one
/// age the one found first.
pub open spec fn precedes(files: Seq<OutputFile>, i: int, j: int) -> bool {
    ||| files[i].modified_ms < files[j].modified_ms
    ||| files[i].modified_ms == files[j].modified_ms && i < j
}

/// Whether `order` holds each position of `files` once, oldest first.
pub open spec fn is_oldest_first(order: Seq<usize>, files: Seq<OutputFile>) -> bool {
    &&& order.len() == files.len()
    &&& forall|a: int| 0 <= a < order.len() ==> (#[trigger] order[a]) < files.len()
    &&& forall|a: int, b: int|
        0 <= a < b < order.len() ==> precedes(files, #[trigger] order[a] as int, #[trigger] order[b] as int)
}

/// The files in a given order.
pub open spec fn arranged(files: Seq<OutputFile>, order: Seq<usize>) -> Seq<OutputFile> {
    Seq::new(order.len(), |k: int| files[order[k] as int])
}

/// The bytes that files take up.
pub open spec fn bytes_of(files: Seq<OutputFile>) -> int
    decreases files.len(),
{
    if files.len() == 0 {
        0
    } else {
        bytes_of(files.drop_last()) + files.last().size
    }
}

/// How many clips are among the files.
pub open spec fn clips_of(files: Seq<OutputFile>) -> int
    decreases files.len(),
{
    if files.len() == 0 {
        0
    } else {
        clips_of(files.drop_last()) + if files.last().is_clip {
            1int
        } else {
            0
        }
    }
}

proof fn lemma_sums_insert(s: Seq<OutputFile>, i: int, f: OutputFile)
    requires
        0 <= i <= s.len(),
    ensures
        bytes_of(s.insert(i, f)) == bytes_of(s) + f.size,
        clips_of(s.insert(i, f)) == clips_of(s) + if f.is_clip {
            1int
        } else {
            0
        },
    decreases s.len(),
{
    let t = s.insert(i, f);
    if i == s.len() {
        assert(t.drop_last() =~= s);
    } else {
        assert(t.drop_last() =~= s.drop_last().insert(i, f));
        assert(t.last() == s.last());
        lemma_sums_insert(s.drop_last(), i, f);
    }
}

proof fn lemma_bytes_prefix(s: Seq<OutputFile>, i: int)
    requires
        0 <= i <= s.len(),
    ensures
        0 <= bytes_of(s.take(i)) <= bytes_of(s),
        0 <= clips_of(s.take(i)) <= clips_of(s),
    decreases s.len(),
{
    if i == s.len() {
        assert(s.take(i) =~= s);
        if i > 0 {
            lemma_bytes_prefix(s.drop_last(), i - 1);
            assert(s.drop_last().take(i - 1) =~= s.drop_last());
        }
    } else {
        assert(s.drop_last().take(i) =~= s.take(i));
        lemma_bytes_prefix(s.drop_last(), i);
    }
}

fn oldest_first(files: &Vec<OutputFile>) -> (order: Vec<usize>)
    ensures
        is_oldest_first(order@, files@),
        bytes_of(arranged(files@, order@)) == bytes_of(files@),
        clips_of(arranged(files@, order@)) == clips_of(files@),
{
    let mut order: Vec<usize> = Vec::new();
    let mut n: usize = 0;
    while n < files.len()
        invariant
            n <= files@.len(),
            order@.len() == n,
            bytes_of(arranged(files@, order@)) == bytes_of(files@.take(n as int)),
            clips_of(arranged(files@, order@)) == clips_of(files@.take(n as int)),
            forall|a: int| 0 <= a < n ==> (#[trigger] order@[a]) < n,
            forall|a: int, b: int|
                0 <= a < b < n ==> precedes(
                    files@,
                    #[trigger] order@[a] as int,
                    #[trigger] order@[b] as int,
                ),
        decreases files@.len() - n,
    {
        let mut at: usize = n;
        while at > 0 && files[order[at - 1]].modified_ms > files[n].modified_ms
            invariant
                at <= n < files@.len(),
                order@.len() == n,
                forall|a: int| 0 <= a < n ==> (#[trigger] order@[a]) < n,
                forall|a: int|
                    at <= a < n ==> files@[#[trigger] order@[a] as int].modified_ms
                        > files@[n as int].modified_ms,
            decreases at,
        {
            at -= 1;
        }
        let ghost before = order@;
        order.insert(at, n);
        proof {
            assert(arranged(files@, order@) =~= arranged(files@, before).insert(
                at as int,
                files@[n as int],
            ));
            lemma_sums_insert(arranged(files@, before), at as int, files@[n as int]);
            assert(files@.take(n + 1).drop_last() =~= files@.take(n as int));
            assert forall|a: int, b: int| 0 <= a < b < n + 1 implies precedes(
                files@,
                #[trigger] order@[a] as int,
                #[trigger] order@[b] as int,
            ) by {
                let a0 = if a < at {
                    a
                } else {
                    a - 1
                };
                let b0 = if b < at {
                    b
                } else {
                    b - 1
                };
                if a != at {
                    assert(order@[a] == before[a0]);
                }
                if b != at {
                    assert(order@[b] == before[b0]);
                }
                if b == at && at > 0 {
                    assert(order@[a] == before[a]);
                    let last = before[at - 1];
                    assert(files@[last as int].modified_ms <= files@[n as int].modified_ms);
                    if a < at - 1 {
                        assert(precedes(files@, before[a] as int, last as int));
                    }
                }
            }
        }
        n += 1;
    }
    assert(files@.take(n as int) =~= files@);
    order
}

/// How many clips there are beyond the cap, where there is one.
pub open spec fn clips_over(cfg: Storage, files: Seq<OutputFile>) -> int {
    if cfg.max_clips > 0 && clips_of(files) > cfg.max_clips {
        clips_of(files) - cfg.max_clips
    } else {
        0
    }
}

/// The storage cap in bytes, where there is one.
pub open spec fn byte_cap(cfg: Storage) -> Option<u64> {
    if cfg.max_storage_mb == 0 {
        None
    } else if cfg.max_storage_mb * 1048576 > u64::MAX {
        Some(u64::MAX)
    } else {
        Some((cfg.max_storage_mb * 1048576) as u64)
    }
}

/// How far a cleanup has come, with the files oldest first. It goes over them
/// twice: first for the clip cap, then, from the oldest file left, for the
/// storage cap.
#[verifier::ext_equal]
pub struct Cleanup {
    /// Whether the pass for the storage cap has begun.
    pub for_storage: bool,
    /// The first file that this pass has not looked at yet.
    pub at: int,
    /// How many clips still have to go for the clip cap.
    pub clips_left: int,
    /// The bytes taken up now.
    pub total: int,
    /// Which files were removed.
    pub gone: Seq<bool>,
}

impl Cleanup {
    /// The state in which the next file to remove stands at `at`, or in which
    /// none is left to remove, and `at` is the number of files. The pass for
    /// the clip cap passes over all but clips, and ends with the last clip that
    /// has to go. The pass for the storage cap passes over what is gone, and
    /// ends as soon as the rest is within the cap.
    pub open spec fn settled(self, files: Seq<OutputFile>, cap: Option<u64>) -> Cleanup
        decreases
            if self.for_storage {
                0int
            } else {
                1int
            },
            files.len() - self.at,
    {
        if !self.for_storage {
            if self.clips_left <= 0 || self.at >= files.len() {
                (Cleanup { for_storage: true, at: 0, ..self }).settled(files, cap)
            } else if files[self.at].is_clip {
                self
            } else {
                (Cleanup { at: self.at + 1, ..self }).settled(files, cap)
            }
        } else if self.at >= files.len() || cap is None || self.total <= cap->0 {
            Cleanup { at: files.len() as int, ..self }
        } else if self.gone[self.at] {
            (Cleanup { at: self.at + 1, ..self }).settled(files, cap)
        } else {
            self
        }
    }

    /// A file is to be removed now.
    pub open spec fn pending(self, files: Seq<OutputFile>) -> bool {
        &&& 0 <= self.at < files.len()
        &&& !self.gone[self.at]
        &&& !self.for_storage ==> self.clips_left > 0
    }

    /// The state after the removal of the file at `at` was tried.
    pub open spec fn after(self, files: Seq<OutputFile>, ok: bool) -> Cleanup {
        if ok {
            Cleanup {
                at: self.at + 1,
                clips_left: if self.for_storage {
                    self.clips_left
                } else {
                    self.clips_left - 1
                },
                total: if self.total > files[self.at].size {
                    self.total - files[self.at].size
                } else {
                    0
                },
                gone: self.gone.update(self.at, true),
                ..self
            }
        } else {
            Cleanup { at: self.at + 1, ..self }
        }
    }

    /// The files that are removed from here on, where `works` says of each
    /// whether its removal works.
    pub open spec fn run(
        self,
        files: Seq<OutputFile>,
        cap: Option<u64>,
        works: spec_fn(int) -> bool,
    ) -> Seq<int>
        decreases
            if self.for_storage {
                0int
            } else {
                1int
            },
            files.len() - self.at,
        when 0 <= self.at
        via Self::run_decreases
    {
        let s = self.settled(files, cap);
        if s.at >= files.len() {
            seq![]
        } else if works(s.at) {
            seq![s.at] + s.after(files, true).run(files, cap, works)
        } else {
            s.after(files, false).run(files, cap, works)
        }
    }

    #[via_fn]
    proof fn run_decreases(
        self,
        files: Seq<OutputFile>,
        cap: Option<u64>,
        works: spec_fn(int) -> bool,
    ) {
        self.lemma_settled(files, cap);
    }

    /// Where the pass for the storage cap starts or goes on.
    spec fn storage_from(self) -> int {
        if self.for_storage {
            self.at
        } else {
            0
        }
    }

    proof fn lemma_settled(self, files: Seq<OutputFile>, cap: Option<u64>)
        requires
            0 <= self.at,
        ensures
            ({
                let s = self.settled(files, cap);
                &&& s == (Cleanup { for_storage: s.for_storage, at: s.at, ..self })
                &&& 0 <= s.at <= files.len()
                &&& self.for_storage ==> s.for_storage
                &&& s.at < files.len() && self.for_storage == s.for_storage ==> s.at >= self.at
                &&& s.at == files.len() ==> s.for_storage
                &&& !s.for_storage ==> s.clips_left > 0 && files[s.at].is_clip
                &&& !s.for_storage ==> forall|k: int|
                    self.at <= k < s.at ==> !(#[trigger] files[k]).is_clip
                &&& !self.for_storage && s.for_storage && self.clips_left > 0 ==> forall|k: int|
                    self.at <= k < files.len() ==> !(#[trigger] files[k]).is_clip
                &&& s.for_storage && s.at < files.len() ==> !s.gone[s.at]
                &&& s.for_storage && s.at < files.len() ==> forall|k: int|
                    self.storage_from() <= k < s.at ==> #[trigger] self.gone[k]
                &&& s.for_storage && s.at == files.len() && cap is Some && self.total > cap->0
                    ==> forall|k: int|
                    self.storage_from() <= k < files.len() ==> #[trigger] self.gone[k]
                &&& s.for_storage && s.at < files.len() ==> cap is Some && self.total > cap->0
            }),
        decreases
            if self.for_storage {
                0int
            } else {
                1int
            },
            files.len() - self.at,
    {
        if !self.for_storage {
            if self.clips_left <= 0 || self.at >= files.len() {
                (Cleanup { for_storage: true, at: 0, ..self }).lemma_settled(files, cap);
            } else if !files[self.at].is_clip {
                (Cleanup { at: self.at + 1, ..self }).lemma_settled(files, cap);
            }
        } else if self.at < files.len() && cap is Some && self.total > cap->0
            && self.gone[self.at] {
            (Cleanup { at: self.at + 1, ..self }).lemma_settled(files, cap);
        }
    }
}

/// The state in which a cleanup of `files`, oldest first, begins.
pub open spec fn cleanup_start(cfg: Storage, files: Seq<OutputFile>) -> Cleanup {
    Cleanup {
        for_storage: !cfg.auto_cleanup,
        at: if cfg.auto_cleanup {
            0
        } else {
            files.len() as int
        },
        clips_left: clips_over(cfg, files),
        total: bytes_of(files),
        gone: Seq::new(files.len(), |k: int| false),
    }
}

/// How many of the marks are set.
spec fn marked(gone: Seq<bool>) -> int
    decreases gone.len(),
{
    if gone.len() == 0 {
        0
    } else {
        marked(gone.drop_last()) + if gone.last() {
            1int
        } else {
            0
        }
    }
}

proof fn lemma_marked(gone: Seq<bool>)
    ensures
        0 <= marked(gone) <= gone.len(),
        (forall|k: int| 0 <= k < gone.len() ==> !(#[trigger] gone[k])) ==> marked(gone) == 0,
    decreases gone.len(),
{
    if gone.len() > 0 {
        lemma_marked(gone.drop_last());
        if forall|k: int| 0 <= k < gone.len() ==> !(#[trigger] gone[k]) {
            assert forall|k: int| 0 <= k < gone.drop_last().len() implies !(
            #[trigger] gone.drop_last()[k]) by {
                assert(gone.drop_last()[k] == gone[k]);
            }
        }
    }
}

proof fn lemma_mark_one_more(gone: Seq<bool>, p: int)
    requires
        0 <= p < gone.len(),
        !gone[p],
    ensures
        marked(gone.update(p, true)) == marked(gone) + 1,
        marked(gone) < gone.len(),
    decreases gone.len(),
{
    let next = gone.update(p, true);
    if p == gone.len() - 1 {
        assert(next.drop_last() =~= gone.drop_last());
        lemma_marked(gone.drop_last());
    } else {
        assert(next.drop_last() =~= gone.drop_last().update(p, true));
        lemma_mark_one_more(gone.drop_last(), p);
    }
}

/// A cleanup in progress. Files are removed one at a time, outside; the next
/// one depends on which removals worked.
#[derive(Debug)]
pub struct Retention {
    files: Vec<OutputFile>,
    order: Vec<usize>,
    cap: Option<u64>,
    for_storage: bool,
    at: usize,
    clips_left: usize,
    total: u64,
    gone: Vec<bool>,
    removed: usize,
}

impl Retention {
    /// The files, oldest first.
    pub closed spec fn arranged(self) -> Seq<OutputFile> {
        arranged(self.files@, self.order@)
    }

    /// Where each of the files, oldest first, stood at the beginning.
    pub closed spec fn order(self) -> Seq<usize> {
        self.order@
    }

    /// The storage cap in bytes.
    pub closed spec fn cap(self) -> Option<u64> {
        self.cap
    }

    /// How far the cleanup has come.
    pub closed spec fn state(self) -> Cleanup {
        Cleanup {
            for_storage: self.for_storage,
            at: self.at as int,
            clips_left: self.clips_left as int,
            total: self.total as int,
            gone: self.gone@,
        }
    }

    /// How many files were removed.
    pub closed spec fn count(self) -> int {
        self.removed as int
    }

    pub closed spec fn valid(self) -> bool {
        &&& is_oldest_first(self.order@, self.files@)
        &&& self.at <= self.files@.len()
        &&& self.gone@.len() == self.files@.len()
        &&& self.removed == marked(self.gone@)
        &&& !self.for_storage ==> forall|k: int|
            self.at <= k < self.gone@.len() ==> !(#[trigger] self.gone@[k])
    }

    /// Nothing that is fixed at the start differs.
    pub open spec fn same_setup(self, other: Retention) -> bool {
        &&& self.arranged() == other.arranged()
        &&& self.order() == other.order()
        &&& self.cap() == other.cap()
    }

    /// The next file to remove, as a position in the files handed in.
    pub fn next(&mut self) -> (r: Option<usize>)
        requires
            old(self).valid(),
        ensures
            final(self).valid(),
            final(self).same_setup(*old(self)),
            final(self).count() == old(self).count(),
            final(self).state() == old(self).state().settled(
                old(self).arranged(),
                old(self).cap(),
            ),
            r == if final(self).state().at < old(self).arranged().len() {
                Some(old(self).order()[final(self).state().at])
            } else {
                None
            },
            r is Some ==> final(self).state().pending(final(self).arranged()),
    {
        let ghost sorted = self.arranged();
        let ghost begin = self.state();
        let ghost limit = self.cap;
        let n = self.order.len();
        if !self.for_storage {
            while self.at < n && self.clips_left > 0 && !self.files[self.order[self.at]].is_clip
                invariant
                    self.valid(),
                    self.same_setup(*old(self)),
                    sorted == self.arranged(),
                    n == self.order@.len(),
                    limit == self.cap,
                    !self.for_storage,
                    self.count() == old(self).count(),
                    begin.settled(sorted, limit) == self.state().settled(sorted, limit),
                decreases n - self.at,
            {
                self.at = self.at + 1;
            }
            if self.at < n && self.clips_left > 0 {
                return Some(self.order[self.at]);
            }
            let ghost ended = self.state();
            self.for_storage = true;
            self.at = 0;
            assert(self.state() == (Cleanup { for_storage: true, at: 0, ..ended }));
        }
        let ghost from = self.state();
        assert(begin.settled(sorted, limit) == from.settled(sorted, limit));
        let over = match self.cap {
            Some(max) => self.total > max,
            None => false,
        };
        if !over {
            self.at = n;
            assert(self.state() == (Cleanup { at: n as int, ..from }));
            return None;
        }
        while self.at < n && self.gone[self.at]
            invariant
                self.valid(),
                self.same_setup(*old(self)),
                sorted == self.arranged(),
                n == self.order@.len(),
                limit == self.cap,
                limit is Some && self.total > limit->0,
                self.for_storage,
                self.count() == old(self).count(),
                begin.settled(sorted, limit) == self.state().settled(sorted, limit),
            decreases n - self.at,
        {
            self.at = self.at + 1;
        }
        if self.at < n {
            Some(self.order[self.at])
        } else {
            None
        }
    }

    /// Takes note of whether the removal that `next` asked for worked.
    pub fn tried(&mut self, ok: bool)
        requires
            old(self).valid(),
            old(self).state().pending(old(self).arranged()),
        ensures
            final(self).valid(),
            final(self).same_setup(*old(self)),
            final(self).state() == old(self).state().after(old(self).arranged(), ok),
            final(self).count() == old(self).count() + if ok {
                1int
            } else {
                0
            },
    {
        let n = self.gone.len();
        assert(self.at < n);
        let size = self.files[self.order[self.at]].size;
        if ok {
            proof {
                lemma_mark_one_more(self.gone@, self.at as int);
            }
            self.total = if self.total > size {
                self.total - size
            } else {
                0
            };
            if !self.for_storage {
                self.clips_left = self.clips_left - 1;
            }
            self.gone.set(self.at, true);
            self.removed = self.removed + 1;
        }
        self.at = self.at + 1;
    }

    /// How many files were removed.
    pub fn removed(&self) -> (r: usize)
        ensures
            r == self.count(),
    {
        self.removed
    }
}

/// Starts a cleanup: the oldest outputs beyond the configured clip count,
/// and then beyond the storage cap, have to go.
pub fn enforce_retention(cfg: &Storage, files: Vec<OutputFile>) -> (r: Retention)
    requires
        bytes_of(files@) <= u64::MAX,
    ensures
        r.valid(),
        is_oldest_first(r.order(), files@),
        r.arranged() == arranged(files@, r.order()),
        bytes_of(r.arranged()) == bytes_of(files@),
        clips_of(r.arranged()) == clips_of(files@),
        r.cap() == byte_cap(*cfg),
        r.state() == cleanup_start(*cfg, r.arranged()),
        r.count() == 0,
{
    let order = oldest_first(&files);
    let ghost sorted = arranged(files@, order@);
    let mut total: u64 = 0;
    let mut clips: usize = 0;
    let mut gone: Vec<bool> = Vec::new();
    let mut i: usize = 0;
    assert(sorted.take(0).len() == 0);
    while i < order.len()
        invariant
            is_oldest_first(order@, files@),
            sorted == arranged(files@, order@),
            i <= order@.len(),
            bytes_of(sorted) <= u64::MAX,
            total == bytes_of(sorted.take(i as int)),
            clips == clips_of(sorted.take(i as int)),
            clips <= i,
            gone@ == Seq::new(i as nat, |k: int| false),
        decreases order@.len() - i,
    {
        proof {
            let next = sorted.take(i + 1);
            assert(next.drop_last() =~= sorted.take(i as int));
            assert(next.last() == files@[order@[i as int] as int]);
            lemma_bytes_prefix(sorted, i + 1);
        }
        let f = files[order[i]];
        total = total + f.size;
        if f.is_clip {
            clips = clips + 1;
        }
        gone.push(false);
        i += 1;
    }
    assert(sorted.take(i as int) =~= sorted);
    proof {
        lemma_marked(gone@);
    }
    let clips_left: usize = if cfg.max_clips > 0 && clips > cfg.max_clips {
        clips - cfg.max_clips
    } else {
        0
    };
    let cap: Option<u64> = if cfg.max_storage_mb == 0 {
        None
    } else if cfg.max_storage_mb > u64::MAX / 1048576 {
        Some(u64::MAX)
    } else {
        Some(cfg.max_storage_mb * 1048576)
    };
    let at: usize = if cfg.auto_cleanup {
        0
    } else {
        order.len()
    };
    Retention {
        files,
        order,
        cap,
        for_storage: !cfg.auto_cleanup,
        at,
        clips_left,
        total,
        gone,
        removed: 0,
    }
}

/// The files at given positions.
pub open spec fn picked(files: Seq<OutputFile>, at: Seq<int>) -> Seq<OutputFile> {
    Seq::new(at.len(), |k: int| files[at[k]])
}

proof fn lemma_picked_front(files: Seq<OutputFile>, p: int, rest: Seq<int>)
    ensures
        bytes_of(picked(files, seq![p] + rest)) == files[p].size + bytes_of(picked(files, rest)),
        clips_of(picked(files, seq![p] + rest)) == clips_of(picked(files, rest)) + if files[p].is_clip {
            1int
        } else {
            0
        },
{
    let tail = picked(files, rest);
    assert(picked(files, seq![p] + rest) =~= tail.insert(0, files[p]));
    lemma_sums_insert(tail, 0, files[p]);
}

proof fn lemma_skip_one(files: Seq<OutputFile>, at: int)
    requires
        0 <= at < files.len(),
    ensures
        clips_of(files.skip(at)) == clips_of(files.skip(at + 1)) + if files[at].is_clip {
            1int
        } else {
            0
        },
{
    assert(files.skip(at) =~= files.skip(at + 1).insert(0, files[at]));
    lemma_sums_insert(files.skip(at + 1), 0, files[at]);
}

proof fn lemma_sums_not_negative(files: Seq<OutputFile>)
    ensures
        bytes_of(files) >= 0,
        clips_of(files) >= 0,
{
    assert(files.take(0).len() == 0);
    lemma_bytes_prefix(files, 0);
}

/// Passing over files leaves the clips among the rest as they are.
proof fn lemma_skip_to(files: Seq<OutputFile>, at: int, p: int)
    requires
        0 <= at <= p <= files.len(),
        forall|k: int| at <= k < p ==> !(#[trigger] files[k]).is_clip,
    ensures
        clips_of(files.skip(at)) == clips_of(files.skip(p)),
    decreases p - at,
{
    if at < p {
        lemma_skip_one(files, at);
        lemma_skip_to(files, at + 1, p);
    }
}

/// The bytes of the files that are not gone.
spec fn bytes_left(files: Seq<OutputFile>, gone: Seq<bool>) -> int
    decreases files.len(),
{
    if files.len() == 0 {
        0
    } else {
        bytes_left(files.drop_last(), gone) + if gone[files.len() - 1] {
            0
        } else {
            files.last().size as int
        }
    }
}

/// Files count as long as they are not gone.
proof fn lemma_bytes_left(files: Seq<OutputFile>, gone: Seq<bool>)
    ensures
        0 <= bytes_left(files, gone),
        (forall|k: int| 0 <= k < files.len() ==> #[trigger] gone[k]) ==> bytes_left(files, gone)
            == 0,
        (forall|k: int| 0 <= k < files.len() ==> !(#[trigger] gone[k])) ==> bytes_left(files, gone)
            == bytes_of(files),
    decreases files.len(),
{
    if files.len() > 0 {
        lemma_bytes_left(files.drop_last(), gone);
    }
}

proof fn lemma_bytes_left_same(files: Seq<OutputFile>, a: Seq<bool>, b: Seq<bool>)
    requires
        forall|k: int| 0 <= k < files.len() ==> #[trigger] a[k] == b[k],
    ensures
        bytes_left(files, a) == bytes_left(files, b),
    decreases files.len(),
{
    if files.len() > 0 {
        lemma_bytes_left_same(files.drop_last(), a, b);
    }
}

proof fn lemma_bytes_left_less(files: Seq<OutputFile>, gone: Seq<bool>, p: int)
    requires
        0 <= p < files.len() <= gone.len(),
        !gone[p],
    ensures
        bytes_left(files, gone.update(p, true)) == bytes_left(files, gone) - files[p].size,
        bytes_left(files, gone) >= files[p].size,
    decreases files.len(),
{
    let next = gone.update(p, true);
    lemma_bytes_left(files.drop_last(), gone);
    if p == files.len() - 1 {
        lemma_bytes_left_same(files.drop_last(), next, gone);
    } else {
        lemma_bytes_left_less(files.drop_last(), gone, p);
    }
}

impl Cleanup {
    /// What holds of a cleanup under way: the files that are gone lie behind
    /// the pass for the clip cap.
    spec fn tidy(self, files: Seq<OutputFile>) -> bool {
        &&& 0 <= self.at <= files.len()
        &&& self.gone.len() == files.len()
        &&& !self.for_storage ==> forall|k: int|
            self.at <= k < files.len() ==> !(#[trigger] self.gone[k])
    }

    /// What holds besides where every removal works: the bytes counted are
    /// those left, no more clips have to go than there are, and the pass for
    /// the storage cap leaves nothing behind.
    spec fn sound(self, files: Seq<OutputFile>) -> bool {
        &&& self.tidy(files)
        &&& self.total == bytes_left(files, self.gone)
        &&& !self.for_storage ==> 0 <= self.clips_left <= clips_of(files.skip(self.at))
        &&& self.for_storage ==> forall|k: int| 0 <= k < self.at ==> #[trigger] self.gone[k]
    }

    proof fn lemma_step(self, files: Seq<OutputFile>, cap: Option<u64>, ok: bool)
        requires
            self.tidy(files),
            self.settled(files, cap).at < files.len(),
        ensures
            ({
                let s = self.settled(files, cap);
                let next = s.after(files, ok);
                &&& s.pending(files)
                &&& !self.gone[s.at]
                &&& next.tidy(files)
                &&& self.for_storage ==> next.for_storage
                &&& self.for_storage == next.for_storage ==> next.at > self.at
            }),
    {
        self.lemma_settled(files, cap);
        let s = self.settled(files, cap);
        let next = s.after(files, ok);
        if !next.for_storage {
            assert forall|k: int| next.at <= k < files.len() implies !(#[trigger] next.gone[k]) by {
                assert(!self.gone[k]);
            }
        }
    }

    proof fn lemma_sound_step(self, files: Seq<OutputFile>, cap: Option<u64>)
        requires
            self.sound(files),
            self.settled(files, cap).at < files.len(),
        ensures
            ({
                let s = self.settled(files, cap);
                &&& s.after(files, true).sound(files)
                &&& s.after(files, true).total == self.total - files[s.at].size
            }),
    {
        self.lemma_settled(files, cap);
        self.lemma_step(files, cap, true);
        let s = self.settled(files, cap);
        let next = s.after(files, true);
        lemma_bytes_left_less(files, self.gone, s.at);
        if !s.for_storage {
            lemma_skip_to(files, self.at, s.at);
            lemma_skip_one(files, s.at);
        } else {
            assert forall|k: int| 0 <= k < next.at implies #[trigger] next.gone[k] by {
                if k < s.at {
                    assert(self.gone[k]);
                }
            }
        }
    }

    proof fn lemma_run_is_fresh(
        self,
        files: Seq<OutputFile>,
        cap: Option<u64>,
        works: spec_fn(int) -> bool,
    )
        requires
            self.tidy(files),
        ensures
            ({
                let run = self.run(files, cap, works);
                &&& run.no_duplicates()
                &&& forall|k: int|
                    0 <= k < run.len() ==> 0 <= #[trigger] run[k] < files.len()
                        && !self.gone[run[k]] && works(run[k])
            }),
        decreases
            if self.for_storage {
                0int
            } else {
                1int
            },
            files.len() - self.at,
    {
        self.lemma_settled(files, cap);
        let s = self.settled(files, cap);
        if s.at < files.len() {
            let ok = works(s.at);
            self.lemma_step(files, cap, ok);
            let next = s.after(files, ok);
            next.lemma_run_is_fresh(files, cap, works);
            let rest = next.run(files, cap, works);
            let all = self.run(files, cap, works);
            if ok {
                assert(all == seq![s.at] + rest);
                assert forall|k: int| 0 <= k < rest.len() implies #[trigger] rest[k] != s.at
                    && !self.gone[rest[k]] by {
                    assert(!next.gone[rest[k]]);
                }
                assert forall|k: int| 0 <= k < all.len() implies 0 <= #[trigger] all[k]
                    < files.len() && !self.gone[all[k]] && works(all[k]) by {
                    if k > 0 {
                        assert(all[k] == rest[k - 1]);
                    }
                }
                assert forall|j: int, k: int|
                    0 <= j < all.len() && 0 <= k < all.len() && j != k implies all[j] != all[k] by {
                    if j > 0 {
                        assert(all[j] == rest[j - 1]);
                    }
                    if k > 0 {
                        assert(all[k] == rest[k - 1]);
                    }
                }
            }
        }
    }

    proof fn lemma_clips_go(
        self,
        files: Seq<OutputFile>,
        cap: Option<u64>,
        works: spec_fn(int) -> bool,
    )
        requires
            self.sound(files),
            forall|p: int| #[trigger] works(p),
        ensures
            !self.for_storage ==> clips_of(picked(files, self.run(files, cap, works)))
                >= self.clips_left,
        decreases
            if self.for_storage {
                0int
            } else {
                1int
            },
            files.len() - self.at,
    {
        if !self.for_storage {
            self.lemma_settled(files, cap);
            let s = self.settled(files, cap);
            lemma_sums_not_negative(picked(files, self.run(files, cap, works)));
            if !s.for_storage {
                assert(works(s.at));
                self.lemma_step(files, cap, true);
                self.lemma_sound_step(files, cap);
                let next = s.after(files, true);
                next.lemma_clips_go(files, cap, works);
                lemma_picked_front(files, s.at, next.run(files, cap, works));
            } else if self.clips_left > 0 {
                lemma_skip_to(files, self.at, files.len() as int);
                assert(files.skip(files.len() as int).len() == 0);
            }
        }
    }

    /// Of two files the older one goes first, as far as the pass under way
    /// looks at it.
    proof fn lemma_older_go_first(
        self,
        files: Seq<OutputFile>,
        cap: Option<u64>,
        works: spec_fn(int) -> bool,
        p: int,
        q: int,
    )
        requires
            self.tidy(files),
            0 <= p < q < files.len(),
            self.gone[p] || self.at <= p,
            files[p].is_clip || self.for_storage || self.clips_left <= 0,
            forall|p: int| #[trigger] works(p),
            self.run(files, cap, works).contains(q),
        ensures
            self.gone[p] || self.run(files, cap, works).contains(p),
        decreases
            if self.for_storage {
                0int
            } else {
                1int
            },
            files.len() - self.at,
    {
        self.lemma_settled(files, cap);
        let s = self.settled(files, cap);
        if !self.gone[p] {
            let all = self.run(files, cap, works);
            assert(s.at < files.len());
            assert(works(s.at));
            self.lemma_step(files, cap, true);
            let next = s.after(files, true);
            let rest = next.run(files, cap, works);
            assert(all == seq![s.at] + rest);
            assert(all[0] == s.at);
            assert(s.at <= p) by {
                if p < s.at {
                    if !s.for_storage {
                        assert(!files[p].is_clip);
                    } else {
                        assert(self.gone[p]);
                    }
                }
            }
            if s.at < p {
                let k = choose|k: int| 0 <= k < all.len() && all[k] == q;
                assert(rest[k - 1] == q);
                next.lemma_older_go_first(files, cap, works, p, q);
                let j = choose|j: int| 0 <= j < rest.len() && rest[j] == p;
                assert(all[j + 1] == p);
            }
        }
    }

    proof fn lemma_cap_is_met(
        self,
        files: Seq<OutputFile>,
        cap: u64,
        works: spec_fn(int) -> bool,
    )
        requires
            self.sound(files),
            forall|p: int| #[trigger] works(p),
        ensures
            self.total - bytes_of(picked(files, self.run(files, Some(cap), works))) <= cap,
        decreases
            if self.for_storage {
                0int
            } else {
                1int
            },
            files.len() - self.at,
    {
        self.lemma_settled(files, Some(cap));
        let s = self.settled(files, Some(cap));
        let run = self.run(files, Some(cap), works);
        if s.at >= files.len() {
            assert(picked(files, run).len() == 0);
            if self.total > cap {
                assert forall|k: int| 0 <= k < files.len() implies #[trigger] self.gone[k] by {}
                lemma_bytes_left(files, self.gone);
            }
        } else {
            assert(works(s.at));
            self.lemma_step(files, Some(cap), true);
            self.lemma_sound_step(files, Some(cap));
            let next = s.after(files, true);
            next.lemma_cap_is_met(files, cap, works);
            lemma_picked_front(files, s.at, next.run(files, Some(cap), works));
        }
    }
}

// ---------------------------------------------------------------------------
// Laws
// ---------------------------------------------------------------------------

proof fn lemma_start_is_sound(cfg: Storage, files: Seq<OutputFile>)
    requires
        cfg.auto_cleanup,
    ensures
        cleanup_start(cfg, files).sound(files),
{
    assert(files.skip(0) =~= files);
    lemma_sums_not_negative(files);
    lemma_bytes_left(files, cleanup_start(cfg, files).gone);
}

/// Where automatic cleanup is off, nothing is removed.
pub proof fn cleanup_off_removes_nothing(
    cfg: Storage,
    files: Seq<OutputFile>,
    works: spec_fn(int) -> bool,
)
    requires
        !cfg.auto_cleanup,
    ensures
        cleanup_start(cfg, files).run(files, byte_cap(cfg), works).len() == 0,
{
}

/// Where neither cap is passed, nothing is removed.
pub proof fn cleanup_within_caps_removes_nothing(
    cfg: Storage,
    files: Seq<OutputFile>,
    works: spec_fn(int) -> bool,
)
    requires
        cfg.max_clips == 0 || clips_of(files) <= cfg.max_clips,
        byte_cap(cfg) is Some ==> bytes_of(files) <= byte_cap(cfg)->0,
    ensures
        cleanup_start(cfg, files).run(files, byte_cap(cfg), works).len() == 0,
{
    cleanup_start(cfg, files).lemma_settled(files, byte_cap(cfg));
}

/// After a cleanup in which every removal works, no more clips are left than
/// the cap allows.
pub proof fn clip_cap_is_met(cfg: Storage, files: Seq<OutputFile>, works: spec_fn(int) -> bool)
    requires
        cfg.auto_cleanup,
        cfg.max_clips > 0,
        forall|p: int| #[trigger] works(p),
    ensures
        clips_of(files) - clips_of(
            picked(files, cleanup_start(cfg, files).run(files, byte_cap(cfg), works)),
        ) <= cfg.max_clips,
{
    lemma_start_is_sound(cfg, files);
    cleanup_start(cfg, files).lemma_clips_go(files, byte_cap(cfg), works);
}

/// After a cleanup in which every removal works, the bytes left are within
/// the cap.
pub proof fn storage_cap_is_met(cfg: Storage, files: Seq<OutputFile>, works: spec_fn(int) -> bool)
    requires
        cfg.auto_cleanup,
        byte_cap(cfg) is Some,
        forall|p: int| #[trigger] works(p),
    ensures
        bytes_of(files) - bytes_of(
            picked(files, cleanup_start(cfg, files).run(files, byte_cap(cfg), works)),
        ) <= byte_cap(cfg)->0,
{
    lemma_start_is_sound(cfg, files);
    cleanup_start(cfg, files).lemma_cap_is_met(files, byte_cap(cfg)->0, works);
}

/// Where every removal works, no clip goes before an older one.
pub proof fn older_clips_go_first(
    cfg: Storage,
    files: Seq<OutputFile>,
    works: spec_fn(int) -> bool,
    p: int,
    q: int,
)
    requires
        cfg.auto_cleanup,
        forall|p: int| #[trigger] works(p),
        0 <= p < q < files.len(),
        files[p].is_clip,
        cleanup_start(cfg, files).run(files, byte_cap(cfg), works).contains(q),
    ensures
        cleanup_start(cfg, files).run(files, byte_cap(cfg), works).contains(p),
{
    lemma_start_is_sound(cfg, files);
    cleanup_start(cfg, files).lemma_older_go_first(files, byte_cap(cfg), works, p, q);
}

/// Where every removal works and no clip has to go for the clip cap, no file
/// goes before an older one.
pub proof fn older_files_go_first(
    cfg: Storage,
    files: Seq<OutputFile>,
    works: spec_fn(int) -> bool,
    p: int,
    q: int,
)
    requires
        cfg.auto_cleanup,
        forall|p: int| #[trigger] works(p),
        0 <= p < q < files.len(),
        clips_over(cfg, files) == 0,
        cleanup_start(cfg, files).run(files, byte_cap(cfg), works).contains(q),
    ensures
        cleanup_start(cfg, files).run(files, byte_cap(cfg), works).contains(p),
{
    lemma_start_is_sound(cfg, files);
    cleanup_start(cfg, files).lemma_older_go_first(files, byte_cap(cfg), works, p, q);
}

/// Each file is removed at most once, only files there are, and only those
/// whose removal works.
pub proof fn no_file_goes_twice(
    cfg: Storage,
    files: Seq<OutputFile>,
    works: spec_fn(int) -> bool,
)
    ensures
        ({
            let run = cleanup_start(cfg, files).run(files, byte_cap(cfg), works);
            &&& run.no_duplicates()
            &&& forall|k: int|
                0 <= k < run.len() ==> 0 <= #[trigger] run[k] < files.len() && works(run[k])
        }),
{
    cleanup_start(cfg, files).lemma_run_is_fresh(files, byte_cap(cfg), works);
}

/// A destination is named by its base and its extension. The first name tried
/// has nothing between them but a dot; a later one has an underscore and its
/// number in between.
pub proof fn candidates_keep_base_and_extension(base: Seq<char>, extension: Seq<char>, k: nat)
    ensures
        ({
            let name = candidate_name(base, extension, k);
            let middle = name.subrange(base.len() as int, name.len() - extension.len() - 1);
            &&& name.len() >= base.len() + 1 + extension.len()
            &&& name.take(base.len() as int) == base
            &&& name.skip(name.len() - extension.len()) == extension
            &&& name[name.len() - extension.len() - 1] == '.'
            &&& k == 0 ==> middle.len() == 0
            &&& k > 0 ==> middle.len() > 1 && middle[0] == '_' && text::number(middle.skip(1))
                == Some(k)
        }),
{
    reveal_strlit("_");
    reveal_strlit(".");
    let name = candidate_name(base, extension, k);
    let middle = name.subrange(base.len() as int, name.len() - extension.len() - 1);
    text::decimal_round_trip(k, 0);
    assert(name.take(base.len() as int) =~= base);
    assert(name.skip(name.len() - extension.len()) =~= extension);
    if k > 0 {
        assert(middle.skip(1) =~= text::decimal(k));
    }
}

/// The name chosen is the first that is free: every one before it is taken.
pub proof fn first_free_name_is_chosen(exists_at: Seq<bool>)
    ensures
        0 <= first_free(exists_at) <= exists_at.len(),
        first_free(exists_at) < exists_at.len() ==> !exists_at[first_free(exists_at)],
        forall|i: int| 0 <= i < first_free(exists_at) ==> #[trigger] exists_at[i],
    decreases exists_at.len(),
{
    if exists_at.len() > 0 && exists_at[0] {
        let rest = exists_at.drop_first();
        first_free_name_is_chosen(rest);
        assert forall|i: int| 0 <= i < first_free(exists_at) implies #[trigger] exists_at[i] by {
            if i > 0 {
                assert(rest[i - 1]);
            }
        }
    }
}

/// Bytes add up file by file, and clips are counted one by one.
pub proof fn sums_go_file_by_file(files: Seq<OutputFile>, i: int)
    requires
        0 <= i < files.len(),
    ensures
        bytes_of(Seq::<OutputFile>::empty()) == 0,
        clips_of(Seq::<OutputFile>::empty()) == 0,
        bytes_of(files) == bytes_of(files.remove(i)) + files[i].size,
        clips_of(files) == clips_of(files.remove(i)) + if files[i].is_clip {
            1int
        } else {
            0
        },
{
    assert(files =~= files.remove(i).insert(i, files[i]));
    lemma_sums_insert(files.remove(i), i, files[i]);
}

/// The files are taken by age: each of them once, and none before an older one.
pub proof fn files_are_taken_by_age(order: Seq<usize>, files: Seq<OutputFile>)
    requires
        is_oldest_first(order, files),
        files.len() <= usize::MAX,
    ensures
        order.no_duplicates(),
        forall|i: int| 0 <= i < files.len() ==> #[trigger] order.contains(i as usize),
        forall|a: int, b: int|
            0 <= a < b < order.len() ==> files[#[trigger] order[a] as int].modified_ms
                <= files[#[trigger] order[b] as int].modified_ms,
        arranged(files, order).len() == files.len(),
        forall|a: int|
            0 <= a < order.len() ==> #[trigger] arranged(files, order)[a] == files[order[a] as int],
{
    assert forall|a: int, b: int| 0 <= a < order.len() && 0 <= b < order.len() && a != b implies order[a]
        != order[b] by {
        if a < b {
            assert(precedes(files, order[a] as int, order[b] as int));
        } else {
            assert(precedes(files, order[b] as int, order[a] as int));
        }
    }
    order.unique_seq_to_set();
    let all = Set::new(|x: usize| x < files.len());
    let n = files.len();
    lemma_numbers_below(n);
    assert(order.to_set().subset_of(all)) by {
        assert forall|x: usize| order.to_set().contains(x) implies all.contains(x) by {
            let a = choose|a: int| 0 <= a < order.len() && order[a] == x;
            assert(order[a] < files.len());
        }
    }
    vstd::set_lib::lemma_subset_equality(order.to_set(), all);
    assert forall|i: int| 0 <= i < files.len() implies #[trigger] order.contains(i as usize) by {
        assert(all.contains(i as usize));
        assert(order.to_set().contains(i as usize));
    }
}

proof fn lemma_numbers_below(n: nat)
    requires
        n <= usize::MAX,
    ensures
        Set::new(|x: usize| x < n).finite(),
        Set::new(|x: usize| x < n).len() == n,
    decreases n,
{
    let all = Set::new(|x: usize| x < n);
    if n == 0 {
        assert(all =~= Set::empty());
    } else {
        let fewer = Set::new(|x: usize| x < (n - 1) as nat);
        lemma_numbers_below((n - 1) as nat);
        assert(all =~= fewer.insert((n - 1) as usize));
    }
}

impl Cleanup {
    /// Each removal is asked for when it is made.
    proof fn lemma_asked_for(
        self,
        files: Seq<OutputFile>,
        cap: Option<u64>,
        works: spec_fn(int) -> bool,
        k: int,
    )
        requires
            self.tidy(files),
            0 <= k < self.run(files, cap, works).len(),
        ensures
            ({
                let run = self.run(files, cap, works);
                ||| !self.for_storage && k < self.clips_left && files[run[k]].is_clip
                ||| cap is Some && self.total - bytes_of(picked(files, run.take(k))) > cap->0
            }),
        decreases
            if self.for_storage {
                0int
            } else {
                1int
            },
            files.len() - self.at,
    {
        self.lemma_settled(files, cap);
        let s = self.settled(files, cap);
        let run = self.run(files, cap, works);
        assert(s.at < files.len());
        let ok = works(s.at);
        self.lemma_step(files, cap, ok);
        let next = s.after(files, ok);
        let rest = next.run(files, cap, works);
        if ok {
            assert(run == seq![s.at] + rest);
            if k == 0 {
                assert(picked(files, run.take(0)).len() == 0);
            } else {
                next.lemma_asked_for(files, cap, works, k - 1);
                assert(run[k] == rest[k - 1]);
                assert(run.take(k) =~= seq![s.at] + rest.take(k - 1));
                lemma_picked_front(files, s.at, rest.take(k - 1));
                lemma_sums_not_negative(picked(files, rest.take(k - 1)));
            }
        } else {
            next.lemma_asked_for(files, cap, works, k);
        }
    }
}

/// Nothing is removed beyond what a cap asks for. Of the files removed, one
/// after the other, each is a clip and among as many as there were clips too
/// many at the beginning, or else the files still there just before took up more
/// than the storage cap. Whether removals work makes no difference.
pub proof fn every_removal_is_asked_for(
    cfg: Storage,
    files: Seq<OutputFile>,
    works: spec_fn(int) -> bool,
    k: int,
)
    requires
        bytes_of(files) <= u64::MAX,
        0 <= k < cleanup_start(cfg, files).run(files, byte_cap(cfg), works).len(),
    ensures
        ({
            let run = cleanup_start(cfg, files).run(files, byte_cap(cfg), works);
            let still_there = bytes_of(files) - bytes_of(picked(files, run.take(k)));
            &&& cfg.auto_cleanup
            &&& {
                ||| cfg.max_clips > 0 && k < clips_of(files) - cfg.max_clips
                    && files[run[k]].is_clip
                ||| cfg.max_storage_mb > 0 && still_there > cfg.max_storage_mb * 1024 * 1024
            }
        }),
{
    let run = cleanup_start(cfg, files).run(files, byte_cap(cfg), works);
    if !cfg.auto_cleanup {
        cleanup_off_removes_nothing(cfg, files, works);
    }
    cleanup_start(cfg, files).lemma_asked_for(files, byte_cap(cfg), works, k);
    lemma_sums_not_negative(picked(files, run.take(k)));
}

/// Where the files are within the storage cap, exactly the clips beyond the
/// clip cap go, so that exactly as many stay as may. Every removal works.
pub proof fn only_the_clips_beyond_the_cap_go(
    cfg: Storage,
    files: Seq<OutputFile>,
    works: spec_fn(int) -> bool,
)
    requires
        cfg.auto_cleanup,
        bytes_of(files) <= u64::MAX,
        cfg.max_storage_mb == 0 || bytes_of(files) <= cfg.max_storage_mb * 1024 * 1024,
        forall|p: int| #[trigger] works(p),
    ensures
        ({
            let run = cleanup_start(cfg, files).run(files, byte_cap(cfg), works);
            &&& run.len() == if cfg.max_clips > 0 && clips_of(files) > cfg.max_clips {
                clips_of(files) - cfg.max_clips
            } else {
                0
            }
            &&& forall|k: int| 0 <= k < run.len() ==> files[#[trigger] run[k]].is_clip
        }),
{
    let run = cleanup_start(cfg, files).run(files, byte_cap(cfg), works);
    assert forall|k: int| 0 <= k < run.len() implies files[#[trigger] run[k]].is_clip
        && cfg.max_clips > 0 && k < clips_of(files) - cfg.max_clips by {
        every_removal_is_asked_for(cfg, files, works, k);
        lemma_sums_not_negative(picked(files, run.take(k)));
    }
    if run.len() > 0 {
        assert(files[run[run.len() - 1]].is_clip);
    }
    if cfg.max_clips > 0 && clips_of(files) > cfg.max_clips {
        clip_cap_is_met(cfg, files, works);
        lemma_clips_are_files(picked(files, run));
    }
}

proof fn lemma_clips_are_files(files: Seq<OutputFile>)
    ensures
        clips_of(files) <= files.len(),
    decreases files.len(),
{
    if files.len() > 0 {
        lemma_clips_are_files(files.drop_last());
    }
}

/// After a cleanup in which every removal works, no more megabytes are left
/// than allowed.
pub proof fn no_more_megabytes_are_left_than_allowed(
    cfg: Storage,
    files: Seq<OutputFile>,
    works: spec_fn(int) -> bool,
)
    requires
        cfg.auto_cleanup,
        cfg.max_storage_mb > 0,
        forall|p: int| #[trigger] works(p),
    ensures
        bytes_of(files) - bytes_of(
            picked(files, cleanup_start(cfg, files).run(files, byte_cap(cfg), works)),
        ) <= cfg.max_storage_mb * 1024 * 1024,
{
    storage_cap_is_met(cfg, files, works);
}

} // verus!
