//! The content-addressed cache's decisions: the size cap, which files
//! of the cache directory are entries, the directory summary, the
//! least-recently-used eviction order, and the BLAKE3 key with its hex
//! file name.
//!
//! Keys digest the source bytes, the canonical TOML of the active
//! configuration, the prose version and the cache format version, in
//! that order. Eviction removes entries oldest modification time first
//! (file order breaking ties) until the directory's total is within the
//! cap.

use vstd::prelude::*;
use vstd::utf8::*;

use crate::diagnostics::Diagnostic;
use crate::text::{chars_of, push_char};

verus! {

/// The cache format version, bumped whenever the entry shape changes.
pub const CACHE_FORMAT_VERSION: &'static str = "1";

/// The prose version folded into every key.
pub const PROSE_VERSION: &'static str = "0.1.0";

/// User-level on-disk cache: the directory it lives in and its size cap
/// in bytes.
#[derive(Debug)]
pub struct Cache {
    pub max_size_bytes: u64,
    pub root: String,
}

/// One file of the cache directory as listed: its file name, its size,
/// and its modification time in nanoseconds since the Unix epoch when
/// the platform reports one.
#[derive(Debug)]
pub struct CacheFile {
    pub name: String,
    pub bytes: u64,
    pub mtime: Option<u128>,
}

/// Snapshot of the cache directory's contents at one point in time.
#[derive(Clone, Debug, PartialEq, Eq)]
pub struct CacheInfo {
    pub bytes: u64,
    pub entries: usize,
    pub newest_mtime: Option<u128>,
    pub oldest_mtime: Option<u128>,
    pub path: String,
}

/// Outcome of a clean or compact pass: the bytes and entries removed.
#[derive(Clone, Copy, Debug, PartialEq, Eq, Structural)]
pub struct CleanReport {
    pub bytes: u64,
    pub entries: usize,
}

impl Default for CleanReport {
    fn default() -> (r: CleanReport)
        ensures
            r == (CleanReport { bytes: 0, entries: 0 }),
    {
        CleanReport { bytes: 0, entries: 0 }
    }
}

impl CleanReport {
    /// Counts one more removed file of `bytes` bytes.
    pub fn add(&mut self, bytes: u64)
        requires
            old(self).bytes + bytes <= u64::MAX,
            old(self).entries < usize::MAX,
        ensures
            final(self).bytes == old(self).bytes + bytes,
            final(self).entries == old(self).entries + 1,
    {
        self.bytes = self.bytes + bytes;
        self.entries = self.entries + 1;
    }
}

/// A file name carries no extension: it holds no `.`, its only `.` opens
/// it (a hidden file), or it is `..`. Sidecar temporaries such as
/// `x.tmp` carry one and are no entries.
pub open spec fn is_entry_name(n: Seq<char>) -> bool {
    ||| n.len() == 2 && n[0] == '.' && n[1] == '.'
    ||| forall|k: int| 0 <= k < n.len() ==> #[trigger] n[k] != '.'
    ||| (n.len() > 0 && n[0] == '.' && forall|k: int| 1 <= k < n.len() ==> #[trigger] n[k] != '.')
}

/// True when the file named `name` is a keyed cache entry, that is when
/// the name carries no extension.
pub fn is_entry_file(name: &str) -> (r: bool)
    ensures
        r == is_entry_name(name@),
{
    let cs = chars_of(name);
    if cs.len() == 2 && cs[0] == '.' && cs[1] == '.' {
        return true;
    }
    let mut last: Option<usize> = None;
    let mut k: usize = 0;
    while k < cs.len()
        invariant
            k <= cs.len(),
            cs@ == name@,
            match last {
                Some(d) => d < k && cs@[d as int] == '.' && forall|j: int| d < j < k ==> #[trigger] cs@[j] != '.',
                None => forall|j: int| 0 <= j < k ==> #[trigger] cs@[j] != '.',
            },
        decreases cs.len() - k,
    {
        if cs[k] == '.' {
            last = Some(k);
        }
        k += 1;
    }
    match last {
        None => true,
        Some(d) => {
            if d == 0 {
                true
            } else {
                assert(cs@[d as int] == '.');
                assert(!(cs@.len() == 2 && cs@[0] == '.' && cs@[1] == '.'));
                false
            }
        },
    }
}

/// The number of entry files among the first `n` listed.
pub open spec fn entry_count(fs: Seq<CacheFile>, n: int) -> int
    decreases n,
{
    if n <= 0 {
        0
    } else {
        entry_count(fs, n - 1) + if is_entry_name(fs[n - 1].name@) { 1int } else { 0int }
    }
}

/// The total size of the entry files among the first `n` listed.
pub open spec fn entry_bytes(fs: Seq<CacheFile>, n: int) -> int
    decreases n,
{
    if n <= 0 {
        0
    } else {
        entry_bytes(fs, n - 1) + if is_entry_name(fs[n - 1].name@) { fs[n - 1].bytes as int } else { 0int }
    }
}

/// The oldest modification time among the first `n` listed entry
/// files that report one.
pub open spec fn oldest_mtime(fs: Seq<CacheFile>, n: int) -> Option<u128>
    decreases n,
{
    if n <= 0 {
        None
    } else {
        let prev = oldest_mtime(fs, n - 1);
        match fs[n - 1].mtime {
            Some(t) if is_entry_name(fs[n - 1].name@) => Some(
                match prev {
                    Some(o) => if o <= t { o } else { t },
                    None => t,
                },
            ),
            _ => prev,
        }
    }
}

/// The newest modification time among the first `n` listed entry
/// files that report one.
pub open spec fn newest_mtime(fs: Seq<CacheFile>, n: int) -> Option<u128>
    decreases n,
{
    if n <= 0 {
        None
    } else {
        let prev = newest_mtime(fs, n - 1);
        match fs[n - 1].mtime {
            Some(t) if is_entry_name(fs[n - 1].name@) => Some(
                match prev {
                    Some(o) => if o >= t { o } else { t },
                    None => t,
                },
            ),
            _ => prev,
        }
    }
}

proof fn lemma_entry_counts_grow(fs: Seq<CacheFile>, n: int, m: int)
    requires
        0 <= n <= m,
    ensures
        entry_bytes(fs, n) <= entry_bytes(fs, m),
        0 <= entry_count(fs, n) <= n,
    decreases m,
{
    if n < m {
        lemma_entry_counts_grow(fs, n, m - 1);
    } else if n > 0 {
        lemma_entry_counts_grow(fs, n - 1, n - 1);
    }
}

/// Which file comes first in eviction order: the older modification
/// time, a missing time counting as the epoch, and the earlier listing
/// position on equal times.
pub open spec fn evicts_before(fs: Seq<CacheFile>, a: int, b: int) -> bool {
    let ta = match fs[a].mtime {
        Some(t) => t,
        None => 0,
    };
    let tb = match fs[b].mtime {
        Some(t) => t,
        None => 0,
    };
    ta < tb || (ta == tb && a < b)
}

/// `order` lists exactly the entry files of `fs`, in eviction order.
pub open spec fn is_eviction_order(fs: Seq<CacheFile>, order: Seq<usize>) -> bool {
    &&& forall|i: int, j: int| 0 <= i < j < order.len() ==> evicts_before(fs, order[i] as int, order[j] as int)
    &&& forall|k: int| 0 <= k < order.len() ==> order[k] < fs.len() && is_entry_name(fs[order[k] as int].name@)
    &&& forall|f: int| 0 <= f < fs.len() && is_entry_name(fs[f].name@) ==> order.contains(f as usize)
}

fn mtime_or_epoch(f: &CacheFile) -> (t: u128)
    ensures
        t == match f.mtime {
            Some(t) => t,
            None => 0,
        },
{
    match f.mtime {
        Some(t) => t,
        None => 0,
    }
}

/// The entry files of `files`, in eviction order.
pub fn eviction_order(files: &[CacheFile]) -> (order: Vec<usize>)
    ensures
        is_eviction_order(files@, order@),
{
    let mut order: Vec<usize> = Vec::new();
    let mut f: usize = 0;
    while f < files.len()
        invariant
            f <= files.len(),
            forall|i: int, j: int| 0 <= i < j < order.len() ==> evicts_before(files@, order@[i] as int, order@[j] as int),
            forall|k: int| 0 <= k < order.len() ==> order@[k] < f && is_entry_name(files@[order@[k] as int].name@),
            forall|g: int| 0 <= g < f && is_entry_name(files@[g].name@) ==> order@.contains(g as usize),
        decreases files.len() - f,
    {
        if is_entry_file(files[f].name.as_str()) {
            let key = mtime_or_epoch(&files[f]);
            let mut p: usize = 0;
            while p < order.len() && mtime_or_epoch(&files[order[p]]) <= key
                invariant
                    p <= order.len(),
                    f < files.len(),
                    key == match files@[f as int].mtime {
                        Some(t) => t,
                        None => 0,
                    },
                    forall|k: int| 0 <= k < order.len() ==> order@[k] < f,
                    forall|k: int| 0 <= k < p ==> evicts_before(files@, order@[k] as int, f as int),
                decreases order.len() - p,
            {
                p += 1;
            }
            let ghost before = order@;
            proof {
                assert forall|k: int| p <= k < before.len() implies evicts_before(files@, f as int, before[k] as int) by {
                    if k > p as int {
                        assert(evicts_before(files@, before[p as int] as int, before[k] as int));
                    }
                }
            }
            order.insert(p, f);
            proof {
                assert forall|i: int, j: int| 0 <= i < j < order.len() implies evicts_before(
                    files@,
                    order@[i] as int,
                    order@[j] as int,
                ) by {
                    if j < p {
                        assert(order@[i] == before[i] && order@[j] == before[j]);
                    } else if j == p {
                        assert(order@[i] == before[i]);
                    } else if i < p {
                        assert(order@[i] == before[i] && order@[j] == before[j - 1]);
                        assert(evicts_before(files@, before[i] as int, f as int));
                        assert(evicts_before(files@, f as int, before[j - 1] as int));
                    } else if i == p {
                        assert(order@[j] == before[j - 1]);
                    } else {
                        assert(order@[i] == before[i - 1] && order@[j] == before[j - 1]);
                    }
                }
                assert forall|g: int| 0 <= g < f + 1 && is_entry_name(files@[g].name@) implies order@.contains(
                    g as usize,
                ) by {
                    if g < f {
                        let k = choose|k: int| 0 <= k < before.len() && before[k] == g as usize;
                        if k < p {
                            assert(order@[k] == g as usize);
                        } else {
                            assert(order@[k + 1] == g as usize);
                        }
                    } else {
                        assert(order@[p as int] == f);
                    }
                }
                assert forall|k: int| 0 <= k < order.len() implies order@[k] < f + 1 && is_entry_name(
                    files@[order@[k] as int].name@,
                ) by {
                    if k < p {
                        assert(order@[k] == before[k]);
                    } else if k > p {
                        assert(order@[k] == before[k - 1]);
                    }
                }
            }
        }
        f += 1;
    }
    order
}

/// The sum of a run of sizes.
pub open spec fn seq_sum(s: Seq<u64>) -> int
    decreases s.len(),
{
    if s.len() == 0 {
        0
    } else {
        s[0] + seq_sum(s.drop_first())
    }
}

/// The sizes of the files `o` lists.
pub open spec fn sizes_of(fs: Seq<CacheFile>, o: Seq<usize>) -> Seq<u64> {
    o.map_values(|i: usize| fs[i as int].bytes)
}

proof fn lemma_sum_remove(s: Seq<u64>, p: int)
    requires
        0 <= p < s.len(),
    ensures
        seq_sum(s) == s[p] + seq_sum(s.remove(p)),
    decreases s.len(),
{
    if p == 0 {
        assert(s.remove(0) =~= s.drop_first());
    } else {
        lemma_sum_remove(s.drop_first(), p - 1);
        assert(s.remove(p).drop_first() =~= s.drop_first().remove(p - 1));
        assert(s.remove(p)[0] == s[0]);
    }
}

proof fn lemma_sum_skip(s: Seq<u64>, c: int)
    requires
        0 <= c < s.len(),
    ensures
        seq_sum(s.skip(c)) == s[c] + seq_sum(s.skip(c + 1)),
{
    assert(s.skip(c).drop_first() =~= s.skip(c + 1));
}

proof fn lemma_sum_nonneg(s: Seq<u64>)
    ensures
        seq_sum(s) >= 0,
    decreases s.len(),
{
    if s.len() > 0 {
        lemma_sum_nonneg(s.drop_first());
    }
}

/// The sizes of any listing of exactly the entry files, each once, add
/// up to the entry total.
proof fn lemma_sum_entries(fs: Seq<CacheFile>, o: Seq<usize>, n: int)
    requires
        0 <= n <= fs.len() <= usize::MAX,
        forall|i: int, j: int| 0 <= i < j < o.len() ==> o[i] != o[j],
        forall|k: int| 0 <= k < o.len() ==> o[k] < n && is_entry_name(fs[o[k] as int].name@),
        forall|f: int| 0 <= f < n && is_entry_name(fs[f].name@) ==> o.contains(f as usize),
    ensures
        seq_sum(sizes_of(fs, o)) == entry_bytes(fs, n),
    decreases n,
{
    if n == 0 {
        if o.len() > 0 {
            assert(o[0] < 0);
        }
        assert(sizes_of(fs, o) =~= Seq::<u64>::empty());
    } else if is_entry_name(fs[n - 1].name@) {
        let p = choose|p: int| 0 <= p < o.len() && o[p] == (n - 1) as usize;
        let o2 = o.remove(p);
        assert forall|k: int| 0 <= k < o2.len() implies o2[k] < n - 1 && is_entry_name(fs[o2[k] as int].name@) by {
            if k < p {
                assert(o2[k] == o[k]);
            } else {
                assert(o2[k] == o[k + 1]);
            }
        }
        assert forall|f: int| 0 <= f < n - 1 && is_entry_name(fs[f].name@) implies o2.contains(f as usize) by {
            let q = choose|q: int| 0 <= q < o.len() && o[q] == f as usize;
            if q < p {
                assert(o2[q] == f as usize);
            } else {
                assert(q != p);
                assert(o2[q - 1] == f as usize);
            }
        }
        assert forall|i: int, j: int| 0 <= i < j < o2.len() implies o2[i] != o2[j] by {
            let ii = if i < p { i } else { i + 1 };
            let jj = if j < p { j } else { j + 1 };
            assert(o2[i] == o[ii] && o2[j] == o[jj]);
        }
        lemma_sum_entries(fs, o2, n - 1);
        lemma_sum_remove(sizes_of(fs, o), p);
        assert(sizes_of(fs, o).remove(p) =~= sizes_of(fs, o2));
    } else {
        lemma_sum_entries(fs, o, n - 1);
    }
}

/// The plan of one compact pass: the entry files in eviction order with
/// their sizes, the directory's running total, the cap, how far the pass
/// has got, the size of the file last handed out, and what has been
/// removed so far. The caller asks `next` for the next file to remove,
/// removes it, and reports success with `removed`.
pub struct Compaction {
    pub order: Vec<usize>,
    pub sizes: Vec<u64>,
    pub total: u64,
    pub max_size_bytes: u64,
    pub cursor: usize,
    pub pending: Option<u64>,
    pub report: CleanReport,
}

impl Compaction {
    /// The plan's internal agreement: the files not yet handed out, and
    /// the one handed out and not yet reported, fit in the running
    /// total, and the total plus what was removed fits in a `u64`.
    pub open spec fn wf(&self) -> bool {
        &&& self.sizes@.len() == self.order@.len()
        &&& self.cursor <= self.order.len()
        &&& self.total + self.report.bytes <= u64::MAX
        &&& seq_sum(self.sizes@.skip(self.cursor as int)) + (match self.pending {
            Some(b) => b as int,
            None => 0,
        }) <= self.total
        &&& self.report.entries + (if self.pending is Some { 1int } else { 0int }) <= self.cursor
    }

    /// The next file to remove: the oldest not yet tried, while the
    /// directory is still over its cap; `None` once it is within the cap
    /// or every entry was tried.
    pub fn next(&mut self) -> (r: Option<usize>)
        requires
            old(self).wf(),
        ensures
            final(self).wf(),
            final(self).order == old(self).order,
            final(self).sizes == old(self).sizes,
            final(self).total == old(self).total,
            final(self).report == old(self).report,
            final(self).max_size_bytes == old(self).max_size_bytes,
            (old(self).cursor < old(self).order.len() && old(self).total > old(self).max_size_bytes) ==> (r == Some(
                old(self).order@[old(self).cursor as int],
            ) && final(self).cursor == old(self).cursor + 1 && final(self).pending == Some(
                old(self).sizes@[old(self).cursor as int],
            )),
            !(old(self).cursor < old(self).order.len() && old(self).total > old(self).max_size_bytes) ==> (r is None
                && final(self).cursor == old(self).cursor && final(self).pending is None),
    {
        if self.cursor < self.order.len() && self.total > self.max_size_bytes {
            proof {
                lemma_sum_skip(self.sizes@, self.cursor as int);
                lemma_sum_nonneg(self.sizes@.skip(self.cursor + 1));
            }
            let i = self.order[self.cursor];
            let b = self.sizes[self.cursor];
            self.cursor = self.cursor + 1;
            self.pending = Some(b);
            Some(i)
        } else {
            proof {
                lemma_sum_nonneg(self.sizes@.skip(self.cursor as int));
            }
            self.pending = None;
            None
        }
    }

    /// Records that the file `next` handed out was removed: the running
    /// total drops by its size and the report counts it.
    pub fn removed(&mut self)
        requires
            old(self).wf(),
            old(self).pending is Some,
        ensures
            final(self).wf(),
            final(self).total == old(self).total - old(self).pending->0,
            final(self).report.bytes == old(self).report.bytes + old(self).pending->0,
            final(self).report.entries == old(self).report.entries + 1,
            final(self).pending is None,
            final(self).order == old(self).order,
            final(self).sizes == old(self).sizes,
            final(self).cursor == old(self).cursor,
            final(self).max_size_bytes == old(self).max_size_bytes,
    {
        proof {
            lemma_sum_nonneg(self.sizes@.skip(self.cursor as int));
        }
        let b = match self.pending {
            Some(b) => b,
            None => 0,
        };
        self.total = self.total - b;
        self.report.bytes = self.report.bytes + b;
        self.report.entries = self.report.entries + 1;
        self.pending = None;
    }
}

impl Cache {
    /// The cache rooted at `root`, with an unbounded size cap.
    pub fn with_root(root: String) -> (c: Cache)
        ensures
            c.root@ == root@,
            c.max_size_bytes == u64::MAX,
    {
        Cache { max_size_bytes: u64::MAX, root }
    }

    /// Sets the eviction cap in MiB.
    pub fn with_max_size_mib(self, mib: u32) -> (c: Cache)
        ensures
            c.max_size_bytes == mib * 1024 * 1024,
            c.root@ == self.root@,
    {
        let bytes: u64 = (mib as u64) * 1024 * 1024;
        Cache { max_size_bytes: bytes, root: self.root }
    }

    /// Reports the cache directory's path, entry count and byte total,
    /// plus the oldest and newest entry modification times when any
    /// entry reports one. `files` is the directory's listing; files with
    /// an extension are no entries and are skipped.
    pub fn info(&self, files: &[CacheFile]) -> (r: CacheInfo)
        requires
            entry_bytes(files@, files.len() as int) <= u64::MAX,
        ensures
            r.path@ == self.root@,
            r.entries == entry_count(files@, files.len() as int),
            r.bytes == entry_bytes(files@, files.len() as int),
            r.oldest_mtime == oldest_mtime(files@, files.len() as int),
            r.newest_mtime == newest_mtime(files@, files.len() as int),
    {
        let mut entries: usize = 0;
        let mut bytes: u64 = 0;
        let mut oldest: Option<u128> = None;
        let mut newest: Option<u128> = None;
        let mut i: usize = 0;
        while i < files.len()
            invariant
                i <= files.len(),
                entry_bytes(files@, files.len() as int) <= u64::MAX,
                entries == entry_count(files@, i as int),
                bytes == entry_bytes(files@, i as int),
                oldest == oldest_mtime(files@, i as int),
                newest == newest_mtime(files@, i as int),
            decreases files.len() - i,
        {
            proof {
                lemma_entry_counts_grow(files@, i + 1, files.len() as int);
            }
            if is_entry_file(files[i].name.as_str()) {
                entries = entries + 1;
                bytes = bytes + files[i].bytes;
                if let Some(t) = files[i].mtime {
                    oldest = match oldest {
                        Some(o) => if o <= t { Some(o) } else { Some(t) },
                        None => Some(t),
                    };
                    newest = match newest {
                        Some(o) => if o >= t { Some(o) } else { Some(t) },
                        None => Some(t),
                    };
                }
            }
            i += 1;
        }
        CacheInfo { bytes, entries, newest_mtime: newest, oldest_mtime: oldest, path: self.root.clone() }
    }

    /// Plans the eviction pass that brings the directory within the cap:
    /// the entry files of `files` in eviction order, with their sizes and
    /// the directory's entry total.
    pub fn compact_plan(&self, files: &[CacheFile]) -> (p: Compaction)
        requires
            entry_bytes(files@, files.len() as int) <= u64::MAX,
        ensures
            p.wf(),
            is_eviction_order(files@, p.order@),
            p.sizes@.len() == p.order@.len(),
            forall|k: int| 0 <= k < p.order.len() ==> p.sizes@[k] == files@[p.order@[k] as int].bytes,
            p.total == entry_bytes(files@, files.len() as int),
            p.max_size_bytes == self.max_size_bytes,
            p.cursor == 0,
            p.pending is None,
            p.report == (CleanReport { bytes: 0, entries: 0 }),
    {
        let info = self.info(files);
        let order = eviction_order(files);
        let mut sizes: Vec<u64> = Vec::new();
        let mut k: usize = 0;
        while k < order.len()
            invariant
                k <= order.len(),
                is_eviction_order(files@, order@),
                sizes@.len() == k,
                forall|j: int| 0 <= j < k ==> sizes@[j] == files@[order@[j] as int].bytes,
            decreases order.len() - k,
        {
            sizes.push(files[order[k]].bytes);
            k += 1;
        }
        proof {
            assert forall|i: int, j: int| 0 <= i < j < order@.len() implies order@[i] != order@[j] by {
                assert(evicts_before(files@, order@[i] as int, order@[j] as int));
            }
            lemma_sum_entries(files@, order@, files.len() as int);
            assert(sizes_of(files@, order@) =~= sizes@);
            assert(sizes@.skip(0) =~= sizes@);
        }
        Compaction {
            order,
            sizes,
            total: info.bytes,
            max_size_bytes: self.max_size_bytes,
            cursor: 0,
            pending: None,
            report: CleanReport { bytes: 0, entries: 0 },
        }
    }
}

/// What a run left of a file's text, as the cache records it: the
/// rewritten text, no rewrite attempted, or a rewrite that settled back
/// to the input.
#[derive(Debug)]
pub enum Rewrite {
    Changed(String),
    Skipped,
    Unchanged,
}

/// What the cache stores for one key: the as-written diagnostics and
/// what became of the text.
pub struct CacheEntry {
    pub diagnostics: Vec<Diagnostic>,
    pub rewrite: Rewrite,
}

/// The BLAKE3 digest that `blake3::hash` gives the bytes `input`.
pub uninterp spec fn blake3_digest(input: Seq<u8>) -> Seq<u8>;

/// The 32-byte BLAKE3 hash of `input` by `blake3::hash`, a function of
/// the input bytes alone.
#[verifier::external_body]
fn blake3_hash(input: &[u8]) -> (h: [u8; 32])
    ensures
        h@ == blake3_digest(input@),
{
    *blake3::hash(input).as_bytes()
}

/// The BLAKE3 digest of a source file under a configuration, the prose
/// version and the cache format version.
#[derive(Clone, Copy, Debug, PartialEq, Eq, Hash)]
pub struct CacheKey(pub [u8; 32]);

/// The input a key digests: the four parts, concatenated in order.
pub open spec fn key_input(source: Seq<u8>, config: Seq<char>, prose_version: Seq<char>, format_version: Seq<char>) -> Seq<u8> {
    source + encode_utf8(config) + encode_utf8(prose_version) + encode_utf8(format_version)
}

fn append_bytes(out: &mut Vec<u8>, b: &[u8])
    ensures
        final(out)@ == old(out)@ + b@,
{
    let mut i: usize = 0;
    while i < b.len()
        invariant
            i <= b.len(),
            out@ == old(out)@ + b@.take(i as int),
        decreases b.len() - i,
    {
        out.push(b[i]);
        assert((old(out)@ + b@.take(i as int)).push(b@[i as int]) =~= old(out)@ + b@.take(i + 1));
        i += 1;
    }
    assert(b@.take(b.len() as int) =~= b@);
}

impl CacheKey {
    /// The key for `source_bytes` under the serialized configuration
    /// `config_toml`, given the prose and cache format versions.
    pub fn compute_with_versions(source_bytes: &[u8], config_toml: &str, prose_version: &str, format_version: &str) -> (k: CacheKey)
        ensures
            k.0@ == blake3_digest(key_input(source_bytes@, config_toml@, prose_version@, format_version@)),
    {
        let mut input: Vec<u8> = Vec::new();
        append_bytes(&mut input, source_bytes);
        append_bytes(&mut input, config_toml.as_bytes());
        append_bytes(&mut input, prose_version.as_bytes());
        append_bytes(&mut input, format_version.as_bytes());
        assert(input@ =~= Seq::<u8>::empty() + source_bytes@ + encode_utf8(config_toml@) + encode_utf8(prose_version@)
            + encode_utf8(format_version@));
        CacheKey(blake3_hash(input.as_slice()))
    }

    /// The key for `source_bytes` under the serialized configuration
    /// `config_toml`, at this library's prose and cache format versions.
    pub fn compute(source_bytes: &[u8], config_toml: &str) -> (k: CacheKey)
        ensures
            k.0@ == blake3_digest(key_input(source_bytes@, config_toml@, PROSE_VERSION@, CACHE_FORMAT_VERSION@)),
    {
        CacheKey::compute_with_versions(source_bytes, config_toml, PROSE_VERSION, CACHE_FORMAT_VERSION)
    }

    /// The key as 64 lowercase hex digits, the entry's file name.
    pub fn to_hex(&self) -> (s: String)
        ensures
            s@ == hex_of(self.0@),
    {
        let digits = chars_of("0123456789abcdef");
        proof {
            reveal_strlit("0123456789abcdef");
        }
        let mut s = String::new();
        let mut i: usize = 0;
        while i < 32
            invariant
                i <= 32,
                digits@ == "0123456789abcdef"@,
                s@ == hex_of(self.0@.take(i as int)),
            decreases 32 - i,
        {
            let b = self.0[i];
            proof {
                reveal_strlit("0123456789abcdef");
            }
            assert(digits@.len() == 16);
            push_char(&mut s, digits[(b / 16) as usize]);
            push_char(&mut s, digits[(b % 16) as usize]);
            assert(self.0@.take(i + 1) =~= self.0@.take(i as int).push(b));
            assert(self.0@.take(i + 1).drop_last() =~= self.0@.take(i as int));
            i += 1;
        }
        assert(self.0@.take(32) =~= self.0@);
        s
    }
}

/// The lowercase hex digit for `v`, below sixteen.
pub open spec fn hex_digit(v: int) -> char {
    "0123456789abcdef"@[v]
}

/// Two lowercase hex digits per byte, high nibble first.
pub open spec fn hex_of(bytes: Seq<u8>) -> Seq<char>
    decreases bytes.len(),
{
    if bytes.len() == 0 {
        Seq::empty()
    } else {
        let b = bytes.last();
        hex_of(bytes.drop_last()).push(hex_digit((b / 16) as int)).push(hex_digit((b % 16) as int))
    }
}

} // verus!
