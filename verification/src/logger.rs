//! The buffered logger: appends stamped entries to an in-memory buffer and,
//! when the buffer's byte size passes a fixed threshold or the logger is
//! closed, hands the caller a pending file write to carry out.
//!
//! Threshold flushes are named after the head timestamp captured at
//! construction, so repeated threshold flushes from one logger overwrite the
//! same path; a close is named after a timestamp taken at close time.

use vstd::prelude::*;
use vstd::utf8::encode_utf8;

use crate::timestamp::LogTimeStamp;
use crate::timestamp::get_current_time;
use crate::timestamp::spec_render;
use crate::timestamp::stamp_of;

verus! {

/// The buffer's byte size threshold: once an append takes the buffer past
/// this many bytes, the buffer is flushed.
pub const FLUSH_THRESHOLD: usize = 1024;

/// The UTF-8 byte length of a character sequence.
pub open spec fn byte_len(s: Seq<char>) -> nat {
    encode_utf8(s).len()
}

/// The byte length as the `usize` that `str::len` reports.
pub open spec fn stored_size(s: Seq<char>) -> usize {
    byte_len(s) as usize
}

/// One stamped entry as it is laid down in the buffer: the rendered
/// timestamp, a `;` separator, then the entry text, with no trailing newline.
pub open spec fn stamped_entry(stamp: LogTimeStamp, s: Seq<char>) -> Seq<char> {
    spec_render(stamp) + seq![';'] + s
}

/// The buffer after appending one stamped entry to `b`.
pub open spec fn buf_after(b: Seq<char>, stamp: LogTimeStamp, s: Seq<char>) -> Seq<char> {
    b + stamped_entry(stamp, s)
}

/// Whether a buffer's byte size has passed the flush threshold.
pub open spec fn over_threshold(b: Seq<char>) -> bool {
    stored_size(b) > FLUSH_THRESHOLD
}

/// The diagnostic entry appended ahead of an entry longer than the threshold.
pub open spec fn oversize_warning() -> Seq<char> {
    "Attempted to log an entry larger than 1024 bytes"@
}

/// The file a flush writes to: `<dir>/<rendered timestamp>.txt`.
pub open spec fn spec_file_path(dir: Seq<char>, ts: LogTimeStamp) -> Seq<char> {
    dir + seq!['/'] + spec_render(ts) + seq!['.', 't', 'x', 't']
}

/// A pending file write the logger asks its caller to carry out: write
/// `content` to `path`, overwriting whatever file is there.
pub struct FlushJob {
    pub path: String,
    pub content: String,
}

/// `j` writes `content` to the flush path for `ts` under `dir`.
pub open spec fn job_is(j: FlushJob, dir: Seq<char>, ts: LogTimeStamp, content: Seq<char>) -> bool {
    &&& j.path@ == spec_file_path(dir, ts)
    &&& j.content@ == content
}

/// The jobs an `Option`-returning append hands back, as a sequence.
pub open spec fn opt_jobs(o: Option<FlushJob>) -> Seq<FlushJob> {
    match o {
        Option::Some(j) => seq![j],
        Option::None => Seq::<FlushJob>::empty(),
    }
}

/// The buffered logger. The buffer and its byte size, the target directory,
/// the number of flushes handed out, and the head timestamp captured at
/// construction.
pub struct Logger {
    log: String,
    path: String,
    pub log_size: usize,
    logs_made: u16,
    loghead: LogTimeStamp,
}

impl Logger {
    /// The buffered, not yet flushed content.
    pub closed spec fn buf(&self) -> Seq<char> {
        self.log@
    }

    /// The target directory, captured verbatim at construction.
    pub closed spec fn dir(&self) -> Seq<char> {
        self.path@
    }

    /// The head timestamp, fixed at construction; threshold flushes are
    /// named after it.
    pub closed spec fn head(&self) -> LogTimeStamp {
        self.loghead
    }

    /// How many flushes this logger has handed out.
    pub closed spec fn made(&self) -> u16 {
        self.logs_made
    }

    /// The recorded buffer byte size, as the `log_size` field holds it.
    pub closed spec fn size(&self) -> usize {
        self.log_size
    }

    /// The recorded byte size agrees with the buffer, except right after a
    /// flush, when the buffer is empty and the size is recomputed on the
    /// next append.
    pub open spec fn inv(&self) -> bool {
        self.buf().len() == 0 || self.size() == stored_size(self.buf())
    }
}

/// What one append does to a logger: the stamped entry goes onto the buffer
/// and the byte size is recomputed; if that size passes the threshold, the
/// whole buffer goes out as one flush job named after the head timestamp and
/// the buffer is reset to empty (the recorded size is left to the next
/// recomputation).
pub open spec fn add_one_post(
    pre: Logger,
    post: Logger,
    jobs: Seq<FlushJob>,
    stamp: LogTimeStamp,
    s: Seq<char>,
) -> bool {
    let nb = buf_after(pre.buf(), stamp, s);
    &&& post.dir() == pre.dir()
    &&& post.head() == pre.head()
    &&& post.size() == stored_size(nb)
    &&& if over_threshold(nb) {
        &&& post.buf() == Seq::<char>::empty()
        &&& post.made() == pre.made() + 1
        &&& jobs.len() == 1
        &&& job_is(jobs[0], pre.dir(), pre.head(), nb)
    } else {
        &&& post.buf() == nb
        &&& post.made() == pre.made()
        &&& jobs == Seq::<FlushJob>::empty()
    }
}

fn file_path(dir: &String, ts: &LogTimeStamp) -> (s: String)
    ensures
        s@ == spec_file_path(dir@, *ts),
{
    let mut s = dir.clone();
    s.append("/");
    let rendered = ts.render();
    s.append(rendered.as_str());
    s.append(".txt");
    proof {
        reveal_strlit("/");
        reveal_strlit(".txt");
        assert(s@ =~= spec_file_path(dir@, *ts));
    }
    s
}

impl Logger {
    /// Creates a logger over `log_folder` with the given head timestamp, an
    /// empty buffer and no flushes handed out.
    pub fn new_at(log_folder: String, head: LogTimeStamp) -> (r: Logger)
        ensures
            r.buf() == Seq::<char>::empty(),
            r.dir() == log_folder@,
            r.size() == 0,
            r.made() == 0,
            r.head() == head,
            r.inv(),
    {
        Logger { log: String::new(), path: log_folder, log_size: 0, logs_made: 0, loghead: head }
    }

    /// Creates a logger over `log_folder`, snapshotting the current time as
    /// the head timestamp. The directory is captured verbatim: it must
    /// already exist when a flush job is carried out.
    pub fn new(log_folder: String) -> (r: Logger)
        ensures
            r.buf() == Seq::<char>::empty(),
            r.dir() == log_folder@,
            r.size() == 0,
            r.made() == 0,
            r.head().wf(),
            r.inv(),
    {
        let head = get_current_time();
        Logger::new_at(log_folder, head)
    }

    /// Appends one entry stamped with the given timestamp, flushing if the
    /// buffer's byte size passes the threshold.
    pub fn add_at(&mut self, stamp: &LogTimeStamp, s: &str) -> (r: Option<FlushJob>)
        requires
            old(self).made() < u16::MAX,
        ensures
            add_one_post(*old(self), *final(self), opt_jobs(r), *stamp, s@),
            final(self).inv(),
    {
        let rendered = stamp.render();
        self.log.append(rendered.as_str());
        self.log.append(";");
        self.log.append(s);
        proof {
            reveal_strlit(";");
            assert(self.log@ =~= buf_after(old(self).buf(), *stamp, s@));
        }
        self.log_size = self.log.as_str().len();
        if self.log_size > FLUSH_THRESHOLD {
            let path = file_path(&self.path, &self.loghead);
            let content = self.log.clone();
            self.log = String::new();
            self.logs_made = self.logs_made + 1;
            Some(FlushJob { path, content })
        } else {
            None
        }
    }

    /// Appends one entry stamped with the current time. An entry longer than
    /// the threshold is not rejected or truncated: a diagnostic entry is
    /// appended first, then the oversized entry itself, each stamped with its
    /// own clock reading; each append flushes if it takes the buffer past
    /// the threshold, so up to two flush jobs come back, in the order they
    /// are to be written.
    pub fn add(&mut self, s: &str) -> (r: Vec<FlushJob>)
        requires
            old(self).made() < u16::MAX - 1,
        ensures
            final(self).inv(),
            stored_size(s@) <= FLUSH_THRESHOLD ==> exists|x: u64|
                add_one_post(*old(self), *final(self), r@, stamp_of(x), s@),
            stored_size(s@) > FLUSH_THRESHOLD ==> exists|x1: u64, x2: u64, mid: Logger, k: int|
                {
                    &&& 0 <= k <= r@.len()
                    &&& add_one_post(*old(self), mid, r@.take(k), stamp_of(x1), oversize_warning())
                    &&& add_one_post(mid, *final(self), r@.skip(k), stamp_of(x2), s@)
                },
    {
        let mut jobs: Vec<FlushJob> = Vec::new();
        if s.len() > FLUSH_THRESHOLD {
            let warn_stamp = get_current_time();
            let warn_job = self.add_at(&warn_stamp, "Attempted to log an entry larger than 1024 bytes");
            let ghost x1 = warn_stamp.raw;
            if let Some(job) = warn_job {
                jobs.push(job);
            }
            let ghost mid = *self;
            let ghost k = jobs@.len() as int;
            let entry_stamp = get_current_time();
            let entry_job = self.add_at(&entry_stamp, s);
            let ghost x2 = entry_stamp.raw;
            if let Some(job) = entry_job {
                jobs.push(job);
            }
            proof {
                assert(jobs@.take(k) =~= opt_jobs(warn_job));
                assert(jobs@.skip(k) =~= opt_jobs(entry_job));
                assert(add_one_post(*old(self), mid, jobs@.take(k), stamp_of(x1), oversize_warning()));
                assert(add_one_post(mid, *self, jobs@.skip(k), stamp_of(x2), s@));
            }
            jobs
        } else {
            let entry_stamp = get_current_time();
            let entry_job = self.add_at(&entry_stamp, s);
            let ghost x = entry_stamp.raw;
            if let Some(job) = entry_job {
                jobs.push(job);
            }
            proof {
                assert(jobs@ =~= opt_jobs(entry_job));
                assert(add_one_post(*old(self), *self, jobs@, stamp_of(x), s@));
            }
            jobs
        }
    }

    /// Closes the logger: the whole buffer, even when empty, goes out as one
    /// flush job named after the given timestamp.
    pub fn close_at(self, stamp: &LogTimeStamp) -> (r: FlushJob)
        ensures
            job_is(r, self.dir(), *stamp, self.buf()),
    {
        let path = file_path(&self.path, stamp);
        FlushJob { path, content: self.log }
    }

    /// Closes the logger with a freshly read timestamp, distinct from the
    /// head timestamp the threshold flushes are named after.
    pub fn close(self) -> (r: FlushJob)
        ensures
            r.content@ == self.buf(),
            exists|x: u64| job_is(r, self.dir(), stamp_of(x), self.buf()),
    {
        let stamp = get_current_time();
        let ghost x = stamp.raw;
        let ghost dir = self.dir();
        let ghost content = self.buf();
        let r = self.close_at(&stamp);
        proof {
            assert(job_is(r, dir, stamp_of(x), content));
        }
        r
    }
}

/// From any buffer, an append whose stamped entry takes the byte size past
/// the threshold hands out exactly one flush job carrying the whole buffer,
/// and leaves the buffer empty.
pub proof fn lemma_threshold_flush(
    pre: Logger,
    post: Logger,
    jobs: Seq<FlushJob>,
    stamp: LogTimeStamp,
    s: Seq<char>,
)
    requires
        add_one_post(pre, post, jobs, stamp, s),
        over_threshold(buf_after(pre.buf(), stamp, s)),
    ensures
        jobs.len() == 1,
        job_is(jobs[0], pre.dir(), pre.head(), buf_after(pre.buf(), stamp, s)),
        post.buf() == Seq::<char>::empty(),
        post.made() == pre.made() + 1,
{
}

/// Two consecutive threshold flushes from the same logger write to the same
/// path: the head timestamp never changes, so the second write replaces the
/// first wholesale and carries only what accumulated after the first flush.
pub proof fn lemma_head_path_stable(
    l0: Logger,
    l1: Logger,
    l2: Logger,
    j1: Seq<FlushJob>,
    j2: Seq<FlushJob>,
    st1: LogTimeStamp,
    st2: LogTimeStamp,
    s1: Seq<char>,
    s2: Seq<char>,
)
    requires
        add_one_post(l0, l1, j1, st1, s1),
        add_one_post(l1, l2, j2, st2, s2),
        over_threshold(buf_after(l0.buf(), st1, s1)),
        over_threshold(buf_after(l1.buf(), st2, s2)),
    ensures
        j1.len() == 1,
        j2.len() == 1,
        j1[0].path@ == j2[0].path@,
        j2[0].content@ == stamped_entry(st2, s2),
{
    assert(Seq::<char>::empty() + stamped_entry(st2, s2) =~= stamped_entry(st2, s2));
}

/// Flush paths separate timestamps that render differently: a close under a
/// fresh timestamp whose rendering differs from the head timestamp's goes to
/// a different file than the threshold flushes.
pub proof fn lemma_distinct_render_distinct_path(dir: Seq<char>, fresh: LogTimeStamp, head: LogTimeStamp)
    requires
        spec_render(fresh) != spec_render(head),
    ensures
        spec_file_path(dir, fresh) != spec_file_path(dir, head),
{
    let ra = spec_render(fresh);
    let rb = spec_render(head);
    let pa = spec_file_path(dir, fresh);
    let pb = spec_file_path(dir, head);
    if ra.len() == rb.len() {
        if pa == pb {
            assert forall|i: int| 0 <= i < ra.len() implies ra[i] == rb[i] by {
                assert(pa[dir.len() + 1 + i] == ra[i]);
                assert(pb[dir.len() + 1 + i] == rb[i]);
            }
            assert(ra =~= rb);
        }
    } else {
        assert(pa.len() != pb.len());
    }
}

/// UTF-8 encoding distributes over concatenation, so byte sizes add up.
pub proof fn lemma_byte_len_concat(a: Seq<char>, b: Seq<char>)
    ensures
        byte_len(a + b) == byte_len(a) + byte_len(b),
    decreases a.len(),
{
    if a.len() == 0 {
        assert(a + b =~= b);
    } else {
        assert((a + b).drop_first() =~= a.drop_first() + b);
        assert((a + b)[0] == a[0]);
        lemma_byte_len_concat(a.drop_first(), b);
    }
}

/// Appending an entry longer than the threshold leaves both the diagnostic
/// entry and the oversized entry itself in the flushed content, in that
/// order, each under its own timestamp: provided the diagnostic append did
/// not itself flush, and the final buffer is small enough to measure in a
/// `usize` (as any buffer a machine can hold is).
pub proof fn lemma_oversized_entry(
    pre: Logger,
    mid: Logger,
    post: Logger,
    j1: Seq<FlushJob>,
    j2: Seq<FlushJob>,
    st1: LogTimeStamp,
    st2: LogTimeStamp,
    s: Seq<char>,
)
    requires
        add_one_post(pre, mid, j1, st1, oversize_warning()),
        add_one_post(mid, post, j2, st2, s),
        byte_len(s) > FLUSH_THRESHOLD,
        byte_len(buf_after(mid.buf(), st2, s)) <= usize::MAX,
        !over_threshold(buf_after(pre.buf(), st1, oversize_warning())),
    ensures
        j1.len() == 0,
        j2.len() == 1,
        j2[0].content@ == buf_after(buf_after(pre.buf(), st1, oversize_warning()), st2, s),
        post.buf() == Seq::<char>::empty(),
{
    let nb1 = buf_after(pre.buf(), st1, oversize_warning());
    let nb2 = buf_after(nb1, st2, s);
    assert(stamped_entry(st2, s) =~= (spec_render(st2) + seq![';']) + s);
    lemma_byte_len_concat(spec_render(st2) + seq![';'], s);
    lemma_byte_len_concat(mid.buf(), stamped_entry(st2, s));
    assert(byte_len(buf_after(mid.buf(), st2, s)) > FLUSH_THRESHOLD);
    assert(over_threshold(buf_after(mid.buf(), st2, s)));
}

/// A close under a timestamp read even one second after the head timestamp
/// writes to a different file than the threshold flushes: well-formed stamps
/// of distinct raw values always render, and hence name files, differently.
pub proof fn lemma_fresh_close_path(dir: Seq<char>, fresh: LogTimeStamp, head: LogTimeStamp)
    requires
        fresh.wf(),
        head.wf(),
        fresh.raw != head.raw,
    ensures
        spec_file_path(dir, fresh) != spec_file_path(dir, head),
{
    if spec_render(fresh) == spec_render(head) {
        crate::timestamp::lemma_render_injective(fresh, head);
        crate::timestamp::lemma_stamp_fields_injective(fresh.raw, head.raw);
    }
    lemma_distinct_render_distinct_path(dir, fresh, head);
}

} // verus!
