//! Background-job registry: long-running import subprocesses (OCR, reingest,
//! trajectory, catalog sync, bulk grab, rescore) are queued one at a time with
//! live progress and cancel. This module is the registry's state and every
//! decision made about it; the process that owns it runs the subprocesses and
//! reports what happens (see [`begin_run`], [`note_progress`], [`finish`]).
//!
//! The registry keeps two promises in every state: job ids are distinct, and at
//! most one live (queued or running) job exists per (book, kind, tag) — so a
//! duplicate request is answered with the job already under way.
//!
//! `P` is the progress-percentage type; the registry only stores and copies it.

use vstd::prelude::*;

use crate::sorting::{SortKey, lemma_sorted_len, lemma_sorted_ordered, lemma_sorted_permutes, sort_by_key, sorted_by_key};
use crate::text::{
    opt_chars, chars_of, chars_start_with, dec, decimal, lemma_dec_injective, group_thousands, grouped, parse_i64, parse_i64_chars,
    push_chars, push_str, rsplit_once, rsplit_once_chars, split_once, split_once_chars, starts_with,
    str_eq, string_of, strip_prefix, strip_prefix_chars, strip_suffix, strip_suffix_chars, trim,
    trim_chars, trim_str,
};

verus! {

/// Where a job is in its life.
#[derive(Clone, Copy, Debug, PartialEq, Eq, Structural)]
pub enum JobStatus {
    Queued,
    Running,
    Done,
    Failed,
    Cancelled,
}

/// The status word shown to the client.
pub open spec fn status_word(s: JobStatus) -> Seq<char> {
    match s {
        JobStatus::Queued => "queued"@,
        JobStatus::Running => "running"@,
        JobStatus::Done => "done"@,
        JobStatus::Failed => "failed"@,
        JobStatus::Cancelled => "cancelled"@,
    }
}

impl JobStatus {
    /// "queued" | "running" | "done" | "failed" | "cancelled".
    pub fn as_str(&self) -> (s: &'static str)
        ensures
            s@ == status_word(*self),
    {
        match self {
            JobStatus::Queued => "queued",
            JobStatus::Running => "running",
            JobStatus::Done => "done",
            JobStatus::Failed => "failed",
            JobStatus::Cancelled => "cancelled",
        }
    }

    /// Queued or running.
    pub fn is_live(&self) -> (b: bool)
        ensures
            b == live_status(*self),
    {
        match self {
            JobStatus::Queued | JobStatus::Running => true,
            _ => false,
        }
    }
}

pub open spec fn live_status(s: JobStatus) -> bool {
    s == JobStatus::Queued || s == JobStatus::Running
}

/// A job's progress snapshot, as polled by the client.
pub struct JobProgress<P> {
    pub id: String,
    /// "ocr" | "reingest" | "trajectory" | "catalog" | "grab" | "rescore".
    pub kind: String,
    pub book_id: i64,
    /// Engine (ocr) / source (reingest) / batch digest (grab): the dedup key's tail.
    pub tag: String,
    pub status: JobStatus,
    /// Progress; a negative value means indeterminate.
    pub percent: P,
    pub message: String,
    /// Seconds since the epoch of the last change.
    pub updated: u64,
}

/// One registry entry: the snapshot, the OS process id once running, and whether
/// a cancel was asked for.
pub struct Job<P> {
    pub prog: JobProgress<P>,
    pub pid: Option<u32>,
    pub cancel_requested: bool,
}

pub open spec fn is_live<P>(j: Job<P>) -> bool {
    live_status(j.prog.status)
}

pub open spec fn has_key<P>(j: Job<P>, book_id: i64, kind: Seq<char>, tag: Seq<char>) -> bool {
    j.prog.book_id == book_id && j.prog.kind@ == kind && j.prog.tag@ == tag
}

pub open spec fn same_key<P>(a: Job<P>, b: Job<P>) -> bool {
    has_key(b, a.prog.book_id, a.prog.kind@, a.prog.tag@)
}

/// Job ids are distinct.
pub open spec fn ids_distinct<P>(s: Seq<Job<P>>) -> bool {
    forall|i: int, j: int|
        0 <= i < s.len() && 0 <= j < s.len() && i != j ==> #[trigger] s[i].prog.id@
            != #[trigger] s[j].prog.id@
}

/// At most one live job per (book, kind, tag).
pub open spec fn live_keys_unique<P>(s: Seq<Job<P>>) -> bool {
    forall|i: int, j: int|
        0 <= i < s.len() && 0 <= j < s.len() && i != j && is_live(#[trigger] s[i]) && is_live(
            #[trigger] s[j],
        ) ==> !same_key(s[i], s[j])
}

pub open spec fn registry_ok<P>(s: Seq<Job<P>>) -> bool {
    ids_distinct(s) && live_keys_unique(s)
}

/// The index of the job with this id, if any.
pub open spec fn index_of_id<P>(s: Seq<Job<P>>, id: Seq<char>) -> Option<int> {
    if exists|i: int| 0 <= i < s.len() && s[i].prog.id@ == id {
        Some(choose|i: int| 0 <= i < s.len() && s[i].prog.id@ == id)
    } else {
        None
    }
}

/// The id of the live job for this key, if any.
pub open spec fn live_id<P>(s: Seq<Job<P>>, book_id: i64, kind: Seq<char>, tag: Seq<char>) -> Option<
    Seq<char>,
> {
    if exists|i: int| 0 <= i < s.len() && is_live(s[i]) && has_key(s[i], book_id, kind, tag) {
        let i = choose|i: int| 0 <= i < s.len() && is_live(s[i]) && has_key(s[i], book_id, kind, tag);
        Some(s[i].prog.id@)
    } else {
        None
    }
}

/// The id a new job gets: `job-<n>`.
pub open spec fn job_id(n: u64) -> Seq<char> {
    "job-"@ + dec(n as nat)
}

/// `id` is one the registry issued before its counter reached `next`.
pub open spec fn issued_id(id: Seq<char>, next: u64) -> bool {
    exists|k: u64| 1 <= k < next && id == job_id(k)
}

/// Every job's id was issued below `next`.
pub open spec fn ids_issued<P>(s: Seq<Job<P>>, next: u64) -> bool {
    forall|i: int| 0 <= i < s.len() ==> issued_id(#[trigger] s[i].prog.id@, next)
}

/// The registry of jobs.
pub struct Jobs<P> {
    jobs: Vec<Job<P>>,
    next_id: u64,
    wrapped: Ghost<bool>,
}

impl<P> Jobs<P> {
    /// What always holds of a registry: ids distinct, at most one live job per
    /// (book, kind, tag), and, until the id counter has wrapped, every id one
    /// issued below the counter. Callers learn it with `use_type_invariant`.
    #[verifier::type_invariant]
    pub open spec fn inv(self) -> bool {
        &&& registry_ok(self.entries())
        &&& !self.wrapped() ==> self.counter() >= 1 && ids_issued(self.entries(), self.counter())
    }

    /// Whether the id counter has wrapped past `u64::MAX` (after 2^64 jobs).
    pub closed spec fn wrapped(self) -> bool {
        self.wrapped@
    }

    /// The jobs, in registry order.
    pub closed spec fn entries(self) -> Seq<Job<P>> {
        self.jobs@
    }

    /// The number the next job's id will carry.
    pub closed spec fn counter(self) -> u64 {
        self.next_id
    }
}

/// An empty registry whose first job is `job-1`.
pub fn new_registry<P>() -> (r: Jobs<P>)
    ensures
        r.entries() == Seq::<Job<P>>::empty(),
        r.counter() == 1,
        !r.wrapped(),
{
    Jobs { jobs: Vec::new(), next_id: 1, wrapped: Ghost(false) }
}

proof fn lemma_live_id_unique<P>(s: Seq<Job<P>>, i: int, book_id: i64, kind: Seq<char>, tag: Seq<char>)
    requires
        live_keys_unique(s),
        0 <= i < s.len(),
        is_live(s[i]),
        has_key(s[i], book_id, kind, tag),
    ensures
        live_id(s, book_id, kind, tag) == Some(s[i].prog.id@),
{
    let k = choose|k: int| 0 <= k < s.len() && is_live(s[k]) && has_key(s[k], book_id, kind, tag);
    if k != i {
        assert(!same_key(s[i], s[k]));
    }
}

proof fn lemma_index_of_id<P>(s: Seq<Job<P>>, i: int)
    requires
        ids_distinct(s),
        0 <= i < s.len(),
    ensures
        index_of_id(s, s[i].prog.id@) == Some(i),
{
    let k = choose|k: int| 0 <= k < s.len() && s[k].prog.id@ == s[i].prog.id@;
    if k != i {
        assert(s[k].prog.id@ != s[i].prog.id@);
    }
}

fn find_index<P>(jobs: &Vec<Job<P>>, id: &str) -> (r: Option<usize>)
    requires
        ids_distinct(jobs@),
    ensures
        r is None ==> index_of_id(jobs@, id@) is None,
        r matches Some(i) ==> i < jobs@.len() && index_of_id(jobs@, id@) == Some(i as int)
            && jobs@[i as int].prog.id@ == id@,
{
    let mut i: usize = 0;
    while i < jobs.len()
        invariant
            i <= jobs.len(),
            ids_distinct(jobs@),
            forall|k: int| 0 <= k < i ==> jobs@[k].prog.id@ != id@,
        decreases jobs.len() - i,
    {
        if str_eq(jobs[i].prog.id.as_str(), id) {
            proof {
                lemma_index_of_id(jobs@, i as int);
            }
            return Some(i);
        }
        i = i + 1;
    }
    None
}

/// A queued/running job for (book_id, kind, tag) — so a duplicate request returns
/// the existing job instead of starting a second one.
pub fn find_live<P>(jobs: &Jobs<P>, book_id: i64, kind: &str, tag: &str) -> (r: Option<String>)
    ensures
        r is None <==> live_id(jobs.entries(), book_id, kind@, tag@) is None,
        r matches Some(id) ==> live_id(jobs.entries(), book_id, kind@, tag@) == Some(id@),
{
    proof {
        use_type_invariant(jobs);
    }
    let mut i: usize = 0;
    while i < jobs.jobs.len()
        invariant
            i <= jobs.jobs.len(),
            live_keys_unique(jobs.jobs@),
            forall|k: int|
                0 <= k < i ==> !(is_live(#[trigger] jobs.jobs@[k]) && has_key(
                    jobs.jobs@[k],
                    book_id,
                    kind@,
                    tag@,
                )),
        decreases jobs.jobs.len() - i,
    {
        let j = &jobs.jobs[i];
        if j.prog.book_id == book_id && str_eq(j.prog.kind.as_str(), kind) && str_eq(
            j.prog.tag.as_str(),
            tag,
        ) && j.prog.status.is_live() {
            proof {
                lemma_live_id_unique(jobs.jobs@, i as int, book_id, kind@, tag@);
            }
            return Some(j.prog.id.clone());
        }
        i = i + 1;
    }
    None
}

/// Kept by [`reap`]: live, or changed at or after the cutoff.
pub open spec fn kept<P>(j: Job<P>, cutoff: u64) -> bool {
    is_live(j) || j.prog.updated >= cutoff
}

/// Ten minutes before `now`, floored at zero.
pub open spec fn reap_cutoff(now: u64) -> u64 {
    if now >= 600 {
        (now - 600) as u64
    } else {
        0
    }
}

/// The jobs that reaping at `now` keeps.
pub open spec fn reaped<P>(s: Seq<Job<P>>, now: u64) -> Seq<Job<P>> {
    s.filter(|x: Job<P>| kept(x, reap_cutoff(now)))
}

/// Reaping keeps exactly the jobs that are queued or running, or were updated
/// at most ten minutes (600 seconds) before `now`.
pub proof fn lemma_reap_rule<P>(s: Seq<Job<P>>, now: u64)
    ensures
        forall|j: Job<P>|
            #[trigger] reaped(s, now).contains(j) <==> s.contains(j) && (j.prog.status
                == JobStatus::Queued || j.prog.status == JobStatus::Running || j.prog.updated + 600 >= now),
{
    broadcast use vstd::seq_lib::group_filter_ensures;

    let pred = |x: Job<P>| kept(x, reap_cutoff(now));
    assert(reaped(s, now) == s.filter(pred));
    assert forall|j: Job<P>|
        #[trigger] reaped(s, now).contains(j) <==> s.contains(j) && (j.prog.status == JobStatus::Queued
            || j.prog.status == JobStatus::Running || j.prog.updated + 600 >= now) by {
        if s.filter(pred).contains(j) {
            s.lemma_filter_contains_rev(pred, j);
            let k = choose|k: int| 0 <= k < s.filter(pred).len() && s.filter(pred)[k] == j;
            assert(pred(s.filter(pred)[k]));
        }
        if s.contains(j) && (j.prog.status == JobStatus::Queued || j.prog.status == JobStatus::Running
            || j.prog.updated + 600 >= now) {
            let k = choose|k: int| 0 <= k < s.len() && s[k] == j;
            assert(pred(s[k]));
            s.lemma_filter_contains(pred, k);
        }
    }
}

/// Drop jobs that finished more than ten minutes before `now`.
pub fn reap<P>(jobs: &mut Jobs<P>, now: u64)
    ensures
        final(jobs).entries() == old(jobs).entries().filter(|j: Job<P>| kept(j, reap_cutoff(now))),
        final(jobs).counter() == old(jobs).counter(),
        final(jobs).wrapped() == old(jobs).wrapped(),
        // What stays: queued and running jobs, and those updated in the last ten
        // minutes.
        forall|j: Job<P>| #[trigger] final(jobs).entries().contains(j) <==> old(jobs).entries().contains(j) && (
        j.prog.status == JobStatus::Queued || j.prog.status == JobStatus::Running || j.prog.updated + 600 >= now),
{
    proof {
        use_type_invariant(&*jobs);
        lemma_reap_rule(old(jobs).entries(), now);
    }
    let cutoff = now.saturating_sub(600);
    let ghost pred = |j: Job<P>| kept(j, reap_cutoff(now));
    let ghost orig = jobs.jobs@;
    let mut kept_jobs: Vec<Job<P>> = Vec::new();
    let mut rest: Vec<Job<P>> = Vec::new();
    std::mem::swap(&mut rest, &mut jobs.jobs);
    let n = rest.len();
    let mut i: usize = 0;
    assert(orig.take(0).filter(pred) == Seq::<Job<P>>::empty());
    while i < n
        invariant
            n == orig.len(),
            i <= n,
            rest@ == orig.skip(i as int),
            kept_jobs@ == orig.take(i as int).filter(pred),
            registry_ok(orig),
            cutoff == reap_cutoff(now),
            pred == (|j: Job<P>| kept(j, reap_cutoff(now))),
        decreases n - i,
    {
        let j = rest.remove(0);
        assert(j == orig[i as int]);
        assert(rest@ == orig.skip(i + 1));
        proof {
            let t = orig.take(i + 1);
            assert(t.drop_last() == orig.take(i as int));
            assert(t.last() == j);
            assert(t == orig.take(i as int).push(j));
            orig.take(i as int).lemma_filter_push(j, pred);
            assert(pred(j) == (live_status(j.prog.status) || j.prog.updated >= cutoff));
        }
        if j.prog.status.is_live() || j.prog.updated >= cutoff {
            kept_jobs.push(j);
        }
        i = i + 1;
    }
    assert(orig.take(n as int) == orig);
    proof {
        lemma_filter_registry_ok(orig, pred);
        if !jobs.wrapped@ {
            lemma_filter_issued(orig, pred, jobs.next_id);
        }
    }
    jobs.jobs = kept_jobs;
    proof {
        assert(jobs.entries() == reaped(old(jobs).entries(), now));
        assert forall|j: Job<P>| #[trigger] jobs.entries().contains(j) <==> old(jobs).entries().contains(j) && (
            j.prog.status == JobStatus::Queued || j.prog.status == JobStatus::Running || j.prog.updated + 600 >= now) by {
            assert(reaped(old(jobs).entries(), now).contains(j) == jobs.entries().contains(j));
        }
    }
}

proof fn lemma_filter_issued<P>(s: Seq<Job<P>>, pred: spec_fn(Job<P>) -> bool, next: u64)
    requires
        ids_issued(s, next),
    ensures
        ids_issued(s.filter(pred), next),
    decreases s.len(),
{
    reveal_with_fuel(Seq::<_>::filter, 1);
    if s.len() > 0 {
        let init = s.drop_last();
        assert forall|i: int| 0 <= i < init.len() implies issued_id(#[trigger] init[i].prog.id@, next) by {
            assert(init[i] == s[i]);
        }
        lemma_filter_issued(init, pred, next);
        assert(init.push(s.last()) == s);
        init.lemma_filter_push(s.last(), pred);
        assert(issued_id(s[s.len() - 1].prog.id@, next));
    }
}

/// Different counter values give different job ids.
pub proof fn lemma_job_id_injective(a: u64, b: u64)
    requires
        a != b,
    ensures
        job_id(a) != job_id(b),
{
    lemma_dec_injective(a as nat, b as nat);
    reveal_strlit("job-");
    if job_id(a) == job_id(b) {
        assert(dec(a as nat) =~= job_id(a).skip(4));
        assert(dec(b as nat) =~= job_id(b).skip(4));
    }
}

/// A run of registry calls as the contracts leave the id counter: `counters[i]`
/// before call `i` and `counters[i + 1]` after it; a call that starts a new job
/// (`started[i]`) moves the counter on by one, wrapping at `u64::MAX`, and every
/// other call leaves it as it was.
pub open spec fn counter_run(counters: Seq<u64>, started: Seq<bool>) -> bool {
    &&& counters.len() == started.len() + 1
    &&& forall|i: int|
        0 <= i < started.len() ==> #[trigger] counters[i + 1] == if started[i] {
            counters[i].wrapping_add(1)
        } else {
            counters[i]
        }
}

proof fn lemma_counter_grows(counters: Seq<u64>, started: Seq<bool>, i: int, k: int)
    requires
        counter_run(counters, started),
        forall|n: int| 0 <= n < started.len() && #[trigger] started[n] ==> counters[n] < u64::MAX,
        0 <= i < k <= started.len(),
    ensures
        counters[i] <= counters[k],
        started[i] ==> counters[i] < counters[k],
    decreases k - i,
{
    let c = counters[k - 1];
    assert(counters[(k - 1) + 1] == if started[k - 1] { c.wrapping_add(1) } else { c });
    if i < k - 1 {
        lemma_counter_grows(counters, started, i, k - 1);
    }
}

/// Over a run of calls in which the counter never wraps, the jobs that the run
/// starts get pairwise different ids.
pub proof fn lemma_run_ids_distinct(counters: Seq<u64>, started: Seq<bool>)
    requires
        counter_run(counters, started),
        forall|n: int| 0 <= n < started.len() && #[trigger] started[n] ==> counters[n] < u64::MAX,
    ensures
        forall|i: int, j: int|
            0 <= i < j < started.len() && started[i] && started[j] ==> job_id(#[trigger] counters[i])
                != job_id(#[trigger] counters[j]),
{
    assert forall|i: int, j: int|
        0 <= i < j < started.len() && started[i] && started[j] implies job_id(#[trigger] counters[i])
            != job_id(#[trigger] counters[j]) by {
        lemma_counter_grows(counters, started, i, j);
        lemma_job_id_injective(counters[i], counters[j]);
    }
}

pub proof fn lemma_registry_ok_prefix<P>(s: Seq<Job<P>>)
    requires
        registry_ok(s),
        s.len() > 0,
    ensures
        registry_ok(s.drop_last()),
{
    let init = s.drop_last();
    assert forall|i: int, j: int|
        0 <= i < init.len() && 0 <= j < init.len() && i != j implies #[trigger] init[i].prog.id@
        != #[trigger] init[j].prog.id@ by {
        assert(init[i] == s[i] && init[j] == s[j]);
    }
    assert forall|i: int, j: int|
        0 <= i < init.len() && 0 <= j < init.len() && i != j && is_live(#[trigger] init[i])
            && is_live(#[trigger] init[j]) implies !same_key(init[i], init[j]) by {
        assert(init[i] == s[i] && init[j] == s[j]);
    }
}

/// Keeping only some jobs keeps both registry promises.
pub proof fn lemma_filter_registry_ok<P>(s: Seq<Job<P>>, pred: spec_fn(Job<P>) -> bool)
    requires
        registry_ok(s),
    ensures
        registry_ok(s.filter(pred)),
    decreases s.len(),
{
    reveal_with_fuel(Seq::<_>::filter, 1);
    if s.len() > 0 {
        let init = s.drop_last();
        let last = s.last();
        lemma_registry_ok_prefix(s);
        lemma_filter_registry_ok(init, pred);
        let fi = init.filter(pred);
        if pred(last) {
            let f = fi.push(last);
            assert(s.filter(pred) == f);
            assert forall|x: int| 0 <= x < fi.len() implies fi[x].prog.id@ != last.prog.id@ && (
            is_live(fi[x]) && is_live(last) ==> !same_key(fi[x], last)) by {
                assert(fi.contains(fi[x]));
                init.lemma_filter_contains_rev(pred, fi[x]);
                let k = choose|k: int| 0 <= k < init.len() && init[k] == fi[x];
                assert(s[k] == init[k]);
                assert(s[s.len() - 1] == last);
            }
            assert forall|a: int, b: int|
                0 <= a < f.len() && 0 <= b < f.len() && a != b implies #[trigger] f[a].prog.id@
                != #[trigger] f[b].prog.id@ by {
                if a < fi.len() && b < fi.len() {
                    assert(f[a] == fi[a] && f[b] == fi[b]);
                } else if a < fi.len() {
                    assert(f[a] == fi[a] && f[b] == last);
                } else {
                    assert(f[b] == fi[b] && f[a] == last);
                }
            }
            assert forall|a: int, b: int|
                0 <= a < f.len() && 0 <= b < f.len() && a != b && is_live(#[trigger] f[a])
                    && is_live(#[trigger] f[b]) implies !same_key(f[a], f[b]) by {
                if a < fi.len() && b < fi.len() {
                    assert(f[a] == fi[a] && f[b] == fi[b]);
                } else if a < fi.len() {
                    assert(f[a] == fi[a] && f[b] == last);
                } else {
                    assert(f[b] == fi[b] && f[a] == last);
                }
            }
        } else {
            assert(s.filter(pred) == fi);
        }
    }
}

/// A change to one job's fields (each `None` leaves the field as it is).
pub struct Change<P> {
    pub status: Option<JobStatus>,
    pub percent: Option<P>,
    pub message: Option<String>,
    pub updated: Option<u64>,
    pub pid: Option<Option<u32>>,
    pub request_cancel: bool,
}

/// `j` with `ch` applied.
pub open spec fn apply<P>(j: Job<P>, ch: Change<P>) -> Job<P> {
    Job {
        prog: JobProgress {
            id: j.prog.id,
            kind: j.prog.kind,
            book_id: j.prog.book_id,
            tag: j.prog.tag,
            status: match ch.status {
                Some(s) => s,
                None => j.prog.status,
            },
            percent: match ch.percent {
                Some(p) => p,
                None => j.prog.percent,
            },
            message: match ch.message {
                Some(m) => m,
                None => j.prog.message,
            },
            updated: match ch.updated {
                Some(u) => u,
                None => j.prog.updated,
            },
        },
        pid: match ch.pid {
            Some(p) => p,
            None => j.pid,
        },
        cancel_requested: j.cancel_requested || ch.request_cancel,
    }
}

fn apply_at<P>(v: &mut Vec<Job<P>>, i: usize, ch: Change<P>)
    requires
        i < old(v)@.len(),
    ensures
        final(v)@ == old(v)@.update(i as int, apply(old(v)@[i as int], ch)),
{
    let ghost ch0 = ch;
    let mut j = v.remove(i);
    let Change { status, percent, message, updated, pid, request_cancel } = ch;
    if let Some(x) = status {
        j.prog.status = x;
    }
    if let Some(x) = percent {
        j.prog.percent = x;
    }
    if let Some(x) = message {
        j.prog.message = x;
    }
    if let Some(x) = updated {
        j.prog.updated = x;
    }
    if let Some(x) = pid {
        j.pid = x;
    }
    if request_cancel {
        j.cancel_requested = true;
    }
    v.insert(i, j);
    assert(v@ == old(v)@.update(i as int, apply(old(v)@[i as int], ch0)));
}

/// Changing one job without touching its id or key, and without making a
/// finished job live again, keeps both registry promises.
pub proof fn lemma_update_ok<P>(s: Seq<Job<P>>, i: int, j2: Job<P>)
    requires
        registry_ok(s),
        0 <= i < s.len(),
        j2.prog.id@ == s[i].prog.id@,
        same_key(s[i], j2),
        is_live(j2) ==> is_live(s[i]),
    ensures
        registry_ok(s.update(i, j2)),
{
    let t = s.update(i, j2);
    assert forall|a: int, b: int|
        0 <= a < t.len() && 0 <= b < t.len() && a != b implies #[trigger] t[a].prog.id@
        != #[trigger] t[b].prog.id@ by {
        assert(t[a].prog.id@ == s[a].prog.id@ && t[b].prog.id@ == s[b].prog.id@);
    }
    assert forall|a: int, b: int|
        0 <= a < t.len() && 0 <= b < t.len() && a != b && is_live(#[trigger] t[a]) && is_live(
            #[trigger] t[b],
        ) implies !same_key(t[a], t[b]) by {
        assert(is_live(s[a]) && is_live(s[b]));
        assert(same_key(s[a], s[b]) == same_key(t[a], t[b]));
    }
}

/// Change the job at index `i` of the registry.
fn change_at<P>(jobs: &mut Jobs<P>, i: usize, ch: Change<P>)
    requires
        i < old(jobs).entries().len(),
        live_status(match ch.status {
            Some(s) => s,
            None => old(jobs).entries()[i as int].prog.status,
        }) ==> is_live(old(jobs).entries()[i as int]),
    ensures
        final(jobs).entries() == old(jobs).entries().update(
            i as int,
            apply(old(jobs).entries()[i as int], ch),
        ),
        final(jobs).counter() == old(jobs).counter(),
        final(jobs).wrapped() == old(jobs).wrapped(),
{
    proof {
        use_type_invariant(&*jobs);
    }
    let ghost s = jobs.jobs@;
    let ghost j2 = apply(s[i as int], ch);
    proof {
        lemma_update_ok(s, i as int, j2);
        assert forall|x: int| 0 <= x < s.len() implies #[trigger] s.update(i as int, j2)[x].prog.id@ == s[x].prog.id@ by {}
    }
    let mut v: Vec<Job<P>> = Vec::new();
    std::mem::swap(&mut v, &mut jobs.jobs);
    apply_at(&mut v, i, ch);
    std::mem::swap(&mut v, &mut jobs.jobs);
}

/// Copy of a progress snapshot.
pub fn snapshot<P: Copy>(p: &JobProgress<P>) -> (r: JobProgress<P>)
    ensures
        r == *p,
{
    JobProgress {
        id: p.id.clone(),
        kind: p.kind.clone(),
        book_id: p.book_id,
        tag: p.tag.clone(),
        status: p.status,
        percent: p.percent,
        message: p.message.clone(),
        updated: p.updated,
    }
}

/// The snapshot for the job with this id, if any.
pub open spec fn progress_of<P>(s: Seq<Job<P>>, id: Seq<char>) -> Option<JobProgress<P>> {
    match index_of_id(s, id) {
        Some(i) => Some(s[i].prog),
        None => None,
    }
}

/// Snapshot for the client; reaps jobs that finished more than ten minutes ago
/// first.
pub fn status<P: Copy>(jobs: &mut Jobs<P>, id: &str, now: u64) -> (r: Option<JobProgress<P>>)
    ensures
        final(jobs).entries() == old(jobs).entries().filter(|j: Job<P>| kept(j, reap_cutoff(now))),
        r == progress_of(final(jobs).entries(), id@),
{
    reap(jobs, now);
    proof {
        use_type_invariant(&*jobs);
    }
    match find_index(&jobs.jobs, id) {
        Some(i) => Some(snapshot(&jobs.jobs[i].prog)),
        None => None,
    }
}

/// The queue panel's order: running, then queued, then the rest; within each,
/// most recently updated first.
pub struct ListKey {
    pub rank: u8,
    pub updated: u64,
}

pub open spec fn status_rank(s: JobStatus) -> u8 {
    match s {
        JobStatus::Running => 0,
        JobStatus::Queued => 1,
        _ => 2,
    }
}

impl SortKey for ListKey {
    open spec fn key_le(self, other: Self) -> bool {
        self.rank < other.rank || (self.rank == other.rank && self.updated >= other.updated)
    }

    proof fn lemma_key_total(a: Self, b: Self) {
    }

    proof fn lemma_key_trans(a: Self, b: Self, c: Self) {
    }

    fn le(&self, other: &Self) -> (r: bool) {
        self.rank < other.rank || (self.rank == other.rank && self.updated >= other.updated)
    }
}

pub open spec fn list_entry<P>(j: Job<P>) -> (ListKey, JobProgress<P>) {
    (ListKey { rank: status_rank(j.prog.status), updated: j.prog.updated }, j.prog)
}

/// Every live or recent job, for the queue panel, in panel order.
pub open spec fn listing<P>(s: Seq<Job<P>>) -> Seq<JobProgress<P>> {
    sorted_by_key(s.map_values(|j: Job<P>| list_entry(j))).map_values(
        |e: (ListKey, JobProgress<P>)| e.1,
    )
}

/// Whether the queue panel shows `a` before `b`: a running job before any other,
/// a queued one before a finished one, and, within one of those groups, the more
/// recently updated first.
pub open spec fn panel_first<P>(a: JobProgress<P>, b: JobProgress<P>) -> bool {
    let ta: int = match a.status {
        JobStatus::Running => 0,
        JobStatus::Queued => 1,
        _ => 2,
    };
    let tb: int = match b.status {
        JobStatus::Running => 0,
        JobStatus::Queued => 1,
        _ => 2,
    };
    ta < tb || (ta == tb && a.updated >= b.updated)
}

proof fn lemma_keyed_entry<P>(s: Seq<Job<P>>, e: (ListKey, JobProgress<P>))
    requires
        s.map_values(|j: Job<P>| list_entry(j)).contains(e),
    ensures
        e.0 == (ListKey { rank: status_rank(e.1.status), updated: e.1.updated }),
{
    let keyed = s.map_values(|j: Job<P>| list_entry(j));
    let k = choose|k: int| 0 <= k < keyed.len() && keyed[k] == e;
    assert(keyed[k] == list_entry(s[k]));
}

/// The queue panel lists every job once each, in panel order: running jobs
/// first, then queued ones, then the rest, and within each group the most
/// recently updated first.
pub proof fn lemma_listing_order<P>(s: Seq<Job<P>>)
    ensures
        listing(s).len() == s.len(),
        forall|i: int, j: int|
            0 <= i < j < listing(s).len() ==> panel_first(#[trigger] listing(s)[i], #[trigger] listing(s)[j]),
        forall|k: int| 0 <= k < s.len() ==> listing(s).contains(#[trigger] s[k].prog),
{
    broadcast use vstd::seq_lib::group_to_multiset_ensures;

    let keyed = s.map_values(|j: Job<P>| list_entry(j));
    let ss = sorted_by_key(keyed);
    lemma_sorted_ordered(keyed);
    lemma_sorted_permutes(keyed);
    lemma_sorted_len(keyed);
    let l = listing(s);
    assert(l == ss.map_values(|e: (ListKey, JobProgress<P>)| e.1));
    assert forall|i: int| 0 <= i < ss.len() implies ss[i].0 == (ListKey {
        rank: status_rank(ss[i].1.status),
        updated: ss[i].1.updated,
    }) by {
        assert(ss.contains(ss[i]));
        assert(ss.to_multiset().count(ss[i]) > 0);
        assert(keyed.contains(ss[i]));
        lemma_keyed_entry(s, ss[i]);
    }
    assert forall|i: int, j: int| 0 <= i < j < l.len() implies panel_first(#[trigger] l[i], #[trigger] l[j]) by {
        assert(ss[i].0.key_le(ss[j].0));
        assert(l[i] == ss[i].1 && l[j] == ss[j].1);
    }
    assert forall|k: int| 0 <= k < s.len() implies l.contains(#[trigger] s[k].prog) by {
        assert(keyed[k] == list_entry(s[k]));
        assert(keyed.contains(keyed[k]));
        assert(ss.to_multiset().count(keyed[k]) > 0);
        assert(ss.contains(keyed[k]));
        let m = choose|m: int| 0 <= m < ss.len() && ss[m] == keyed[k];
        assert(l[m] == s[k].prog);
    }
}

/// Every live/recent job, for the queue panel: running first, then queued, then
/// finished, each most-recently-updated first. Reaps as [`status`] does.
pub fn list<P: Copy>(jobs: &mut Jobs<P>, now: u64) -> (r: Vec<JobProgress<P>>)
    ensures
        final(jobs).entries() == old(jobs).entries().filter(|j: Job<P>| kept(j, reap_cutoff(now))),
        r@ == listing(final(jobs).entries()),
        // Every remaining job once, running first, then queued, then the rest;
        // within each group the most recently updated first.
        r@.len() == final(jobs).entries().len(),
        forall|i: int, j: int| 0 <= i < j < r@.len() ==> panel_first(#[trigger] r@[i], #[trigger] r@[j]),
        forall|k: int| 0 <= k < final(jobs).entries().len() ==> r@.contains(#[trigger] final(jobs).entries()[k].prog),
{
    reap(jobs, now);
    let ghost s = jobs.entries();
    let mut keyed: Vec<(ListKey, JobProgress<P>)> = Vec::new();
    let mut i: usize = 0;
    while i < jobs.jobs.len()
        invariant
            s == jobs.entries(),
            s == jobs.jobs@,
            i <= s.len(),
            keyed@ == s.take(i as int).map_values(|j: Job<P>| list_entry(j)),
        decreases s.len() - i,
    {
        let p = snapshot(&jobs.jobs[i].prog);
        let rank: u8 = match p.status {
            JobStatus::Running => 0,
            JobStatus::Queued => 1,
            _ => 2,
        };
        let upd = p.updated;
        keyed.push((ListKey { rank, updated: upd }, p));
        assert(s.take(i + 1) == s.take(i as int).push(s[i as int]));
        i = i + 1;
    }
    assert(s.take(s.len() as int) == s);
    let sorted = sort_by_key(keyed);
    let mut out: Vec<JobProgress<P>> = Vec::new();
    let ghost ss = sorted@;
    let mut sorted = sorted;
    let n = sorted.len();
    let mut k: usize = 0;
    while k < n
        invariant
            n == ss.len(),
            k <= n,
            sorted@ == ss.skip(k as int),
            out@ == ss.take(k as int).map_values(|e: (ListKey, JobProgress<P>)| e.1),
        decreases n - k,
    {
        let e = sorted.remove(0);
        assert(e == ss[k as int]);
        assert(sorted@ == ss.skip(k + 1));
        out.push(e.1);
        assert(ss.take(k + 1) == ss.take(k as int).push(e));
        k = k + 1;
    }
    assert(ss.take(n as int) == ss);
    proof {
        lemma_listing_order(jobs.entries());
    }
    out
}

/// `j` cancelled at `now`: status cancelled, pid taken, cancel flag set.
pub open spec fn cancelled<P>(j: Job<P>, now: u64) -> Job<P> {
    apply(
        j,
        Change {
            status: Some(JobStatus::Cancelled),
            percent: None,
            message: None,
            updated: Some(now),
            pid: Some(None),
            request_cancel: true,
        },
    )
}

/// The registry after a cancel, and the process id it hands back to kill: a live
/// job is marked cancelled and its pid taken; a finished or unknown job is left
/// alone and nothing is handed back.
pub open spec fn cancel_outcome<P>(s: Seq<Job<P>>, id: Seq<char>, now: u64) -> (Seq<Job<P>>, Option<u32>) {
    match index_of_id(s, id) {
        Some(i) => if is_live(s[i]) {
            (s.update(i, cancelled(s[i], now)), s[i].pid)
        } else {
            (s, None)
        },
        None => (s, None),
    }
}

/// Cancelling by id: the job with that id, when queued or running, becomes
/// cancelled as of `now`; every other job, and a finished one, is left as it was.
pub proof fn lemma_cancel_rule<P>(s: Seq<Job<P>>, id: Seq<char>, now: u64)
    requires
        ids_distinct(s),
    ensures
        cancel_outcome(s, id, now).0.len() == s.len(),
        forall|k: int|
            0 <= k < s.len() ==> (#[trigger] cancel_outcome(s, id, now).0[k]) == if s[k].prog.id@ == id && (
            s[k].prog.status == JobStatus::Queued || s[k].prog.status == JobStatus::Running) {
                cancelled(s[k], now)
            } else {
                s[k]
            },
        forall|k: int|
            0 <= k < s.len() && s[k].prog.id@ == id && (s[k].prog.status == JobStatus::Queued || s[k].prog.status
                == JobStatus::Running) ==> (#[trigger] cancel_outcome(s, id, now).0[k]).prog.status
                == JobStatus::Cancelled && cancel_outcome(s, id, now).0[k].prog.updated == now,
{
    match index_of_id(s, id) {
        Some(i) => {
            assert(s[i].prog.id@ == id);
            assert forall|k: int| 0 <= k < s.len() && k != i implies s[k].prog.id@ != id by {
                assert(s[k].prog.id@ != s[i].prog.id@);
            }
        },
        None => {
            assert forall|k: int| 0 <= k < s.len() implies s[k].prog.id@ != id by {
                if s[k].prog.id@ == id {
                    assert(exists|i: int| 0 <= i < s.len() && s[i].prog.id@ == id);
                }
            }
        },
    }
}

/// A job's process is killed at most once: cancelling the same job again hands
/// back no process id.
pub proof fn lemma_cancel_kills_once<P>(s: Seq<Job<P>>, id: Seq<char>, now1: u64, now2: u64)
    requires
        ids_distinct(s),
    ensures
        cancel_outcome(cancel_outcome(s, id, now1).0, id, now2).1 is None,
{
    if let Some(i) = index_of_id(s, id) {
        if is_live(s[i]) {
            let t = s.update(i, cancelled(s[i], now1));
            assert(t[i].prog.id@ == id);
            assert(exists|k: int| 0 <= k < t.len() && t[k].prog.id@ == id);
            let k = choose|k: int| 0 <= k < t.len() && t[k].prog.id@ == id;
            if k != i {
                assert(t[k] == s[k]);
                assert(s[k].prog.id@ != s[i].prog.id@);
            }
            assert(index_of_id(t, id) == Some(i));
            assert(!is_live(t[i]));
        }
    }
}

/// Cancel a LIVE job: flag it, mark it cancelled and hand back its process id
/// (taken, so it can never be killed twice) for the caller to tree-kill. A
/// finished or unknown job is left alone.
pub fn cancel<P>(jobs: &mut Jobs<P>, id: &str, now: u64) -> (pid: Option<u32>)
    ensures
        final(jobs).counter() == old(jobs).counter(),
        final(jobs).wrapped() == old(jobs).wrapped(),
        (final(jobs).entries(), pid) == cancel_outcome(old(jobs).entries(), id@, now),
        // The job with that id, when queued or running, is cancelled as of `now`;
        // nothing else changes.
        final(jobs).entries().len() == old(jobs).entries().len(),
        forall|k: int|
            0 <= k < old(jobs).entries().len() ==> (#[trigger] final(jobs).entries()[k]) == if old(jobs).entries()[k].prog.id@
                == id@ && (old(jobs).entries()[k].prog.status == JobStatus::Queued || old(jobs).entries()[k].prog.status
                == JobStatus::Running) {
                cancelled(old(jobs).entries()[k], now)
            } else {
                old(jobs).entries()[k]
            },
        forall|k: int|
            0 <= k < old(jobs).entries().len() && old(jobs).entries()[k].prog.id@ == id@ && (old(jobs).entries()[k].prog.status
                == JobStatus::Queued || old(jobs).entries()[k].prog.status == JobStatus::Running) ==> (
            #[trigger] final(jobs).entries()[k]).prog.status == JobStatus::Cancelled && final(jobs).entries()[k].prog.updated
                == now,
{
    proof {
        use_type_invariant(&*jobs);
        lemma_cancel_rule(old(jobs).entries(), id@, now);
    }
    match find_index(&jobs.jobs, id) {
        Some(i) => {
            if jobs.jobs[i].prog.status.is_live() {
                let pid = jobs.jobs[i].pid;
                let ch = Change {
                    status: Some(JobStatus::Cancelled),
                    percent: None,
                    message: None,
                    updated: Some(now),
                    pid: Some(None),
                    request_cancel: true,
                };
                change_at(jobs, i, ch);
                pid
            } else {
                None
            }
        },
        None => None,
    }
}

/// Is this job one that [`cancel_all`] stops?
pub open spec fn stop_target<P>(j: Job<P>, kind: Seq<char>) -> bool {
    is_live(j) && j.prog.kind@ == kind
}

/// The process ids [`cancel_all`] hands back, in registry order.
pub open spec fn target_pids<P>(s: Seq<Job<P>>, kind: Seq<char>) -> Seq<u32>
    decreases s.len(),
{
    if s.len() == 0 {
        Seq::empty()
    } else {
        let rest = target_pids(s.drop_last(), kind);
        if stop_target(s.last(), kind) && s.last().pid is Some {
            rest.push(s.last().pid->0)
        } else {
            rest
        }
    }
}

/// Stop everything of one kind — the bulk grab's panic button. Every live job of
/// that kind is cancelled; their process ids come back for tree-killing.
pub fn cancel_all<P>(jobs: &mut Jobs<P>, kind: &str, now: u64) -> (pids: Vec<u32>)
    ensures
        final(jobs).counter() == old(jobs).counter(),
        final(jobs).wrapped() == old(jobs).wrapped(),
        final(jobs).entries().len() == old(jobs).entries().len(),
        forall|k: int|
            0 <= k < old(jobs).entries().len() ==> #[trigger] final(jobs).entries()[k] == if stop_target(
                old(jobs).entries()[k],
                kind@,
            ) {
                cancelled(old(jobs).entries()[k], now)
            } else {
                old(jobs).entries()[k]
            },
        pids@ == target_pids(old(jobs).entries(), kind@),
{
    let ghost s = jobs.entries();
    let mut pids: Vec<u32> = Vec::new();
    let mut i: usize = 0;
    proof {
        use_type_invariant(&*jobs);
    }
    assert(s.take(0) == Seq::<Job<P>>::empty());
    while i < jobs.jobs.len()
        invariant
            s.len() == jobs.entries().len(),
            jobs.entries() == jobs.jobs@,
            i <= s.len(),
            jobs.counter() == old(jobs).counter(),
            jobs.wrapped() == old(jobs).wrapped(),
            s == old(jobs).entries(),
            forall|k: int|
                0 <= k < s.len() ==> #[trigger] jobs.entries()[k] == if k < i && stop_target(
                    s[k],
                    kind@,
                ) {
                    cancelled(s[k], now)
                } else {
                    s[k]
                },
            pids@ == target_pids(s.take(i as int), kind@),
        decreases s.len() - i,
    {
        proof {
            use_type_invariant(&*jobs);
        }
        assert(s.take(i + 1).drop_last() == s.take(i as int));
        assert(s.take(i + 1).last() == s[i as int]);
        if jobs.jobs[i].prog.status.is_live() && str_eq(jobs.jobs[i].prog.kind.as_str(), kind) {
            if let Some(p) = jobs.jobs[i].pid {
                pids.push(p);
            }
            let ch = Change {
                status: Some(JobStatus::Cancelled),
                percent: None,
                message: None,
                updated: Some(now),
                pid: Some(None),
                request_cancel: true,
            };
            change_at(jobs, i, ch);
        }
        i = i + 1;
    }
    assert(s.take(s.len() as int) == s);
    pids
}

/// The job a fresh request enqueues.
pub open spec fn queued_job<P>(
    id: Seq<char>,
    kind: Seq<char>,
    book_id: i64,
    tag: Seq<char>,
    label: Seq<char>,
    percent: P,
    now: u64,
    j: Job<P>,
) -> bool {
    &&& j.prog.id@ == id
    &&& j.prog.kind@ == kind
    &&& j.prog.book_id == book_id
    &&& j.prog.tag@ == tag
    &&& j.prog.status == JobStatus::Queued
    &&& j.prog.percent == percent
    &&& j.prog.message@ == label
    &&& j.prog.updated == now
    &&& j.pid is None
    &&& !j.cancel_requested
}

/// Register a job for (kind, book_id, tag). A duplicate of a live job returns that
/// job's id and changes nothing (`false`); otherwise a new queued job `job-<n>`
/// takes the next number (replacing any old entry of that id) and `true` tells the
/// caller to run it.
pub fn start<P>(
    jobs: &mut Jobs<P>,
    kind: &str,
    book_id: i64,
    tag: &str,
    label: &str,
    percent: P,
    now: u64,
) -> (r: (String, bool))
    ensures
        live_id(old(jobs).entries(), book_id, kind@, tag@) matches Some(existing) ==> {
            &&& r.0@ == existing
            &&& !r.1
            &&& final(jobs).entries() == old(jobs).entries()
            &&& final(jobs).counter() == old(jobs).counter()
            &&& final(jobs).wrapped() == old(jobs).wrapped()
        },
        live_id(old(jobs).entries(), book_id, kind@, tag@) is None ==> {
            &&& r.1
            &&& r.0@ == job_id(old(jobs).counter())
            &&& final(jobs).counter() == old(jobs).counter().wrapping_add(1)
            &&& final(jobs).wrapped() == (old(jobs).wrapped() || old(jobs).counter() == u64::MAX)
            // Until the counter wraps, a new job's id is one no job in the
            // registry carries.
            &&& !old(jobs).wrapped() ==> index_of_id(old(jobs).entries(), r.0@) is None
            &&& final(jobs).entries().len() >= 1
            &&& queued_job(
                r.0@,
                kind@,
                book_id,
                tag@,
                label@,
                percent,
                now,
                final(jobs).entries().last(),
            )
            &&& final(jobs).entries().drop_last() == match index_of_id(old(jobs).entries(), r.0@) {
                Some(k) => old(jobs).entries().remove(k),
                None => old(jobs).entries(),
            }
        },
        live_id(final(jobs).entries(), book_id, kind@, tag@) == Some(r.0@),
        // A request that matches a queued or running job (same book, kind and
        // tag) gets that job's id back and starts nothing.
        forall|k: int|
            0 <= k < old(jobs).entries().len() && (#[trigger] old(jobs).entries()[k]).prog.book_id == book_id
                && old(jobs).entries()[k].prog.kind@ == kind@ && old(jobs).entries()[k].prog.tag@ == tag@ && (
            old(jobs).entries()[k].prog.status == JobStatus::Queued || old(jobs).entries()[k].prog.status
                == JobStatus::Running) ==> r.0@ == old(jobs).entries()[k].prog.id@ && !r.1 && final(jobs).entries()
                == old(jobs).entries(),
        // Otherwise a new job joins the registry last, queued, with the request's
        // book, kind, tag and label, updated now.
        r.1 ==> {
            let j = final(jobs).entries().last();
            &&& final(jobs).entries().len() >= 1
            &&& j.prog.id@ == r.0@
            &&& j.prog.status == JobStatus::Queued
            &&& j.prog.book_id == book_id
            &&& j.prog.kind@ == kind@
            &&& j.prog.tag@ == tag@
            &&& j.prog.message@ == label@
            &&& j.prog.updated == now
        },
{
    proof {
        use_type_invariant(&*jobs);
        let s = old(jobs).entries();
        assert forall|k: int|
            0 <= k < s.len() && (#[trigger] s[k]).prog.book_id == book_id && s[k].prog.kind@ == kind@
                && s[k].prog.tag@ == tag@ && (s[k].prog.status == JobStatus::Queued || s[k].prog.status
                == JobStatus::Running) implies live_id(s, book_id, kind@, tag@) == Some(s[k].prog.id@) by {
            assert(is_live(s[k]) && has_key(s[k], book_id, kind@, tag@));
            let i = choose|i: int| 0 <= i < s.len() && is_live(s[i]) && has_key(s[i], book_id, kind@, tag@);
            if i != k {
                assert(!same_key(s[i], s[k]) || !is_live(s[i]) || !is_live(s[k]));
            }
        }
    }
    if let Some(existing) = find_live(jobs, book_id, kind, tag) {
        return (existing, false);
    }
    let n = jobs.next_id;
    let mut id = String::new();
    push_str(&mut id, "job-");
    let digits = decimal(n);
    push_chars(&mut id, &digits);
    let ghost s = jobs.jobs@;
    let job = Job {
        prog: JobProgress {
            id: id.clone(),
            kind: string_of(&chars_of(kind)),
            book_id,
            tag: string_of(&chars_of(tag)),
            status: JobStatus::Queued,
            percent,
            message: string_of(&chars_of(label)),
            updated: now,
        },
        pid: None,
        cancel_requested: false,
    };
    let ghost jv = job;
    proof {
        if !jobs.wrapped@ {
            assert forall|x: int| 0 <= x < s.len() implies #[trigger] s[x].prog.id@ != id@ by {
                assert(issued_id(s[x].prog.id@, n));
                let k = choose|k: u64| 1 <= k < n && s[x].prog.id@ == job_id(k);
                lemma_job_id_injective(k, n);
            }
        }
    }
    let mut v: Vec<Job<P>> = Vec::new();
    std::mem::swap(&mut v, &mut jobs.jobs);
    let ghost base;
    let ghost removed;
    let ghost kk: int;
    match find_index(&v, id.as_str()) {
        Some(k) => {
            v.remove(k);
            proof {
                base = s.remove(k as int);
                removed = true;
                kk = k as int;
            }
        },
        None => {
            proof {
                base = s;
                removed = false;
                kk = 0;
            }
        },
    }
    proof {
        lemma_start_ok(s, base, removed, kk, jv, book_id, kind@, tag@);
    }
    v.push(job);
    let ghost was_wrapped = jobs.wrapped@;
    proof {
        if !was_wrapped && n < u64::MAX {
            assert forall|x: int| 0 <= x < v@.len() implies issued_id(#[trigger] v@[x].prog.id@, (n + 1) as u64) by {
                if x < base.len() {
                    let y = if removed && x >= kk { x + 1 } else { x };
                    assert(v@[x] == s[y]);
                    assert(issued_id(s[y].prog.id@, n));
                    let k = choose|k: u64| 1 <= k < n && s[y].prog.id@ == job_id(k);
                    assert(1 <= k < n + 1);
                } else {
                    assert(v@[x] == jv);
                    assert(jv.prog.id@ == job_id(n));
                }
            }
        }
    }
    let ghost w: bool = was_wrapped || n == u64::MAX;
    let wrapped_now: Ghost<bool> = Ghost(w);
    *jobs = Jobs { jobs: v, next_id: n.wrapping_add(1), wrapped: wrapped_now };
    assert(jobs.jobs@.drop_last() == base);
    proof {
        lemma_live_id_unique(jobs.jobs@, jobs.jobs@.len() - 1, book_id, kind@, tag@);
    }
    (id, true)
}

proof fn lemma_start_ok<P>(
    s: Seq<Job<P>>,
    base: Seq<Job<P>>,
    removed: bool,
    k: int,
    j: Job<P>,
    book_id: i64,
    kind: Seq<char>,
    tag: Seq<char>,
)
    requires
        registry_ok(s),
        live_id(s, book_id, kind, tag) is None,
        has_key(j, book_id, kind, tag),
        forall|x: int| 0 <= x < base.len() ==> #[trigger] base[x].prog.id@ != j.prog.id@,
        removed ==> 0 <= k < s.len() && base == s.remove(k),
        !removed ==> base == s,
    ensures
        registry_ok(base.push(j)),
{
    let t = base.push(j);
    assert forall|a: int, b: int|
        0 <= a < t.len() && 0 <= b < t.len() && a != b implies #[trigger] t[a].prog.id@
        != #[trigger] t[b].prog.id@ by {
        if a < base.len() && b < base.len() {
            let ya = if removed && a >= k { a + 1 } else { a };
            let yb = if removed && b >= k { b + 1 } else { b };
            assert(t[a] == s[ya] && t[b] == s[yb]);
        } else if a < base.len() {
            assert(t[a] == base[a] && t[b] == j);
        } else {
            assert(t[b] == base[b] && t[a] == j);
        }
    }
    assert forall|a: int, b: int|
        0 <= a < t.len() && 0 <= b < t.len() && a != b && is_live(#[trigger] t[a]) && is_live(
            #[trigger] t[b],
        ) implies !same_key(t[a], t[b]) by {
        if a < base.len() && b < base.len() {
            let ya = if removed && a >= k { a + 1 } else { a };
            let yb = if removed && b >= k { b + 1 } else { b };
            assert(t[a] == s[ya] && t[b] == s[yb]);
        } else {
            let x = if a < base.len() { a } else { b };
            let y = if removed && x >= k { x + 1 } else { x };
            assert(t[x] == s[y]);
            if same_key(t[a], t[b]) {
                assert(is_live(s[y]) && has_key(s[y], book_id, kind, tag));
            }
        }
    }
}

fn change_by_id<P>(jobs: &mut Jobs<P>, id: &str, ch: Change<P>)
    requires
        forall|i: int|
            0 <= i < old(jobs).entries().len() && old(jobs).entries()[i].prog.id@ == id@ ==> (
            live_status(match ch.status {
                Some(s) => s,
                None => old(jobs).entries()[i].prog.status,
            }) ==> is_live(old(jobs).entries()[i])),
    ensures
        final(jobs).counter() == old(jobs).counter(),
        final(jobs).wrapped() == old(jobs).wrapped(),
        final(jobs).entries() == match index_of_id(old(jobs).entries(), id@) {
            Some(i) => old(jobs).entries().update(i, apply(old(jobs).entries()[i], ch)),
            None => old(jobs).entries(),
        },
{
    proof {
        use_type_invariant(&*jobs);
    }
    if let Some(i) = find_index(&jobs.jobs, id) {
        change_at(jobs, i, ch);
    }
}

/// The registry after `ch` is applied to the job with this id (if any).
pub open spec fn changed<P>(s: Seq<Job<P>>, id: Seq<char>, ch: Change<P>) -> Seq<Job<P>> {
    match index_of_id(s, id) {
        Some(i) => s.update(i, apply(s[i], ch)),
        None => s,
    }
}

pub open spec fn no_change<P>() -> Change<P> {
    Change { status: None, percent: None, message: None, updated: None, pid: None, request_cancel: false }
}

/// Has a cancel been asked for this job? A job no longer in the registry counts
/// as cancelled: only a cancelled job can leave it while its run is under way.
pub fn cancel_requested<P>(jobs: &Jobs<P>, id: &str) -> (r: bool)
    ensures
        r == match index_of_id(jobs.entries(), id@) {
            Some(i) => jobs.entries()[i].cancel_requested,
            None => true,
        },
{
    proof {
        use_type_invariant(jobs);
    }
    match find_index(&jobs.jobs, id) {
        Some(i) => jobs.jobs[i].cancel_requested,
        None => true,
    }
}

/// The job's turn has come (it holds the one-at-a-time slot). If a cancel was
/// asked for, it is marked cancelled and `false` says not to run it; a queued job
/// becomes running with the message "starting…" and `true` says to run it.
pub fn begin_run<P>(jobs: &mut Jobs<P>, id: &str, now: u64) -> (run: bool)
    ensures
        final(jobs).counter() == old(jobs).counter(),
        final(jobs).wrapped() == old(jobs).wrapped(),
        match index_of_id(old(jobs).entries(), id@) {
            None => !run && final(jobs).entries() == old(jobs).entries(),
            Some(i) => if old(jobs).entries()[i].cancel_requested {
                &&& !run
                &&& final(jobs).entries() == old(jobs).entries().update(
                    i,
                    apply(
                        old(jobs).entries()[i],
                        Change {
                            status: Some(JobStatus::Cancelled),
                            updated: Some(now),
                            ..no_change()
                        },
                    ),
                )
            } else if is_live(old(jobs).entries()[i]) {
                &&& run
                &&& final(jobs).entries()[i].prog.message@ == "starting\u{2026}"@
                &&& final(jobs).entries() == old(jobs).entries().update(
                    i,
                    apply(
                        old(jobs).entries()[i],
                        Change {
                            status: Some(JobStatus::Running),
                            message: Some(final(jobs).entries()[i].prog.message),
                            updated: Some(now),
                            ..no_change()
                        },
                    ),
                )
            } else {
                !run && final(jobs).entries() == old(jobs).entries()
            },
        },
{
    proof {
        use_type_invariant(&*jobs);
    }
    match find_index(&jobs.jobs, id) {
        None => false,
        Some(i) => {
            if jobs.jobs[i].cancel_requested {
                let ch = Change {
                    status: Some(JobStatus::Cancelled),
                    percent: None,
                    message: None,
                    updated: Some(now),
                    pid: None,
                    request_cancel: false,
                };
                change_at(jobs, i, ch);
                false
            } else if jobs.jobs[i].prog.status.is_live() {
                let msg = string_of(&chars_of("starting\u{2026}"));
                let ch = Change {
                    status: Some(JobStatus::Running),
                    percent: None,
                    message: Some(msg),
                    updated: Some(now),
                    pid: None,
                    request_cancel: false,
                };
                change_at(jobs, i, ch);
                true
            } else {
                false
            }
        },
    }
}

/// Record the running process's id (or clear it once the process is reaped).
pub fn set_pid<P>(jobs: &mut Jobs<P>, id: &str, pid: Option<u32>)
    ensures
        final(jobs).counter() == old(jobs).counter(),
        final(jobs).wrapped() == old(jobs).wrapped(),
        final(jobs).entries() == changed(
            old(jobs).entries(),
            id@,
            Change { pid: Some(pid), ..no_change() },
        ),
{
    let ch = Change { status: None, percent: None, message: None, updated: None, pid: Some(pid), request_cancel: false };
    change_by_id(jobs, id, ch);
}

/// Progress reported by the running job: an optional new percentage and,
/// optionally, a new message.
pub fn note_progress<P>(
    jobs: &mut Jobs<P>,
    id: &str,
    percent: Option<P>,
    message: Option<String>,
    now: u64,
)
    ensures
        final(jobs).counter() == old(jobs).counter(),
        final(jobs).wrapped() == old(jobs).wrapped(),
        final(jobs).entries() == changed(
            old(jobs).entries(),
            id@,
            Change { percent: percent, message: message, updated: Some(now), ..no_change() },
        ),
{
    let ch = Change { status: None, percent, message, updated: Some(now), pid: None, request_cancel: false };
    change_by_id(jobs, id, ch);
}

/// How a job ended.
pub enum JobOutcome {
    Done,
    Failed(String),
    Cancelled,
}

pub open spec fn outcome_status(o: JobOutcome) -> JobStatus {
    match o {
        JobOutcome::Done => JobStatus::Done,
        JobOutcome::Failed(_) => JobStatus::Failed,
        JobOutcome::Cancelled => JobStatus::Cancelled,
    }
}

pub open spec fn outcome_message(o: JobOutcome) -> Seq<char> {
    match o {
        JobOutcome::Done => "done"@,
        JobOutcome::Failed(m) => m@,
        JobOutcome::Cancelled => "cancelled"@,
    }
}

/// Record how the job ended: done (with the full percentage), failed with a
/// message, or cancelled.
pub fn finish<P>(jobs: &mut Jobs<P>, id: &str, outcome: JobOutcome, full: P, now: u64)
    ensures
        final(jobs).counter() == old(jobs).counter(),
        final(jobs).wrapped() == old(jobs).wrapped(),
        match index_of_id(old(jobs).entries(), id@) {
            None => final(jobs).entries() == old(jobs).entries(),
            Some(i) => {
                &&& final(jobs).entries()[i].prog.message@ == outcome_message(outcome)
                &&& final(jobs).entries() == old(jobs).entries().update(
                    i,
                    apply(
                        old(jobs).entries()[i],
                        Change {
                            status: Some(outcome_status(outcome)),
                            percent: if outcome is Done {
                                Some(full)
                            } else {
                                None
                            },
                            message: Some(final(jobs).entries()[i].prog.message),
                            updated: Some(now),
                            ..no_change()
                        },
                    ),
                )
            },
        },
{
    proof {
        use_type_invariant(&*jobs);
    }
    let ghost o = outcome;
    let (status, percent, message) = match outcome {
        JobOutcome::Done => (JobStatus::Done, Some(full), string_of(&chars_of("done"))),
        JobOutcome::Failed(m) => (JobStatus::Failed, None, m),
        JobOutcome::Cancelled => (JobStatus::Cancelled, None, string_of(&chars_of("cancelled"))),
    };
    assert(message@ == outcome_message(o));
    if let Some(i) = find_index(&jobs.jobs, id) {
        let ch = Change {
            status: Some(status),
            percent,
            message: Some(message),
            updated: Some(now),
            pid: None,
            request_cancel: false,
        };
        change_at(jobs, i, ch);
    }
}

/// Failure to start the subprocess at all.
pub fn fail_start<P>(jobs: &mut Jobs<P>, id: &str, message: String, now: u64)
    ensures
        final(jobs).counter() == old(jobs).counter(),
        final(jobs).wrapped() == old(jobs).wrapped(),
        final(jobs).entries() == changed(
            old(jobs).entries(),
            id@,
            Change {
                status: Some(JobStatus::Failed),
                message: Some(message),
                updated: Some(now),
                ..no_change()
            },
        ),
{
    let ch = Change {
        status: Some(JobStatus::Failed),
        percent: None,
        message: Some(message),
        updated: Some(now),
        pid: None,
        request_cancel: false,
    };
    change_by_id(jobs, id, ch);
}

/// What `serde_json::from_str::<serde_json::Value>` makes of `text`, read as the
/// top-level object's "ok" member (when it is a boolean) and "error" member (when
/// it is a string); both absent when the text is not JSON.
pub uninterp spec fn json_ok_error(text: Seq<char>) -> (Option<bool>, Option<Seq<char>>);

/// Parses `text` with `serde_json::from_str::<serde_json::Value>` and reads the
/// "ok" boolean and "error" string members. The contract only names the result:
/// JSON parsing is serde_json's and is not restated here.
#[verifier::external_body]
fn json_status_fields(text: &str) -> (r: (Option<bool>, Option<String>))
    ensures
        r.0 == json_ok_error(text@).0,
        r.1 is Some <==> json_ok_error(text@).1 is Some,
        r.1 matches Some(e) ==> json_ok_error(text@).1 == Some(e@),
{
    let v: Option<serde_json::Value> = serde_json::from_str(text).ok();
    let ok = v.as_ref().and_then(|v| v.get("ok")).and_then(|b| b.as_bool());
    let error = v.as_ref().and_then(|v| v.get("error")).and_then(|e| e.as_str()).map(
        |e| e.to_string(),
    );
    (ok, error)
}

/// The outcome of a finished run, given whether a cancel was asked for, whether
/// the process exited successfully, and the "ok"/"error" members of its final
/// JSON line.
pub open spec fn outcome_spec(
    cancel: bool,
    exit_success: bool,
    ok: Option<bool>,
    error: Option<Seq<char>>,
) -> (JobStatus, Seq<char>) {
    if cancel {
        (JobStatus::Cancelled, "cancelled"@)
    } else if exit_success && ok != Some(false) {
        (JobStatus::Done, "done"@)
    } else {
        (
            JobStatus::Failed,
            match error {
                Some(e) => e,
                None => "failed"@,
            },
        )
    }
}

/// How a run ended: cancelled if a cancel was asked for; done if the process
/// exited successfully and its JSON did not say `"ok": false`; failed otherwise,
/// with the JSON's "error" as the message (or "failed").
pub fn outcome_from(
    cancel: bool,
    exit_success: bool,
    ok: Option<bool>,
    error: Option<String>,
) -> (o: JobOutcome)
    ensures
        outcome_status(o) == outcome_spec(cancel, exit_success, ok, opt_chars(error)).0,
        outcome_message(o) == outcome_spec(cancel, exit_success, ok, opt_chars(error)).1,
{
    if cancel {
        JobOutcome::Cancelled
    } else if exit_success && !matches!(ok, Some(false)) {
        JobOutcome::Done
    } else {
        match error {
            Some(e) => JobOutcome::Failed(e),
            None => JobOutcome::Failed(string_of(&chars_of("failed"))),
        }
    }
}

/// The last line of a process's trimmed standard output (empty when there is
/// none): every import module ends with exactly one JSON object there.
pub open spec fn last_line(out: Seq<char>) -> Seq<char> {
    match rsplit_once(trim(out), '\n') {
        Some((_, after)) => after,
        None => trim(out),
    }
}

/// How a run ended, reading the final JSON line of its standard output.
pub fn outcome(cancel: bool, exit_success: bool, stdout: &str) -> (o: JobOutcome)
    ensures
        ({
            let f = json_ok_error(last_line(stdout@));
            &&& outcome_status(o) == outcome_spec(cancel, exit_success, f.0, f.1).0
            &&& outcome_message(o) == outcome_spec(cancel, exit_success, f.0, f.1).1
        }),
{
    let t = trim_str(stdout);
    let last = match rsplit_once_chars(&t, '\n') {
        Some((_, after)) => after,
        None => t,
    };
    let text = string_of(&last);
    let (ok, error) = json_status_fields(text.as_str());
    outcome_from(cancel, exit_success, ok, error)
}

/// 42000 -> "42,000".
pub fn thousands(n: i64) -> (s: String)
    ensures
        s@ == grouped(n as int),
{
    group_thousands(n)
}

/// What a counted progress line counts.
pub enum FractionOf {
    OcrPage,
    /// The catalog source being synced.
    CatalogPage(String),
    /// The title of the book being grabbed (may be empty).
    Grab(String),
}

/// A progress line, parsed. `Step` carries a whole-number percentage (negative:
/// leave the percentage unchanged) and the message; `Fraction` carries the raw
/// "i" and "n" of an "i/n" counter for the caller to read as numbers.
pub enum Progress {
    Step { percent: i32, message: String },
    Fraction { done: String, total: String, of: FractionOf },
}

pub ghost enum FractionOfView {
    OcrPage,
    CatalogPage(Seq<char>),
    Grab(Seq<char>),
}

pub ghost enum ProgressView {
    Step(int, Seq<char>),
    Fraction(Seq<char>, Seq<char>, FractionOfView),
}

impl View for FractionOf {
    type V = FractionOfView;

    open spec fn view(&self) -> FractionOfView {
        match self {
            FractionOf::OcrPage => FractionOfView::OcrPage,
            FractionOf::CatalogPage(s) => FractionOfView::CatalogPage(s@),
            FractionOf::Grab(s) => FractionOfView::Grab(s@),
        }
    }
}

impl View for Progress {
    type V = ProgressView;

    open spec fn view(&self) -> ProgressView {
        match self {
            Progress::Step { percent, message } => ProgressView::Step(*percent as int, message@),
            Progress::Fraction { done, total, of } => ProgressView::Fraction(done@, total@, of@),
        }
    }
}

pub open spec fn reingest_percent(step: Seq<char>) -> int {
    if starts_with(step, "extract"@) {
        15
    } else if starts_with(step, "ingest"@) {
        35
    } else if starts_with(step, "score"@) {
        60
    } else if starts_with(step, "cluster"@) {
        85
    } else {
        -1
    }
}

pub open spec fn rescore_percent(step: Seq<char>) -> int {
    if starts_with(step, "score"@) {
        40
    } else if starts_with(step, "cluster"@) {
        80
    } else {
        -1
    }
}

/// A counted "i/n" line.
pub open spec fn fraction(frac: Seq<char>, of: FractionOfView) -> Option<ProgressView> {
    match split_once(frac, '/') {
        Some((i, n)) => Some(ProgressView::Fraction(i, n, of)),
        None => None,
    }
}

/// A "grab: …" line after its prefix: a note about one finished book, or a
/// counter "i/n title".
pub open spec fn grab_line(rest: Seq<char>) -> Option<ProgressView> {
    match strip_prefix(rest, "imported "@) {
        Some(t) => Some(ProgressView::Step(-1, "imported "@ + trim(t))),
        None => match strip_prefix(rest, "failed "@) {
            Some(t) => Some(ProgressView::Step(-1, "failed "@ + trim(t))),
            None => match strip_prefix(rest, "skipped "@) {
                Some(t) => Some(ProgressView::Step(-1, "skipped "@ + trim(t))),
                None => match strip_prefix(rest, "done "@) {
                    Some(t) => Some(ProgressView::Step(-1, "done "@ + trim(t))),
                    None => match split_once(rest, ' ') {
                        Some((frac, title)) => fraction(frac, FractionOfView::Grab(title)),
                        None => fraction(rest, FractionOfView::Grab(Seq::empty())),
                    },
                },
            },
        },
    }
}

/// A "catalog: …" line after its prefix: "<source> page i/n" or
/// "<source> <count> rows".
pub open spec fn catalog_line(r: Seq<char>) -> Option<ProgressView> {
    match split_once(trim(r), ' ') {
        Some((src, tail)) => match strip_prefix(tail, "page "@) {
            Some(frac) => fraction(trim(frac), FractionOfView::CatalogPage(src)),
            None => match strip_suffix(tail, "rows"@) {
                Some(num) => match parse_i64(trim(num)) {
                    Some(n) => Some(
                        ProgressView::Step(-1, src + ": "@ + grouped(n as int) + " rows"@),
                    ),
                    None => None,
                },
                None => None,
            },
        },
        None => None,
    }
}

/// Map a progress line of a job of `kind` to what it reports.
pub open spec fn progress_line(kind: Seq<char>, line: Seq<char>) -> Option<ProgressView> {
    if kind == "ocr"@ {
        match rsplit_once(line, '(') {
            Some((_, after)) => match split_once(after, ')') {
                Some((frac, _)) => fraction(frac, FractionOfView::OcrPage),
                None => None,
            },
            None => None,
        }
    } else if kind == "reingest"@ {
        match strip_prefix(line, "reingest: "@) {
            Some(r) => Some(
                ProgressView::Step(reingest_percent(trim(r)), "re-ingesting: "@ + trim(r)),
            ),
            None => None,
        }
    } else if kind == "trajectory"@ {
        match strip_prefix(line, "trajectory: "@) {
            Some(m) => Some(ProgressView::Step(-1, "usage charts: "@ + trim(m))),
            None => None,
        }
    } else if kind == "catalog"@ {
        match strip_prefix(line, "catalog: "@) {
            Some(r) => catalog_line(r),
            None => None,
        }
    } else if kind == "grab"@ {
        match strip_prefix(line, "grab: "@) {
            Some(r) => grab_line(trim(r)),
            None => None,
        }
    } else if kind == "rescore"@ {
        match strip_prefix(line, "rescore: "@) {
            Some(r) => Some(
                ProgressView::Step(rescore_percent(trim(r)), "re-scoring: "@ + trim(r)),
            ),
            None => None,
        }
    } else {
        None
    }
}

fn starts(v: &Vec<char>, p: &str) -> (r: bool)
    ensures
        r == starts_with(v@, p@),
{
    let pv = chars_of(p);
    chars_start_with(v, &pv)
}

fn message(prefix: &str, body: &Vec<char>) -> (s: String)
    ensures
        s@ == prefix@ + body@,
{
    let mut out = String::new();
    push_str(&mut out, prefix);
    push_chars(&mut out, body);
    out
}

fn fraction_of(frac: &Vec<char>, of: FractionOf) -> (r: Option<Progress>)
    ensures
        r is Some <==> fraction(frac@, of@) is Some,
        r matches Some(p) ==> fraction(frac@, of@) == Some(p@),
{
    match split_once_chars(frac, '/') {
        Some((i, n)) => Some(
            Progress::Fraction { done: string_of(&i), total: string_of(&n), of },
        ),
        None => None,
    }
}

fn grab_progress(rest: &Vec<char>) -> (r: Option<Progress>)
    ensures
        r is Some <==> grab_line(rest@) is Some,
        r matches Some(p) ==> grab_line(rest@) == Some(p@),
{
    if let Some(t) = strip_prefix_chars(rest, "imported ") {
        return Some(Progress::Step { percent: -1, message: message("imported ", &trim_chars(&t)) });
    }
    if let Some(t) = strip_prefix_chars(rest, "failed ") {
        return Some(Progress::Step { percent: -1, message: message("failed ", &trim_chars(&t)) });
    }
    if let Some(t) = strip_prefix_chars(rest, "skipped ") {
        return Some(Progress::Step { percent: -1, message: message("skipped ", &trim_chars(&t)) });
    }
    if let Some(t) = strip_prefix_chars(rest, "done ") {
        return Some(Progress::Step { percent: -1, message: message("done ", &trim_chars(&t)) });
    }
    match split_once_chars(rest, ' ') {
        Some((frac, title)) => fraction_of(&frac, FractionOf::Grab(string_of(&title))),
        None => fraction_of(rest, FractionOf::Grab(String::new())),
    }
}

fn catalog_progress(r: &Vec<char>) -> (p: Option<Progress>)
    ensures
        p is Some <==> catalog_line(r@) is Some,
        p matches Some(x) ==> catalog_line(r@) == Some(x@),
{
    let t = trim_chars(r);
    let (src, tail) = match split_once_chars(&t, ' ') {
        Some(x) => x,
        None => return None,
    };
    if let Some(frac) = strip_prefix_chars(&tail, "page ") {
        let f = trim_chars(&frac);
        return fraction_of(&f, FractionOf::CatalogPage(string_of(&src)));
    }
    let num = match strip_suffix_chars(&tail, "rows") {
        Some(x) => x,
        None => return None,
    };
    let n = match parse_i64_chars(&trim_chars(&num)) {
        Some(n) => n,
        None => return None,
    };
    let mut msg = string_of(&src);
    push_str(&mut msg, ": ");
    let g = group_thousands(n);
    push_str(&mut msg, g.as_str());
    push_str(&mut msg, " rows");
    Some(Progress::Step { percent: -1, message: msg })
}

fn step_percent(step: &Vec<char>, reingest: bool) -> (pct: i32)
    ensures
        reingest ==> pct == reingest_percent(step@),
        !reingest ==> pct == rescore_percent(step@),
{
    if reingest {
        if starts(step, "extract") {
            15
        } else if starts(step, "ingest") {
            35
        } else if starts(step, "score") {
            60
        } else if starts(step, "cluster") {
            85
        } else {
            -1
        }
    } else if starts(step, "score") {
        40
    } else if starts(step, "cluster") {
        80
    } else {
        -1
    }
}

/// Map a subprocess's stderr line to what it reports about progress, by job
/// kind: "ocr[tesseract] page 12 (12/277)", "reingest: score", "trajectory: …",
/// "catalog: standardebooks page 7/31" or "catalog: gutenberg 42000 rows",
/// "grab: 3/25 Title" or "grab: imported|failed|skipped|done …", "rescore: score".
pub fn parse_progress(kind: &str, line: &str) -> (r: Option<Progress>)
    ensures
        r is Some <==> progress_line(kind@, line@) is Some,
        r matches Some(p) ==> progress_line(kind@, line@) == Some(p@),
{
    let l = chars_of(line);
    if str_eq(kind, "ocr") {
        let (_, after) = match rsplit_once_chars(&l, '(') {
            Some(x) => x,
            None => return None,
        };
        let (frac, _) = match split_once_chars(&after, ')') {
            Some(x) => x,
            None => return None,
        };
        fraction_of(&frac, FractionOf::OcrPage)
    } else if str_eq(kind, "reingest") {
        match strip_prefix_chars(&l, "reingest: ") {
            Some(r) => {
                let step = trim_chars(&r);
                Some(Progress::Step { percent: step_percent(&step, true), message: message("re-ingesting: ", &step) })
            },
            None => None,
        }
    } else if str_eq(kind, "trajectory") {
        match strip_prefix_chars(&l, "trajectory: ") {
            Some(m) => Some(Progress::Step { percent: -1, message: message("usage charts: ", &trim_chars(&m)) }),
            None => None,
        }
    } else if str_eq(kind, "catalog") {
        match strip_prefix_chars(&l, "catalog: ") {
            Some(r) => catalog_progress(&r),
            None => None,
        }
    } else if str_eq(kind, "grab") {
        match strip_prefix_chars(&l, "grab: ") {
            Some(r) => grab_progress(&trim_chars(&r)),
            None => None,
        }
    } else if str_eq(kind, "rescore") {
        match strip_prefix_chars(&l, "rescore: ") {
            Some(r) => {
                let step = trim_chars(&r);
                Some(Progress::Step { percent: step_percent(&step, false), message: message("re-scoring: ", &step) })
            },
            None => None,
        }
    } else {
        None
    }
}

} // verus!
