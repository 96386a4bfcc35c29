//! The download coordinator: which chunks to fetch from which owner in each
//! round, how fetch outcomes change that plan, and when to give up.

use vstd::prelude::*;
use crate::checksum::{checksum_of, checksum_matches};
use crate::fanout::{MAX_FANOUT, max_allowed};
use crate::tracker::{ChunkRef, RefView, ref_views, string_views, contains_string};

verus! {

/// Consecutive rounds without any verified chunk after which a download gives up.
pub const MAX_STALLED_ROUNDS: usize = 3;

/// Seconds to wait between two rounds when some chunk is still missing.
pub const RETRY_BACKOFF_SECS: u64 = 3;

/// Seconds after which a single chunk fetch counts as failed.
pub const FETCH_TIMEOUT_SECS: u64 = 5;

/// Why a download cannot go on.
#[derive(PartialEq, Eq, Structural, Debug, Clone, Copy)]
pub enum DownloadError {
    /// The tracker knows no chunk of the file.
    NoChunksAvailable,
    /// Several rounds in a row verified no chunk while some are still missing.
    InsufficientSources,
}

/// What the coordinator does after a round of fetches.
#[derive(PartialEq, Eq, Structural, Debug, Clone, Copy)]
pub enum RoundOutcome {
    /// Every chunk is present: reassemble the file.
    Complete,
    /// Some chunks are missing: wait, then plan another round.
    Retry,
    /// Give up: no round made progress for too long.
    InsufficientSources,
}

/// A peer that offers a chunk, and the checksum it registered for it.
pub struct Candidate {
    pub address: String,
    pub checksum: String,
}

pub ghost struct CandView {
    pub address: Seq<char>,
    pub checksum: Seq<char>,
}

impl View for Candidate {
    type V = CandView;

    open spec fn view(&self) -> CandView {
        CandView { address: self.address@, checksum: self.checksum@ }
    }
}

impl Candidate {
    fn copied(&self) -> (r: Candidate)
        ensures
            r@ == self@,
    {
        Candidate { address: self.address.clone(), checksum: self.checksum.clone() }
    }
}

pub open spec fn cand_views(s: Seq<Candidate>) -> Seq<CandView> {
    s.map_values(|c: Candidate| c@)
}

fn copy_candidates(v: &Vec<Candidate>) -> (r: Vec<Candidate>)
    ensures
        cand_views(r@) == cand_views(v@),
{
    let mut out: Vec<Candidate> = Vec::new();
    let mut m: usize = 0;
    while m < v.len()
        invariant
            m <= v@.len(),
            out@.len() == m,
            cand_views(out@) == cand_views(v@).take(m as int),
        decreases v@.len() - m,
    {
        let c = v[m].copied();
        let ghost prev = out@;
        out.push(c);
        assert(cand_views(out@) =~= cand_views(v@).take(m + 1)) by {
            assert forall|x: int| 0 <= x < m implies #[trigger] out@[x] == prev[x] by {}
        }
        m = m + 1;
    }
    assert(cand_views(v@).take(m as int) =~= cand_views(v@));
    out
}

/// The download state of one chunk: every owner the tracker named, the owners
/// not yet tried in vain, and whether a verified copy is on disk.
pub struct ChunkJob {
    pub chunk_name: String,
    pub owners: Vec<Candidate>,
    pub remaining: Vec<Candidate>,
    pub done: bool,
}

pub ghost struct JobView {
    pub name: Seq<char>,
    pub owners: Seq<CandView>,
    pub remaining: Seq<CandView>,
    pub done: bool,
}

impl View for ChunkJob {
    type V = JobView;

    open spec fn view(&self) -> JobView {
        JobView {
            name: self.chunk_name@,
            owners: cand_views(self.owners@),
            remaining: cand_views(self.remaining@),
            done: self.done,
        }
    }
}

pub open spec fn job_views(s: Seq<ChunkJob>) -> Seq<JobView> {
    s.map_values(|j: ChunkJob| j@)
}

/// One fetch to issue: chunk `chunk_name` (job `job`) from `address`,
/// expected to hash to `checksum`.
pub struct FetchRequest {
    pub job: usize,
    pub chunk_name: String,
    pub address: String,
    pub checksum: String,
}

pub ghost struct ReqView {
    pub job: nat,
    pub chunk_name: Seq<char>,
    pub address: Seq<char>,
    pub checksum: Seq<char>,
}

impl View for FetchRequest {
    type V = ReqView;

    open spec fn view(&self) -> ReqView {
        ReqView {
            job: self.job as nat,
            chunk_name: self.chunk_name@,
            address: self.address@,
            checksum: self.checksum@,
        }
    }
}

pub open spec fn req_views(s: Seq<FetchRequest>) -> Seq<ReqView> {
    s.map_values(|r: FetchRequest| r@)
}

pub ghost struct DownloadView {
    pub self_address: Seq<char>,
    pub jobs: Seq<JobView>,
    pub stalled_rounds: nat,
    pub progressed: bool,
    pub downloaded_bytes: u64,
}

// ---------------------------------------------------------------- specs

/// A reference worth fetching: not served by this peer itself, and naming a
/// chunk that is not on disk already.
pub open spec fn fetchable(self_address: Seq<char>, local: Seq<Seq<char>>) -> spec_fn(RefView) -> bool {
    |c: RefView| c.peer_address != self_address && !local.contains(c.chunk_name)
}

pub open spec fn cand_of(c: RefView) -> CandView {
    CandView { address: c.peer_address, checksum: c.checksum }
}

pub open spec fn named(name: Seq<char>) -> spec_fn(RefView) -> bool {
    |c: RefView| c.chunk_name == name
}

/// The owners of chunk `name` among `refs`, in order.
pub open spec fn owners_of(refs: Seq<RefView>, name: Seq<char>) -> Seq<CandView> {
    refs.filter(named(name)).map_values(|c: RefView| cand_of(c))
}

/// `jobs` groups `refs` by chunk name: one job per distinct name, holding
/// exactly the owners of that chunk, none of them tried yet.
pub open spec fn groups(jobs: Seq<JobView>, refs: Seq<RefView>) -> bool {
    &&& forall|k: int|
        0 <= k < jobs.len() ==> {
            &&& (#[trigger] jobs[k]).owners == owners_of(refs, jobs[k].name)
            &&& jobs[k].remaining == jobs[k].owners
            &&& !jobs[k].done
            &&& jobs[k].owners.len() > 0
        }
    &&& forall|a: int, b: int|
        0 <= a < jobs.len() && 0 <= b < jobs.len() && a != b ==> (#[trigger] jobs[a]).name != (
        #[trigger] jobs[b]).name
    &&& forall|i: int|
        0 <= i < refs.len() ==> exists|k: int|
            0 <= k < jobs.len() && (#[trigger] jobs[k]).name == (#[trigger] refs[i]).chunk_name
}

pub open spec fn not_from(address: Seq<char>) -> spec_fn(CandView) -> bool {
    |c: CandView| c.address != address
}

/// The owners left for a chunk after a failed fetch from `address`: that owner
/// is dropped; once none is left, the full owner list is tried again.
pub open spec fn after_failure(remaining: Seq<CandView>, owners: Seq<CandView>, address: Seq<char>) -> Seq<CandView> {
    let left = remaining.filter(not_from(address));
    if left.len() == 0 {
        owners
    } else {
        left
    }
}

/// A job that can be scheduled: still missing, with an owner to ask.
pub open spec fn schedulable(j: JobView) -> bool {
    !j.done && j.remaining.len() > 0
}

pub open spec fn pick_at(picks: Seq<usize>, k: int) -> nat {
    if 0 <= k < picks.len() {
        picks[k] as nat
    } else {
        0
    }
}

/// The request for job `k`: the owner at `picks[k]` (wrapped around) of those
/// left for that chunk.
pub open spec fn request_for(jobs: Seq<JobView>, k: int, picks: Seq<usize>) -> ReqView {
    let j = jobs[k];
    let c = j.remaining[(pick_at(picks, k) % j.remaining.len()) as int];
    ReqView { job: k as nat, chunk_name: j.name, address: c.address, checksum: c.checksum }
}

/// Requests for every schedulable job among the first `n`, in job order.
pub open spec fn requests_upto(jobs: Seq<JobView>, n: nat, picks: Seq<usize>) -> Seq<ReqView>
    decreases n,
{
    if n == 0 {
        Seq::empty()
    } else {
        let prev = requests_upto(jobs, (n - 1) as nat, picks);
        if schedulable(jobs[n - 1]) {
            prev.push(request_for(jobs, n - 1, picks))
        } else {
            prev
        }
    }
}

/// The fan-out a round uses for a requested parallelism: at least one, at most `MAX_FANOUT`.
pub open spec fn effective_cap(max_connections: nat) -> nat {
    if max_connections < 1 {
        1
    } else if max_connections > MAX_FANOUT {
        MAX_FANOUT as nat
    } else {
        max_connections
    }
}

/// One round: the first `cap` schedulable jobs, each with its picked owner.
pub open spec fn round_plan(jobs: Seq<JobView>, cap: nat, picks: Seq<usize>) -> Seq<ReqView> {
    let all = requests_upto(jobs, jobs.len(), picks);
    if all.len() <= cap {
        all
    } else {
        all.take(cap as int)
    }
}

pub open spec fn all_done(jobs: Seq<JobView>) -> bool {
    forall|k: int| 0 <= k < jobs.len() ==> (#[trigger] jobs[k]).done
}

proof fn lemma_requests_prefix(jobs: Seq<JobView>, n: nat, m: nat, picks: Seq<usize>)
    requires
        n <= m <= jobs.len(),
    ensures
        requests_upto(jobs, n, picks).len() <= requests_upto(jobs, m, picks).len(),
        requests_upto(jobs, n, picks) == requests_upto(jobs, m, picks).take(
            requests_upto(jobs, n, picks).len() as int,
        ),
    decreases m - n,
{
    if n < m {
        lemma_requests_prefix(jobs, n, (m - 1) as nat, picks);
        let a = requests_upto(jobs, n, picks);
        let b = requests_upto(jobs, (m - 1) as nat, picks);
        let c = requests_upto(jobs, m, picks);
        if schedulable(jobs[m - 1]) {
            assert(c.take(a.len() as int) =~= b.take(a.len() as int));
        }
    } else {
        let a = requests_upto(jobs, n, picks);
        assert(a.take(a.len() as int) =~= a);
    }
}

/// Every request of a round is for a distinct schedulable job, names that job's
/// chunk, and goes to one of the owners left for it.
proof fn lemma_requests_valid(jobs: Seq<JobView>, n: nat, picks: Seq<usize>)
    requires
        n <= jobs.len(),
    ensures
        forall|i: int|
            0 <= i < requests_upto(jobs, n, picks).len() ==> {
                let r = #[trigger] requests_upto(jobs, n, picks)[i];
                &&& r.job < n
                &&& schedulable(jobs[r.job as int])
                &&& r.chunk_name == jobs[r.job as int].name
                &&& jobs[r.job as int].remaining.contains(CandView { address: r.address, checksum: r.checksum })
            },
        forall|i: int, k: int|
            0 <= i < k < requests_upto(jobs, n, picks).len() ==> (#[trigger] requests_upto(jobs, n, picks)[i]).job
                < (#[trigger] requests_upto(jobs, n, picks)[k]).job,
    decreases n,
{
    if n > 0 {
        lemma_requests_valid(jobs, (n - 1) as nat, picks);
        let prev = requests_upto(jobs, (n - 1) as nat, picks);
        let cur = requests_upto(jobs, n, picks);
        if schedulable(jobs[n - 1]) {
            let r = request_for(jobs, n - 1, picks);
            let j = jobs[n - 1];
            let len = j.remaining.len();
            let p = pick_at(picks, n - 1);
            assert(0 <= p % len < len) by (nonlinear_arith)
                requires
                    len > 0,
            ;
            let idx = (p % len) as int;
            assert(j.remaining[idx] == CandView { address: r.address, checksum: r.checksum });
            assert(cur == prev.push(r));
            assert forall|i: int| 0 <= i < cur.len() implies {
                let r = #[trigger] cur[i];
                &&& r.job < n
                &&& schedulable(jobs[r.job as int])
                &&& r.chunk_name == jobs[r.job as int].name
                &&& jobs[r.job as int].remaining.contains(CandView { address: r.address, checksum: r.checksum })
            } by {
                if i < prev.len() {
                    assert(cur[i] == prev[i]);
                } else {
                    assert(cur[i] == r);
                    assert(r.job == n - 1);
                }
            }
            assert forall|i: int, k: int| 0 <= i < k < cur.len() implies (#[trigger] cur[i]).job < (
            #[trigger] cur[k]).job by {
                assert(cur[i] == prev[i]);
                if k < prev.len() {
                    assert(cur[k] == prev[k]);
                } else {
                    assert(cur[k] == r);
                }
            }
        }
    }
}

/// A round never schedules more fetches than the parallelism the user chose,
/// and an accepted choice never exceeds what the peer's own chunk count allows.
pub proof fn lemma_fanout_cap(jobs: Seq<JobView>, max_connections: nat, local_chunks: nat, picks: Seq<usize>)
    requires
        1 <= max_connections <= max_allowed(local_chunks),
    ensures
        round_plan(jobs, effective_cap(max_connections), picks).len() <= max_connections,
        max_connections <= max_allowed(local_chunks) <= MAX_FANOUT,
{
}

proof fn lemma_owners_step(refs: Seq<RefView>, i: int, name: Seq<char>)
    requires
        0 <= i < refs.len(),
    ensures
        owners_of(refs.take(i + 1), name) == if refs[i].chunk_name == name {
            owners_of(refs.take(i), name).push(cand_of(refs[i]))
        } else {
            owners_of(refs.take(i), name)
        },
{
    reveal(Seq::filter);
    assert(refs.take(i + 1).drop_last() =~= refs.take(i));
    let f = refs.take(i).filter(named(name));
    if refs[i].chunk_name == name {
        assert(f.push(refs[i]).map_values(|c: RefView| cand_of(c)) =~= f.map_values(
            |c: RefView| cand_of(c),
        ).push(cand_of(refs[i])));
    }
}

// ---------------------------------------------------------------- randomness

#[verifier::external_type_specification]
#[verifier::external_body]
pub struct ExThreadRng(rand::rngs::ThreadRng);

/// Relies on rand's `thread_rng`: a handle on the thread-local generator.
#[verifier::external_body]
fn thread_rng() -> (r: rand::rngs::ThreadRng) {
    rand::thread_rng()
}

/// Relies on rand's `Rng::gen_range`: a value drawn from `0..bound`; the range
/// must not be empty.
#[verifier::external_body]
fn gen_below(rng: &mut rand::rngs::ThreadRng, bound: usize) -> (r: usize)
    requires
        bound > 0,
    ensures
        r < bound,
{
    rand::Rng::gen_range(rng, 0..bound)
}

/// A value drawn at random from `0..bound`.
fn random_below(bound: usize) -> (r: usize)
    requires
        bound > 0,
    ensures
        r < bound,
{
    let mut rng = thread_rng();
    gen_below(&mut rng, bound)
}

/// A listening port drawn from `8000..9000`.
pub fn random_port() -> (r: u16)
    ensures
        8000 <= r < 9000,
{
    let offset = random_below(1000);
    (8000 + offset) as u16
}

// ---------------------------------------------------------------- coordinator

/// The references worth fetching: those not served by this peer itself
/// (`self_address`) and naming a chunk not already among `local`.
pub fn fetchable_refs(refs: &Vec<ChunkRef>, self_address: &String, local: &Vec<String>) -> (r: Vec<ChunkRef>)
    ensures
        ref_views(r@) == ref_views(refs@).filter(fetchable(self_address@, string_views(local@))),
{
    let ghost v = ref_views(refs@);
    let ghost pred = fetchable(self_address@, string_views(local@));
    let mut out: Vec<ChunkRef> = Vec::new();
    let mut i: usize = 0;
    while i < refs.len()
        invariant
            v == ref_views(refs@),
            pred == fetchable(self_address@, string_views(local@)),
            i <= refs@.len(),
            ref_views(out@) == v.take(i as int).filter(pred),
        decreases refs@.len() - i,
    {
        proof {
            reveal(Seq::filter);
            assert(v.take(i + 1).drop_last() =~= v.take(i as int));
        }
        let c = &refs[i];
        if c.peer_address != *self_address && !contains_string(local, &c.chunk_name) {
            out.push(c.copied());
        }
        assert(ref_views(out@) =~= v.take(i + 1).filter(pred));
        i = i + 1;
    }
    assert(v.take(i as int) =~= v);
    out
}

/// Whether a reassembled file is sound: it hashes to the whole-file checksum
/// the tracker published, when one was published.
pub fn verify_assembled(assembled: &[u8], published: Option<&String>) -> (r: bool)
    ensures
        r == match published {
            Some(c) => checksum_of(assembled@) == c@,
            None => true,
        },
{
    match published {
        Some(c) => checksum_matches(assembled, c),
        None => true,
    }
}

/// The coordinator of one file download: per-chunk owner lists, which chunks
/// are verified, and how many rounds in a row made no progress.
pub struct Download {
    self_address: String,
    jobs: Vec<ChunkJob>,
    stalled_rounds: usize,
    progressed: bool,
    downloaded_bytes: u64,
}

impl View for Download {
    type V = DownloadView;

    closed spec fn view(&self) -> DownloadView {
        DownloadView {
            self_address: self.self_address@,
            jobs: job_views(self.jobs@),
            stalled_rounds: self.stalled_rounds as nat,
            progressed: self.progressed,
            downloaded_bytes: self.downloaded_bytes,
        }
    }
}

impl Download {
    /// No owner of any chunk is this peer itself, and the stall counter is bounded.
    pub open spec fn wf(&self) -> bool {
        &&& self@.stalled_rounds <= MAX_STALLED_ROUNDS
        &&& forall|k: int, c: int|
            0 <= k < self@.jobs.len() && 0 <= c < self@.jobs[k].owners.len() ==> (
            #[trigger] self@.jobs[k].owners[c]).address != self@.self_address
        &&& forall|k: int, c: int|
            0 <= k < self@.jobs.len() && 0 <= c < self@.jobs[k].remaining.len() ==> (
            #[trigger] self@.jobs[k].remaining[c]).address != self@.self_address
    }

    /// Starts a download of the chunks listed in `refs`, the tracker's answer
    /// for the file. References served by `self_address` and chunks already in
    /// `local` are left out; the rest are grouped by chunk name. Fails when the
    /// tracker listed no chunk at all.
    pub fn new(refs: &Vec<ChunkRef>, self_address: String, local: &Vec<String>) -> (r: Result<Download, DownloadError>)
        ensures
            r is Err <==> refs@.len() == 0,
            r matches Err(e) ==> e == DownloadError::NoChunksAvailable,
            r matches Ok(d) ==> {
                &&& d.wf()
                &&& d@.self_address == self_address@
                &&& groups(d@.jobs, ref_views(refs@).filter(fetchable(self_address@, string_views(local@))))
                &&& d@.stalled_rounds == 0
                &&& !d@.progressed
                &&& d@.downloaded_bytes == 0
            },
    {
        if refs.len() == 0 {
            return Err(DownloadError::NoChunksAvailable);
        }
        let usable = fetchable_refs(refs, &self_address, local);
        let ghost e = ref_views(usable@);
        proof {
            let pred = fetchable(self_address@, string_views(local@));
            assert forall|i: int| 0 <= i < e.len() implies (#[trigger] e[i]).peer_address != self_address@ by {
                ref_views(refs@).lemma_filter_pred(pred, i);
            }
        }
        let mut jobs: Vec<ChunkJob> = Vec::new();
        let mut i: usize = 0;
        while i < usable.len()
            invariant
                e == ref_views(usable@),
                i <= usable@.len(),
                forall|x: int| 0 <= x < e.len() ==> (#[trigger] e[x]).peer_address != self_address@,
                groups(job_views(jobs@), e.take(i as int)),
                forall|k: int, c: int|
                    0 <= k < jobs@.len() && 0 <= c < jobs@[k]@.owners.len() ==> (
                    #[trigger] jobs@[k]@.owners[c]).address != self_address@,
            decreases usable@.len() - i,
        {
            let ghost before = job_views(jobs@);
            let c = &usable[i];
            let mut k: usize = 0;
            let mut found = false;
            #[verifier::loop_isolation(false)]
            while k < jobs.len() && !found
                invariant
                    k <= jobs@.len(),
                    found ==> k < jobs@.len() && jobs@[k as int].chunk_name@ == c.chunk_name@,
                    forall|m: int| 0 <= m < k ==> (#[trigger] jobs@[m]).chunk_name@ != c.chunk_name@,
                decreases jobs@.len() - k + (if found { 0int } else { 1int }),
            {
                if jobs[k].chunk_name == c.chunk_name {
                    found = true;
                } else {
                    k = k + 1;
                }
            }
            let cand = Candidate { address: c.peer_address.clone(), checksum: c.checksum.clone() };
            proof {
                assert(cand@ == cand_of(e[i as int]));
                assert forall|m: int| 0 <= m < before.len() implies #[trigger] owners_of(e.take(i + 1), before[m].name)
                    == if e[i as int].chunk_name == before[m].name {
                        owners_of(e.take(i as int), before[m].name).push(cand_of(e[i as int]))
                    } else {
                        owners_of(e.take(i as int), before[m].name)
                    } by {
                    lemma_owners_step(e, i as int, before[m].name);
                }
            }
            if found {
                let cand2 = cand.copied();
                jobs[k].owners.push(cand);
                jobs[k].remaining.push(cand2);
                proof {
                    let after = job_views(jobs@);
                    assert forall|m: int| 0 <= m < after.len() && m != k implies #[trigger] after[m] == before[m] by {}
                    assert(after[k as int].owners =~= before[k as int].owners.push(cand_of(e[i as int])));
                    assert(after[k as int].remaining =~= before[k as int].remaining.push(cand_of(e[i as int])));
                    assert(e[i as int].chunk_name == c.chunk_name@);
                    assert(before[k as int].name == e[i as int].chunk_name);
                    assert forall|m: int| 0 <= m < after.len() implies (#[trigger] after[m]).owners == owners_of(
                        e.take(i + 1),
                        after[m].name,
                    ) by {
                        assert(owners_of(e.take(i + 1), before[m].name) == if e[i as int].chunk_name
                            == before[m].name {
                            owners_of(e.take(i as int), before[m].name).push(cand_of(e[i as int]))
                        } else {
                            owners_of(e.take(i as int), before[m].name)
                        });
                        if m != k {
                            assert(before[m].name != before[k as int].name);
                        }
                    }
                    assert forall|x: int| 0 <= x < i + 1 implies exists|m: int|
                        0 <= m < after.len() && (#[trigger] after[m]).name == (#[trigger] e.take(i + 1)[x]).chunk_name by {
                        if x < i {
                            assert(e.take(i + 1)[x] == e.take(i as int)[x]);
                            let m = choose|m: int| 0 <= m < before.len() && (#[trigger] before[m]).name == e.take(i as int)[x].chunk_name;
                            assert(after[m].name == before[m].name);
                        } else {
                            assert(after[k as int].name == e[i as int].chunk_name);
                        }
                    }
                }
            } else {
                let name = c.chunk_name.clone();
                let mut owners: Vec<Candidate> = Vec::new();
                let mut remaining: Vec<Candidate> = Vec::new();
                let cand2 = cand.copied();
                owners.push(cand);
                remaining.push(cand2);
                jobs.push(ChunkJob { chunk_name: name, owners, remaining, done: false });
                proof {
                    let after = job_views(jobs@);
                    let n = e[i as int].chunk_name;
                    assert(after =~= before.push(after[before.len() as int]));
                    assert(!e.take(i as int).filter(named(n)).contains(e[i as int])) by {
                        if e.take(i as int).filter(named(n)).contains(e[i as int]) {
                            e.take(i as int).lemma_filter_contains_rev(named(n), e[i as int]);
                            let x = choose|x: int| 0 <= x < i && e.take(i as int)[x] == e[i as int];
                            let m = choose|m: int| 0 <= m < before.len() && (#[trigger] before[m]).name == e.take(i as int)[x].chunk_name;
                            assert(jobs@[m].chunk_name@ == before[m].name);
                        }
                    }
                    assert(e.take(i as int).filter(named(n)).len() == 0) by {
                        if e.take(i as int).filter(named(n)).len() > 0 {
                            let y = e.take(i as int).filter(named(n))[0];
                            e.take(i as int).lemma_filter_pred(named(n), 0);
                            e.take(i as int).lemma_filter_contains_rev(named(n), y);
                            let x = choose|x: int| 0 <= x < i && e.take(i as int)[x] == y;
                            let m = choose|m: int| 0 <= m < before.len() && (#[trigger] before[m]).name == e.take(i as int)[x].chunk_name;
                            assert(jobs@[m].chunk_name@ == before[m].name);
                            assert(e.take(i as int).filter(named(n)).contains(y));
                        }
                    }
                    assert(owners_of(e.take(i as int), n) =~= Seq::<CandView>::empty());
                    assert(after[before.len() as int].owners =~= seq![cand_of(e[i as int])]);
                    assert(after[before.len() as int].remaining =~= seq![cand_of(e[i as int])]);
                    assert forall|m: int| 0 <= m < after.len() implies (#[trigger] after[m]).owners == owners_of(
                        e.take(i + 1),
                        after[m].name,
                    ) by {
                        if m < before.len() {
                            assert(after[m] == before[m]);
                            assert(owners_of(e.take(i + 1), before[m].name) == if e[i as int].chunk_name
                                == before[m].name {
                                owners_of(e.take(i as int), before[m].name).push(cand_of(e[i as int]))
                            } else {
                                owners_of(e.take(i as int), before[m].name)
                            });
                            assert(jobs@[m].chunk_name@ == before[m].name);
                        } else {
                            lemma_owners_step(e, i as int, n);
                        }
                    }
                    assert forall|x: int| 0 <= x < i + 1 implies exists|m: int|
                        0 <= m < after.len() && (#[trigger] after[m]).name == (#[trigger] e.take(i + 1)[x]).chunk_name by {
                        if x < i {
                            assert(e.take(i + 1)[x] == e.take(i as int)[x]);
                            let m = choose|m: int| 0 <= m < before.len() && (#[trigger] before[m]).name == e.take(i as int)[x].chunk_name;
                            assert(after[m].name == before[m].name);
                        } else {
                            assert(after[before.len() as int].name == e[i as int].chunk_name);
                        }
                    }
                    assert forall|a: int, b: int|
                        0 <= a < after.len() && 0 <= b < after.len() && a != b implies (#[trigger] after[a]).name != (
                        #[trigger] after[b]).name by {
                        if a < before.len() && b < before.len() {
                        } else if a < before.len() {
                            assert(jobs@[a].chunk_name@ == before[a].name);
                        } else {
                            assert(jobs@[b].chunk_name@ == before[b].name);
                        }
                    }
                }
            }
            assert(groups(job_views(jobs@), e.take(i + 1)));
            i = i + 1;
        }
        assert(e.take(i as int) =~= e);
        let d = Download { self_address, jobs, stalled_rounds: 0, progressed: false, downloaded_bytes: 0 };
        proof {
            assert forall|k: int, c: int|
                0 <= k < d@.jobs.len() && 0 <= c < d@.jobs[k].remaining.len() implies (
                #[trigger] d@.jobs[k].remaining[c]).address != d@.self_address by {
                assert(d@.jobs[k] == d.jobs@[k]@);
                assert(d@.jobs[k].remaining == d@.jobs[k].owners);
            }
            assert forall|k: int, c: int|
                0 <= k < d@.jobs.len() && 0 <= c < d@.jobs[k].owners.len() implies (
                #[trigger] d@.jobs[k].owners[c]).address != d@.self_address by {
                assert(d@.jobs[k] == d.jobs@[k]@);
            }
        }
        Ok(d)
    }
}

impl Download {
    /// Number of distinct chunks this download fetches.
    pub fn job_count(&self) -> (r: usize)
        ensures
            r == self@.jobs.len(),
    {
        self.jobs.len()
    }

    /// Total bytes of the chunks verified so far.
    pub fn downloaded_bytes(&self) -> (r: u64)
        ensures
            r == self@.downloaded_bytes,
    {
        self.downloaded_bytes
    }

    /// Whether every chunk has been fetched and verified.
    pub fn is_complete(&self) -> (r: bool)
        ensures
            r == all_done(self@.jobs),
    {
        let mut k: usize = 0;
        while k < self.jobs.len()
            invariant
                k <= self@.jobs.len(),
                self@.jobs.len() == self.jobs@.len(),
                forall|m: int| 0 <= m < k ==> (#[trigger] self@.jobs[m]).done,
            decreases self.jobs@.len() - k,
        {
            if !self.jobs[k].done {
                assert(!self@.jobs[k as int].done);
                return false;
            }
            k = k + 1;
        }
        true
    }

    /// Names of the chunks still missing, in job order.
    pub fn missing_chunk_names(&self) -> (r: Vec<String>)
        ensures
            string_views(r@) == self@.jobs.filter(|j: JobView| !j.done).map_values(|j: JobView| j.name),
    {
        let ghost v = self@.jobs;
        let mut out: Vec<String> = Vec::new();
        let mut k: usize = 0;
        while k < self.jobs.len()
            invariant
                v == self@.jobs,
                v.len() == self.jobs@.len(),
                k <= v.len(),
                string_views(out@) == v.take(k as int).filter(|j: JobView| !j.done).map_values(|j: JobView| j.name),
            decreases self.jobs@.len() - k,
        {
            proof {
                reveal(Seq::filter);
                assert(v.take(k + 1).drop_last() =~= v.take(k as int));
            }
            let ghost prev = v.take(k as int).filter(|j: JobView| !j.done);
            if !self.jobs[k].done {
                out.push(self.jobs[k].chunk_name.clone());
                assert(prev.push(v[k as int]).map_values(|j: JobView| j.name) =~= prev.map_values(|j: JobView| j.name).push(v[k as int].name));
            }
            assert(string_views(out@) =~= v.take(k + 1).filter(|j: JobView| !j.done).map_values(|j: JobView| j.name));
            k = k + 1;
        }
        assert(v.take(k as int) =~= v);
        out
    }

    /// Plans one round: the first `effective_cap(max_connections)` schedulable
    /// chunks, in job order, each from the owner at `picks[k]` (wrapped around)
    /// of those left for job `k`.
    pub fn plan_round(&self, max_connections: usize, picks: &Vec<usize>) -> (r: Vec<FetchRequest>)
        requires
            self.wf(),
        ensures
            req_views(r@) == round_plan(self@.jobs, effective_cap(max_connections as nat), picks@),
            r@.len() <= effective_cap(max_connections as nat) <= MAX_FANOUT,
            max_connections >= 1 ==> r@.len() <= max_connections,
            forall|i: int|
                0 <= i < r@.len() ==> {
                    let q = #[trigger] r@[i]@;
                    &&& q.job < self@.jobs.len()
                    &&& !self@.jobs[q.job as int].done
                    &&& q.chunk_name == self@.jobs[q.job as int].name
                    &&& self@.jobs[q.job as int].remaining.contains(CandView { address: q.address, checksum: q.checksum })
                    &&& q.address != self@.self_address
                },
            forall|i: int, k: int| 0 <= i < k < r@.len() ==> (#[trigger] r@[i]).job < (#[trigger] r@[k]).job,
    {
        let cap: usize = if max_connections < 1 {
            1
        } else if max_connections > MAX_FANOUT {
            MAX_FANOUT
        } else {
            max_connections
        };
        let ghost jobs = self@.jobs;
        let mut out: Vec<FetchRequest> = Vec::new();
        let mut k: usize = 0;
        while k < self.jobs.len() && out.len() < cap
            invariant
                jobs == self@.jobs,
                jobs.len() == self.jobs@.len(),
                k <= jobs.len(),
                out@.len() <= cap,
                req_views(out@) == requests_upto(jobs, k as nat, picks@),
            decreases self.jobs@.len() - k,
        {
            let job = &self.jobs[k];
            if !job.done && job.remaining.len() > 0 {
                let pick = if k < picks.len() {
                    picks[k]
                } else {
                    0
                };
                let idx = pick % job.remaining.len();
                let c = &job.remaining[idx];
                let q = FetchRequest {
                    job: k,
                    chunk_name: job.chunk_name.clone(),
                    address: c.address.clone(),
                    checksum: c.checksum.clone(),
                };
                let ghost before = out@;
                out.push(q);
                proof {
                    assert(jobs[k as int] == job@);
                    assert(cand_views(job.remaining@)[idx as int] == c@);
                    assert(req_views(out@) =~= req_views(before).push(request_for(jobs, k as int, picks@)));
                }
            }
            k = k + 1;
        }
        proof {
            let all = requests_upto(jobs, jobs.len(), picks@);
            lemma_requests_prefix(jobs, k as nat, jobs.len(), picks@);
            lemma_requests_valid(jobs, jobs.len(), picks@);
            let got = req_views(out@);
            if k < jobs.len() {
                assert(got.len() == cap);
                assert(all.take(cap as int) =~= got);
            } else {
                assert(got =~= all);
            }
            assert forall|i: int| 0 <= i < out@.len() implies {
                let q = #[trigger] out@[i]@;
                &&& q.job < self@.jobs.len()
                &&& !self@.jobs[q.job as int].done
                &&& q.chunk_name == self@.jobs[q.job as int].name
                &&& self@.jobs[q.job as int].remaining.contains(CandView { address: q.address, checksum: q.checksum })
                &&& q.address != self@.self_address
            } by {
                assert(out@[i]@ == got[i]);
                assert(got[i] == all[i]);
                let q = all[i];
                let rem = jobs[q.job as int].remaining;
                let x = choose|x: int| 0 <= x < rem.len() && rem[x] == CandView { address: q.address, checksum: q.checksum };
                assert(rem[x].address != self@.self_address);
            }
            assert forall|i: int, m: int| 0 <= i < m < out@.len() implies (#[trigger] out@[i]).job < (#[trigger] out@[m]).job by {
                assert(out@[i]@ == got[i] && got[i] == all[i]);
                assert(out@[m]@ == got[m] && got[m] == all[m]);
            }
        }
        out
    }

    /// One random pick per job: an index below the number of owners left for
    /// it, or zero where none is left.
    pub fn draw_picks(&self) -> (r: Vec<usize>)
        ensures
            r@.len() == self@.jobs.len(),
            forall|k: int|
                0 <= k < r@.len() && self@.jobs[k].remaining.len() > 0 ==> (#[trigger] r@[k]) < self@.jobs[k].remaining.len(),
    {
        let mut out: Vec<usize> = Vec::new();
        let mut k: usize = 0;
        while k < self.jobs.len()
            invariant
                k <= self@.jobs.len(),
                self@.jobs.len() == self.jobs@.len(),
                out@.len() == k,
                forall|m: int|
                    0 <= m < k && self@.jobs[m].remaining.len() > 0 ==> (#[trigger] out@[m]) < self@.jobs[m].remaining.len(),
            decreases self.jobs@.len() - k,
        {
            let n = self.jobs[k].remaining.len();
            assert(self@.jobs[k as int].remaining.len() == n);
            if n > 0 {
                out.push(random_below(n));
            } else {
                out.push(0);
            }
            k = k + 1;
        }
        out
    }

    /// Plans one round as `plan_round` does, with a random owner for each chunk.
    pub fn plan_random_round(&self, max_connections: usize) -> (r: Vec<FetchRequest>)
        requires
            self.wf(),
        ensures
            exists|picks: Seq<usize>| req_views(r@) == round_plan(self@.jobs, effective_cap(max_connections as nat), picks),
            r@.len() <= effective_cap(max_connections as nat) <= MAX_FANOUT,
            max_connections >= 1 ==> r@.len() <= max_connections,
            forall|i: int|
                0 <= i < r@.len() ==> {
                    let q = #[trigger] r@[i]@;
                    &&& q.job < self@.jobs.len()
                    &&& !self@.jobs[q.job as int].done
                    &&& q.chunk_name == self@.jobs[q.job as int].name
                    &&& self@.jobs[q.job as int].remaining.contains(CandView { address: q.address, checksum: q.checksum })
                    &&& q.address != self@.self_address
                },
    {
        let picks = self.draw_picks();
        self.plan_round(max_connections, &picks)
    }

    /// Takes in the outcome of fetching `req`: `data` holds the bytes received,
    /// or nothing when the fetch failed or timed out. Returns whether the bytes
    /// match the expected checksum; only then may they be kept. A chunk that
    /// verifies is marked done; otherwise its owner is dropped from the ones
    /// left to try (all of them are tried again once none is left).
    pub fn record_result(&mut self, req: &FetchRequest, data: Option<&[u8]>) -> (r: bool)
        requires
            old(self).wf(),
            req.job < old(self)@.jobs.len(),
        ensures
            final(self).wf(),
            r == (data matches Some(b) && checksum_of(b@) == req.checksum@),
            final(self)@.self_address == old(self)@.self_address,
            final(self)@.stalled_rounds == old(self)@.stalled_rounds,
            final(self)@.jobs.len() == old(self)@.jobs.len(),
            forall|k: int| 0 <= k < old(self)@.jobs.len() && k != req.job ==> #[trigger] final(self)@.jobs[k] == old(self)@.jobs[k],
            r ==> {
                &&& final(self)@.jobs[req.job as int] == JobView { done: true, ..old(self)@.jobs[req.job as int] }
                &&& final(self)@.progressed
                &&& final(self)@.downloaded_bytes as int == if old(self)@.downloaded_bytes + data.unwrap()@.len() > u64::MAX {
                    u64::MAX as int
                } else {
                    old(self)@.downloaded_bytes + data.unwrap()@.len()
                }
            },
            !r ==> {
                &&& final(self)@.jobs[req.job as int] == JobView {
                    remaining: after_failure(
                        old(self)@.jobs[req.job as int].remaining,
                        old(self)@.jobs[req.job as int].owners,
                        req@.address,
                    ),
                    ..old(self)@.jobs[req.job as int]
                }
                &&& final(self)@.progressed == old(self)@.progressed
                &&& final(self)@.downloaded_bytes == old(self)@.downloaded_bytes
            },
    {
        let verified = match data {
            Some(b) => checksum_matches(b, &req.checksum),
            None => false,
        };
        let j = req.job;
        if verified {
            let len = data.unwrap().len();
            self.jobs[j].done = true;
            self.progressed = true;
            self.downloaded_bytes = if len as u64 > u64::MAX - self.downloaded_bytes {
                u64::MAX
            } else {
                self.downloaded_bytes + len as u64
            };
            proof {
                assert forall|k: int| 0 <= k < old(self)@.jobs.len() && k != req.job implies #[trigger] self@.jobs[k] == old(self)@.jobs[k] by {}
                assert(self@.jobs[j as int] == JobView { done: true, ..old(self)@.jobs[j as int] });
            }
        } else {
            let ghost rem = old(self)@.jobs[j as int].remaining;
            let mut left: Vec<Candidate> = Vec::new();
            let mut i: usize = 0;
            while i < self.jobs[j].remaining.len()
                invariant
                    j < self.jobs@.len(),
                    self@ == old(self)@,
                    rem == cand_views(self.jobs@[j as int].remaining@),
                    i <= rem.len(),
                    cand_views(left@) == rem.take(i as int).filter(not_from(req@.address)),
                decreases rem.len() - i,
            {
                proof {
                    reveal(Seq::filter);
                    assert(rem.take(i + 1).drop_last() =~= rem.take(i as int));
                }
                if self.jobs[j].remaining[i].address != req.address {
                    left.push(self.jobs[j].remaining[i].copied());
                }
                assert(cand_views(left@) =~= rem.take(i + 1).filter(not_from(req@.address)));
                i = i + 1;
            }
            assert(rem.take(i as int) =~= rem);
            if left.len() == 0 {
                let all = copy_candidates(&self.jobs[j].owners);
                self.jobs[j].remaining = all;
            } else {
                self.jobs[j].remaining = left;
            }
            proof {
                let nj = self@.jobs[j as int];
                assert(nj.remaining == after_failure(rem, old(self)@.jobs[j as int].owners, req@.address));
                assert(nj == JobView {
                    remaining: after_failure(rem, old(self)@.jobs[j as int].owners, req@.address),
                    ..old(self)@.jobs[j as int]
                });
                assert forall|k: int| 0 <= k < old(self)@.jobs.len() && k != req.job implies #[trigger] self@.jobs[k] == old(self)@.jobs[k] by {}
                assert forall|c: int| 0 <= c < nj.remaining.len() implies (#[trigger] nj.remaining[c]).address != self@.self_address by {
                    if left.len() == 0 {
                        assert(nj.remaining == old(self)@.jobs[j as int].owners);
                    } else {
                        rem.lemma_filter_contains_rev(not_from(req@.address), nj.remaining[c]);
                        let x = choose|x: int| 0 <= x < rem.len() && rem[x] == nj.remaining[c];
                    }
                }
            }
        }
        verified
    }

    /// Closes a round. Complete once every chunk is verified; otherwise a round
    /// that verified some chunk resets the stall count and one that verified
    /// none adds to it, and the download gives up at `MAX_STALLED_ROUNDS`.
    pub fn end_round(&mut self) -> (r: RoundOutcome)
        requires
            old(self).wf(),
        ensures
            final(self).wf(),
            final(self)@.jobs == old(self)@.jobs,
            final(self)@.self_address == old(self)@.self_address,
            final(self)@.downloaded_bytes == old(self)@.downloaded_bytes,
            !final(self)@.progressed,
            all_done(old(self)@.jobs) ==> r == RoundOutcome::Complete && final(self)@.stalled_rounds == old(self)@.stalled_rounds,
            !all_done(old(self)@.jobs) && old(self)@.progressed ==> r == RoundOutcome::Retry && final(self)@.stalled_rounds == 0,
            !all_done(old(self)@.jobs) && !old(self)@.progressed ==> {
                &&& final(self)@.stalled_rounds == if old(self)@.stalled_rounds + 1 >= MAX_STALLED_ROUNDS {
                    MAX_STALLED_ROUNDS as nat
                } else {
                    old(self)@.stalled_rounds + 1
                }
                &&& r == if final(self)@.stalled_rounds >= MAX_STALLED_ROUNDS {
                    RoundOutcome::InsufficientSources
                } else {
                    RoundOutcome::Retry
                }
            },
    {
        let complete = self.is_complete();
        let progressed = self.progressed;
        self.progressed = false;
        if complete {
            return RoundOutcome::Complete;
        }
        if progressed {
            self.stalled_rounds = 0;
            return RoundOutcome::Retry;
        }
        if self.stalled_rounds + 1 >= MAX_STALLED_ROUNDS {
            self.stalled_rounds = MAX_STALLED_ROUNDS;
            RoundOutcome::InsufficientSources
        } else {
            self.stalled_rounds = self.stalled_rounds + 1;
            RoundOutcome::Retry
        }
    }
}

} // verus!
