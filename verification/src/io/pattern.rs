//! A workload that walks a device with a repeated pattern of reads, writes
//! and skips.
use vstd::prelude::*;
use std::time::Duration;
use crate::sector::{wrap_u64, Sector};

verus! {

/// One step of a pattern: pass over, write or read the next sectors.
#[derive(Clone, Copy, Debug, PartialEq, Eq, Structural)]
pub enum Pattern {
    Skip(Sector),
    Write(Sector),
    Read(Sector),
}

/// The number of sectors a step covers.
pub open spec fn step_len(p: Pattern) -> int {
    match p {
        Pattern::Skip(l) => l.0 as int,
        Pattern::Write(l) => l.0 as int,
        Pattern::Read(l) => l.0 as int,
    }
}

/// The number of sectors a round of the pattern covers.
pub open spec fn round_len(pats: Seq<Pattern>) -> int
    decreases pats.len(),
{
    if pats.len() == 0 {
        0
    } else {
        round_len(pats.drop_last()) + step_len(pats.last())
    }
}

/// An I/O that a step asks for.
#[derive(Clone, Copy, Debug, PartialEq, Eq, Structural)]
pub enum IoRequest {
    Write { offset: Sector, len: Sector },
    Read { offset: Sector, len: Sector },
}

/// The byte that the buffer of a request holds throughout: a write puts
/// `0xFF` on every byte of its sectors, a read starts from zeros.
pub open spec fn fill_byte(r: IoRequest) -> u8 {
    match r {
        IoRequest::Write { .. } => 0xFFu8,
        IoRequest::Read { .. } => 0u8,
    }
}

/// The number of sectors a request covers.
pub open spec fn request_len(r: IoRequest) -> Sector {
    match r {
        IoRequest::Write { len, .. } => len,
        IoRequest::Read { len, .. } => len,
    }
}

impl IoRequest {
    /// The buffer that goes to the device with the request: as many bytes as
    /// `Sector::bytes` counts in its sectors, each of them `fill_byte`.
    pub fn buffer(&self) -> (b: Vec<u8>)
        requires
            wrap_u64(request_len(*self).0 * 512) <= usize::MAX,
        ensures
            b@.len() == wrap_u64(request_len(*self).0 * 512),
            forall|i: int| 0 <= i < b@.len() ==> #[trigger] b@[i] == fill_byte(*self),
    {
        let (len, fill) = match self {
            IoRequest::Write { len, .. } => (*len, 0xFFu8),
            IoRequest::Read { len, .. } => (*len, 0u8),
        };
        let n = len.bytes();
        vec![fill; n as usize]
    }
}

/// The I/O of one step taken at sector `cur`: none for a skip.
pub open spec fn step_requests(cur: int, p: Pattern) -> Seq<IoRequest> {
    match p {
        Pattern::Skip(_) => Seq::empty(),
        Pattern::Write(l) => seq![IoRequest::Write { offset: Sector(cur as u64), len: l }],
        Pattern::Read(l) => seq![IoRequest::Read { offset: Sector(cur as u64), len: l }],
    }
}

/// The I/O of one round of the pattern, started at sector `start`: each step
/// begins where the previous one ended.
pub open spec fn round_requests(start: int, pats: Seq<Pattern>) -> Seq<IoRequest>
    decreases pats.len(),
{
    if pats.len() == 0 {
        Seq::empty()
    } else {
        round_requests(start, pats.drop_last()) + step_requests(
            start + round_len(pats.drop_last()),
            pats.last(),
        )
    }
}

/// The number of steps of `pats` that write or read.
pub open spec fn io_step_count(pats: Seq<Pattern>) -> nat
    decreases pats.len(),
{
    if pats.len() == 0 {
        0
    } else {
        io_step_count(pats.drop_last()) + if pats.last() is Skip {
            0nat
        } else {
            1nat
        }
    }
}

proof fn lemma_io_step_count_take(pats: Seq<Pattern>, j: int)
    requires
        0 <= j < pats.len(),
    ensures
        io_step_count(pats.take(j)) + (if pats[j] is Skip {
            0int
        } else {
            1int
        }) <= io_step_count(pats),
    decreases pats.len(),
{
    let q = pats.drop_last();
    if j == pats.len() - 1 {
        assert(pats.take(j) =~= q);
    } else {
        assert(pats.take(j) =~= q.take(j));
        assert(pats[j] == q[j]);
        lemma_io_step_count_take(q, j);
    }
}

/// The requests of a round match its writing and reading steps one to one,
/// in order: there are as many requests as such steps, and the step at
/// index `j`, when it writes or reads `l` sectors, gives the request
/// numbered by the count of such steps before it, of the same kind and
/// length `l`, at the sector where the round stands after the steps before
/// `j`. A skip gives none.
pub proof fn lemma_round_requests_steps(start: int, pats: Seq<Pattern>)
    ensures
        round_requests(start, pats).len() == io_step_count(pats),
        forall|j: int|
            0 <= j < pats.len() ==> match #[trigger] pats[j] {
                Pattern::Skip(_) => true,
                Pattern::Write(l) => round_requests(start, pats)[io_step_count(pats.take(j)) as int]
                    == IoRequest::Write { offset: Sector((start + round_len(pats.take(j))) as u64), len: l },
                Pattern::Read(l) => round_requests(start, pats)[io_step_count(pats.take(j)) as int]
                    == IoRequest::Read { offset: Sector((start + round_len(pats.take(j))) as u64), len: l },
            },
    decreases pats.len(),
{
    if pats.len() > 0 {
        let q = pats.drop_last();
        let n = pats.len() - 1;
        lemma_round_requests_steps(start, q);
        let prev = round_requests(start, q);
        let all = round_requests(start, pats);
        assert(all == prev + step_requests(start + round_len(q), pats.last()));
        assert forall|j: int| 0 <= j < pats.len() implies match #[trigger] pats[j] {
            Pattern::Skip(_) => true,
            Pattern::Write(l) => all[io_step_count(pats.take(j)) as int] == IoRequest::Write {
                offset: Sector((start + round_len(pats.take(j))) as u64),
                len: l,
            },
            Pattern::Read(l) => all[io_step_count(pats.take(j)) as int] == IoRequest::Read {
                offset: Sector((start + round_len(pats.take(j))) as u64),
                len: l,
            },
        } by {
            if j < n {
                assert(pats.take(j) =~= q.take(j));
                assert(pats[j] == q[j]);
                lemma_io_step_count_take(q, j);
                match q[j] {
                    Pattern::Skip(_) => {},
                    _ => {
                        assert(all[io_step_count(q.take(j)) as int] == prev[io_step_count(q.take(j)) as int]);
                    },
                }
            } else {
                assert(pats.take(j) =~= q);
            }
        }
    }
}

proof fn lemma_round_len_prefix(pats: Seq<Pattern>, k: int)
    requires
        0 <= k <= pats.len(),
    ensures
        0 <= round_len(pats.take(k)) <= round_len(pats),
    decreases pats.len(),
{
    if k < pats.len() {
        assert(pats.take(pats.len() - 1) =~= pats.drop_last());
        lemma_round_len_prefix(pats.drop_last(), k);
        assert(pats.drop_last().take(k) =~= pats.take(k));
    } else {
        assert(pats.take(k) =~= pats);
        if pats.len() > 0 {
            lemma_round_len_prefix(pats.drop_last(), pats.len() - 1);
        }
    }
}

/// How a pattern is run: where it starts, for how long, and for how many
/// sectors at most.
pub struct PatternIO {
    cur: Option<Sector>,
    max_runtime: Option<Duration>,
    max_io_amount: Option<Sector>,
}

impl PatternIO {
    /// Start at the beginning of the device, with no limit set.
    pub fn new() -> (p: PatternIO)
        ensures
            p.cur_spec() is None,
            p.max_runtime_spec() is None,
            p.max_io_amount_spec() is None,
    {
        PatternIO { cur: None, max_runtime: None, max_io_amount: None }
    }

    pub closed spec fn cur_spec(&self) -> Option<Sector> {
        self.cur
    }

    pub closed spec fn max_runtime_spec(&self) -> Option<Duration> {
        self.max_runtime
    }

    pub closed spec fn max_io_amount_spec(&self) -> Option<Sector> {
        self.max_io_amount
    }

    /// Start at sector `x`.
    pub fn cur(self, x: Sector) -> (p: PatternIO)
        ensures
            p.cur_spec() == Some(x),
            p.max_runtime_spec() == self.max_runtime_spec(),
            p.max_io_amount_spec() == self.max_io_amount_spec(),
    {
        PatternIO { cur: Some(x), ..self }
    }

    /// Stop after the first round that ends past `x` of running time.
    pub fn max_runtime(self, x: Duration) -> (p: PatternIO)
        ensures
            p.cur_spec() == self.cur_spec(),
            p.max_runtime_spec() == Some(x),
            p.max_io_amount_spec() == self.max_io_amount_spec(),
    {
        PatternIO { max_runtime: Some(x), ..self }
    }

    /// Stop after the first round that ends `x` sectors or more past the
    /// start.
    pub fn max_io_amount(self, x: Sector) -> (p: PatternIO)
        ensures
            p.cur_spec() == self.cur_spec(),
            p.max_runtime_spec() == self.max_runtime_spec(),
            p.max_io_amount_spec() == Some(x),
    {
        PatternIO { max_io_amount: Some(x), ..self }
    }

    /// The running time after which the run stops, if one is set.
    pub fn runtime_limit(&self) -> (d: Option<Duration>)
        ensures
            d == self.max_runtime_spec(),
    {
        self.max_runtime
    }

    /// A run of the pattern from its start: sector 0 unless `cur` says
    /// otherwise, with no limit on the amount unless `max_io_amount` sets one.
    pub fn begin(&self) -> (run: PatternRun)
        ensures
            run.start_spec() == match self.cur_spec() {
                Some(c) => c.0,
                None => 0u64,
            },
            run.cur_spec() == run.start_spec(),
            run.limit_spec() == match self.max_io_amount_spec() {
                Some(m) => m.0,
                None => u64::MAX,
            },
    {
        let start = match self.cur {
            Some(c) => c,
            None => Sector(0),
        };
        let limit = match self.max_io_amount {
            Some(m) => m,
            None => Sector(u64::MAX),
        };
        PatternRun { start, cur: start, limit }
    }
}

/// A pattern being run: where it started, where it stands, and how many
/// sectors past the start it may go before it stops.
pub struct PatternRun {
    start: Sector,
    cur: Sector,
    limit: Sector,
}

impl PatternRun {
    pub closed spec fn start_spec(&self) -> u64 {
        self.start.0
    }

    pub closed spec fn cur_spec(&self) -> u64 {
        self.cur.0
    }

    pub closed spec fn limit_spec(&self) -> u64 {
        self.limit.0
    }

    #[verifier::type_invariant]
    spec fn wf(self) -> bool {
        self.start.0 <= self.cur.0
    }

    /// The sector the next round starts at.
    pub fn position(&self) -> (s: Sector)
        ensures
            s.0 == self.cur_spec(),
    {
        self.cur
    }

    /// The I/O of one round of `pats`, in order; the run moves past the
    /// round.
    pub fn round(&mut self, pats: &[Pattern]) -> (reqs: Vec<IoRequest>)
        requires
            old(self).cur_spec() + round_len(pats@) <= u64::MAX,
        ensures
            reqs@ == round_requests(old(self).cur_spec() as int, pats@),
            final(self).cur_spec() == old(self).cur_spec() + round_len(pats@),
            final(self).start_spec() == old(self).start_spec(),
            final(self).limit_spec() == old(self).limit_spec(),
    {
        proof {
            use_type_invariant(&*self);
        }
        let ghost c0 = self.cur.0 as int;
        let mut cur = self.cur;
        let mut reqs: Vec<IoRequest> = Vec::new();
        let mut k: usize = 0;
        while k < pats.len()
            invariant
                k <= pats@.len(),
                c0 + round_len(pats@) <= u64::MAX,
                cur.0 == c0 + round_len(pats@.take(k as int)),
                reqs@ == round_requests(c0, pats@.take(k as int)),
            decreases pats.len() - k,
        {
            let p = pats[k];
            proof {
                lemma_round_len_prefix(pats@, k + 1);
                assert(pats@.take(k + 1).drop_last() =~= pats@.take(k as int));
                assert(pats@.take(k + 1).last() == p);
            }
            let l = match p {
                Pattern::Skip(l) => l,
                Pattern::Write(l) => {
                    reqs.push(IoRequest::Write { offset: cur, len: l });
                    l
                },
                Pattern::Read(l) => {
                    reqs.push(IoRequest::Read { offset: cur, len: l });
                    l
                },
            };
            cur = cur + l;
            k = k + 1;
            assert(reqs@ =~= round_requests(c0, pats@.take(k as int)));
        }
        assert(pats@.take(pats@.len() as int) =~= pats@);
        proof {
            lemma_round_len_prefix(pats@, 0);
        }
        self.cur = cur;
        reqs
    }

    /// Whether the run stops after the round just done: it has gone `limit`
    /// sectors or more past its start, or its time is up.
    pub fn finished(&self, deadline_passed: bool) -> (done: bool)
        ensures
            done == (self.cur_spec() - self.start_spec() >= self.limit_spec() || deadline_passed),
    {
        proof {
            use_type_invariant(self);
        }
        let mut should_quit = false;
        if self.cur - self.start >= self.limit {
            should_quit = true;
        }
        if deadline_passed {
            should_quit = true;
        }
        should_quit
    }
}

} // verus!
