use vstd::prelude::*;
use vstd::string::StringSliceAdditionalSpecFns;

use crate::matcher::Muxer;
use crate::res::spec_response;
use crate::res::Res;
use crate::res::RespondError;

verus! {

// The admission-control engine. Workers are long-lived threads fed over
// bounded channels; both live with the embedding process, which performs
// each action this machine asks for and reports the outcome back. The
// machine itself decides everything: which worker to try, when to grow
// the pool, when to prune a dead worker, and when to reject a socket.

/// Why a non-blocking handoff to a worker fails.
#[derive(Copy, Clone, PartialEq, Eq, Structural, Debug)]
pub enum SendError {
    /// The worker's channel is full: it is still busy with earlier work.
    LineBusy,
    /// The worker's receiving thread has exited; the worker is dead.
    Disconnected,
}

/// What the admission loop does next.
#[derive(Copy, Clone, PartialEq, Eq, Structural, Debug)]
pub enum PoolAction {
    /// Attempt a non-blocking handoff to the worker at this index, then
    /// report the outcome.
    TrySend { idx: usize },
    /// Create one new worker, then report that it exists.
    SpawnLine,
    /// Shut the socket down: the pool is at capacity and every worker
    /// was busy.
    Reject,
    /// The socket was handed off; admission is over.
    Accepted,
}

/// Where one admission currently stands.
#[derive(Copy, Clone, PartialEq, Eq, Structural, Debug)]
pub enum Phase {
    /// No admission is running.
    Idle,
    /// A send to the worker at `idx` is in flight.
    Sending,
    /// A new worker is being spawned; `idx` already names its slot.
    Spawning,
}

/// The pool: a worker count bounded by `max_line`, the routing muxer
/// shared by every worker, and the state of the admission in progress.
pub struct LinePool {
    pub n_lines: usize,
    pub max_line: usize,
    pub idx: usize,
    pub phase: Phase,
    pub http_muxer: Muxer,
}

impl LinePool {
    pub open spec fn wf(self) -> bool {
        &&& self.n_lines <= self.max_line
        &&& self.http_muxer.wf()
        &&& (self.phase is Sending ==> self.idx < self.n_lines)
        &&& (self.phase is Spawning ==> self.idx == self.n_lines && self.n_lines < self.max_line)
    }

    /// An empty pool that may grow up to `max_line` workers.
    pub fn new(max_line: usize) -> (p: LinePool)
        ensures
            p.wf(),
            p.n_lines == 0,
            p.max_line == max_line,
            p.phase is Idle,
            p.http_muxer.filters@.len() == 0,
            p.http_muxer.n_matchers == 0,
            forall|q: Seq<u8>, mm: crate::method::Method| p.http_muxer.trie.spec_get(q, mm)
                is None,
    {
        LinePool {
            n_lines: 0,
            max_line,
            idx: 0,
            phase: Phase::Idle,
            http_muxer: Muxer::new(),
        }
    }

    /// Begins admission of one socket. With no workers yet, exactly one
    /// is created first; a pool whose capacity is zero rejects outright.
    pub fn handle_start(&mut self) -> (r: PoolAction)
        requires
            old(self).wf(),
            old(self).phase is Idle,
        ensures
            final(self).wf(),
            final(self).n_lines == old(self).n_lines,
            final(self).max_line == old(self).max_line,
            final(self).http_muxer == old(self).http_muxer,
            r == (if old(self).n_lines == 0 && old(self).max_line == 0 {
                PoolAction::Reject
            } else if old(self).n_lines == 0 {
                PoolAction::SpawnLine
            } else {
                PoolAction::TrySend { idx: 0 }
            }),
            r is Reject ==> final(self).phase is Idle,
            r is SpawnLine ==> final(self).phase is Spawning,
            r is TrySend ==> final(self).phase is Sending && final(self).idx == 0,
    {
        if self.n_lines == 0 {
            if self.max_line == 0 {
                self.phase = Phase::Idle;
                return PoolAction::Reject;
            }
            self.idx = 0;
            self.phase = Phase::Spawning;
            return PoolAction::SpawnLine;
        }
        self.idx = 0;
        self.phase = Phase::Sending;
        PoolAction::TrySend { idx: 0 }
    }

    /// The embedding process created the worker this machine asked for:
    /// the pool grows by one and the send is attempted on the new worker.
    pub fn on_spawned(&mut self) -> (r: PoolAction)
        requires
            old(self).wf(),
            old(self).phase is Spawning,
        ensures
            final(self).wf(),
            final(self).n_lines == old(self).n_lines + 1,
            final(self).max_line == old(self).max_line,
            final(self).http_muxer == old(self).http_muxer,
            final(self).phase is Sending,
            final(self).idx == old(self).idx,
            r == (PoolAction::TrySend { idx: old(self).idx }),
    {
        self.n_lines = self.n_lines + 1;
        self.phase = Phase::Sending;
        PoolAction::TrySend { idx: self.idx }
    }

    /// The send was taken: admission is over, the socket was accepted.
    pub fn on_send_ok(&mut self) -> (r: PoolAction)
        requires
            old(self).wf(),
            old(self).phase is Sending,
        ensures
            final(self).wf(),
            final(self).n_lines == old(self).n_lines,
            final(self).max_line == old(self).max_line,
            final(self).http_muxer == old(self).http_muxer,
            final(self).phase is Idle,
            r == PoolAction::Accepted,
    {
        self.phase = Phase::Idle;
        PoolAction::Accepted
    }

    /// The worker was busy: advance to the next worker, growing the pool
    /// first when this was the last one and the cap is not reached. The
    /// socket is rejected exactly when the pool is at capacity and every
    /// worker up to the last answered busy.
    pub fn on_send_busy(&mut self) -> (r: PoolAction)
        requires
            old(self).wf(),
            old(self).phase is Sending,
        ensures
            final(self).wf(),
            final(self).n_lines == old(self).n_lines,
            final(self).max_line == old(self).max_line,
            final(self).http_muxer == old(self).http_muxer,
            (*final(self), r) == spec_after_busy(*old(self)),
            r == (if old(self).idx + 1 < old(self).n_lines {
                PoolAction::TrySend { idx: (old(self).idx + 1) as usize }
            } else if old(self).n_lines < old(self).max_line {
                PoolAction::SpawnLine
            } else {
                PoolAction::Reject
            }),
            r is Reject <==> (old(self).idx + 1 == old(self).n_lines && old(self).n_lines == old(
                self,
            ).max_line),
            r is TrySend ==> final(self).phase is Sending && final(self).idx == old(self).idx + 1,
            r is SpawnLine ==> final(self).phase is Spawning,
            r is Reject ==> final(self).phase is Idle,
    {
        if self.idx + 1 < self.n_lines {
            self.idx = self.idx + 1;
            self.phase = Phase::Sending;
            PoolAction::TrySend { idx: self.idx }
        } else if self.n_lines < self.max_line {
            self.idx = self.idx + 1;
            self.phase = Phase::Spawning;
            PoolAction::SpawnLine
        } else {
            self.phase = Phase::Idle;
            PoolAction::Reject
        }
    }

    /// The worker at `idx` is dead and the embedding process removed it,
    /// shifting later indices down by one. The pool shrinks by one and
    /// the delivery is retried transparently: on the worker that now
    /// holds this index, or on a fresh worker when none remains behind
    /// it. A disconnection is never surfaced as a rejection.
    pub fn on_send_disconnected(&mut self) -> (r: PoolAction)
        requires
            old(self).wf(),
            old(self).phase is Sending,
        ensures
            final(self).wf(),
            final(self).n_lines == old(self).n_lines - 1,
            final(self).max_line == old(self).max_line,
            final(self).http_muxer == old(self).http_muxer,
            r == (if old(self).idx < old(self).n_lines - 1 {
                PoolAction::TrySend { idx: old(self).idx }
            } else {
                PoolAction::SpawnLine
            }),
            !(r is Reject),
            !(r is Accepted),
            r is TrySend ==> final(self).phase is Sending && final(self).idx == old(self).idx,
            r is SpawnLine ==> final(self).phase is Spawning && final(self).idx == final(self).n_lines,
    {
        self.n_lines = self.n_lines - 1;
        if self.idx < self.n_lines {
            self.phase = Phase::Sending;
            PoolAction::TrySend { idx: self.idx }
        } else {
            self.idx = self.n_lines;
            self.phase = Phase::Spawning;
            PoolAction::SpawnLine
        }
    }
}

/// The pool after a busy answer for the send in flight, with the action
/// then owed: `on_send_busy` performs exactly this transition.
pub open spec fn spec_after_busy(p: LinePool) -> (LinePool, PoolAction) {
    if p.idx + 1 < p.n_lines {
        (
            LinePool {
                n_lines: p.n_lines,
                max_line: p.max_line,
                idx: (p.idx + 1) as usize,
                phase: Phase::Sending,
                http_muxer: p.http_muxer,
            },
            PoolAction::TrySend { idx: (p.idx + 1) as usize },
        )
    } else if p.n_lines < p.max_line {
        (
            LinePool {
                n_lines: p.n_lines,
                max_line: p.max_line,
                idx: (p.idx + 1) as usize,
                phase: Phase::Spawning,
                http_muxer: p.http_muxer,
            },
            PoolAction::SpawnLine,
        )
    } else {
        (
            LinePool {
                n_lines: p.n_lines,
                max_line: p.max_line,
                idx: p.idx,
                phase: Phase::Idle,
                http_muxer: p.http_muxer,
            },
            PoolAction::Reject,
        )
    }
}

/// What an admission comes to when every send it tries answers busy:
/// the chain of `on_send_busy` transitions up to the first action that is
/// not another send.
pub open spec fn run_all_busy(p: LinePool) -> PoolAction
    decreases p.n_lines - p.idx,
    when p.idx < p.n_lines
{
    let pa = spec_after_busy(p);
    if pa.1 is TrySend {
        run_all_busy(pa.0)
    } else {
        pa.1
    }
}

/// Hard backpressure, and nothing earlier than that: a pool already at
/// its maximum worker count, every worker of which answers busy in turn,
/// ends the admission by rejecting the socket; while a pool below its
/// maximum never rejects, because the all-busy chain ends by spawning a
/// fresh worker instead.
pub proof fn lemma_all_busy_ends_admission(p: LinePool)
    requires
        p.wf(),
        p.phase is Sending,
    ensures
        p.n_lines == p.max_line ==> run_all_busy(p) == PoolAction::Reject,
        p.n_lines < p.max_line ==> run_all_busy(p) == PoolAction::SpawnLine,
    decreases p.n_lines - p.idx,
{
    let pa = spec_after_busy(p);
    if pa.1 is TrySend {
        lemma_all_busy_ends_admission(pa.0);
    }
}

// The response paths that every worker's handling closure shares: what a
// worker writes when no route matches, and when a handler returns without
// responding.

/// Writes the route-not-found response: status 404, body `Not Found`.
pub fn respond_not_found(res: &mut Res) -> (r: Result<(), RespondError>)
    requires
        old(res).wf(),
    ensures
        final(res).wf(),
        final(res).status_code == 404,
        final(res).status@ == "Not Found".spec_bytes(),
        r is Ok <==> !old(res).responded,
        match r {
            Ok(()) => final(res).responded && final(res).written@ == old(res).written@
                + spec_response(
                old(res).version@,
                404,
                "Not Found".spec_bytes(),
                old(res).headers.entries@,
                "Not Found".spec_bytes(),
            ),
            Err(RespondError::AlreadyResponded) => final(res).written == old(res).written
                && final(res).responded,
        },
{
    res.set_status(404, "Not Found");
    res.respond("Not Found".as_bytes())
}

/// Writes the fallback response after a handler that never responded:
/// status 500, body `Empty Response`. A response already written is left
/// alone.
pub fn respond_empty_fallback(res: &mut Res)
    requires
        old(res).wf(),
    ensures
        final(res).wf(),
        final(res).responded,
        old(res).responded ==> *final(res) == *old(res),
        !old(res).responded ==> final(res).status_code == 500 && final(res).written@ == old(
            res,
        ).written@ + spec_response(
            old(res).version@,
            500,
            "Empty Response".spec_bytes(),
            old(res).headers.entries@,
            "Empty Response".spec_bytes(),
        ),
{
    if !res.responded() {
        res.set_status(500, "Empty Response");
        let r = res.respond("Empty Response".as_bytes());
        proof {
            assert(r is Ok);
        }
    }
}

} // verus!
