//! The speech engine handle: the single shared, possibly-failed session
//! behind which every connection's commands funnel.
//!
//! The session is constructed once at startup and the outcome is terminal:
//! `Ready` or `Failed`, never retried (sticky failure). A failed handle
//! turns every command into a silent no-op. A ready handle turns each
//! protocol line into the ordered engine operations it calls for and
//! records them in a ghost log — the model of everything submitted to the
//! engine so far. The caller must hold the handle exclusively (the one
//! shared handle sits behind a mutual-exclusion lock) while it submits a
//! line and performs the returned operations, so the log also mirrors the
//! order in which operations reach the engine: one submission's operations
//! form one contiguous run.

use vstd::prelude::*;

use crate::dispatch::dispatch_command;
use crate::dispatch::ops_for_command;
use crate::dispatch::ops_view;
use crate::dispatch::EngineOp;
use crate::dispatch::EngineOpView;
use crate::dispatch::SpeakConfig;
use crate::protocol::parse_line;
use crate::protocol::strip_terminators;

verus! {

/// Whether the one attempt to create the engine session succeeded. The
/// state is resolved once at startup and never changes afterwards.
#[derive(Clone, Copy, PartialEq, Eq, Structural, Debug)]
pub enum EngineStatus {
    Ready,
    Failed,
}

/// The mathematical state of the engine handle: whether the session
/// failed, and the ordered operations submitted to the engine so far.
pub struct HandleView {
    pub failed: bool,
    pub log: Seq<EngineOpView>,
}

/// The engine operations one raw protocol line calls for: none for a line
/// that is only terminators, else those of its command.
pub open spec fn ops_for_line(line: Seq<char>, cfg: SpeakConfig) -> Seq<EngineOpView> {
    let body = strip_terminators(line);
    if body.len() == 0 {
        Seq::<EngineOpView>::empty()
    } else {
        ops_for_command(body[0], body.skip(1), cfg)
    }
}

/// One step of the handle: a failed session ignores the line; a ready one
/// appends the line's operations to the log.
pub open spec fn line_step(h: HandleView, line: Seq<char>, cfg: SpeakConfig) -> HandleView {
    if h.failed {
        h
    } else {
        HandleView { failed: false, log: h.log + ops_for_line(line, cfg) }
    }
}

/// The handle after a whole sequence of lines, submitted in order.
pub open spec fn run_lines(h: HandleView, lines: Seq<Seq<char>>, cfg: SpeakConfig) -> HandleView
    decreases lines.len(),
{
    if lines.len() == 0 {
        h
    } else {
        run_lines(line_step(h, lines[0], cfg), lines.skip(1), cfg)
    }
}

/// The single shared handle on the speech engine session.
pub struct EngineHandle {
    status: EngineStatus,
    log: Ghost<Seq<EngineOpView>>,
}

impl View for EngineHandle {
    type V = HandleView;

    closed spec fn view(&self) -> HandleView {
        HandleView { failed: self.status == EngineStatus::Failed, log: self.log@ }
    }
}

impl EngineHandle {
    /// Wraps the outcome of the one startup attempt to create the engine
    /// session; `init_ok` is false when that attempt failed.
    pub fn new(init_ok: bool) -> (h: Self)
        ensures
            h@.failed == !init_ok,
            h@.log == Seq::<EngineOpView>::empty(),
    {
        EngineHandle {
            status: if init_ok {
                EngineStatus::Ready
            } else {
                EngineStatus::Failed
            },
            log: Ghost(Seq::<EngineOpView>::empty()),
        }
    }

    /// The resolved session state.
    pub fn status(&self) -> (s: EngineStatus)
        ensures
            (s == EngineStatus::Failed) == self@.failed,
    {
        self.status
    }

    /// Feeds one raw protocol line to the handle and returns the engine
    /// operations to perform, in order — none when the session failed to
    /// initialize. The caller performs them on the session while it still
    /// holds this handle exclusively, so that one line's operations reach
    /// the engine as one contiguous run.
    pub fn submit_line(&mut self, line: &[char], cfg: SpeakConfig) -> (ops: Vec<EngineOp>)
        ensures
            final(self)@ == line_step(old(self)@, line@, cfg),
            ops_view(ops@) == if old(self)@.failed {
                Seq::<EngineOpView>::empty()
            } else {
                ops_for_line(line@, cfg)
            },
    {
        match self.status {
            EngineStatus::Failed => {
                let ops: Vec<EngineOp> = Vec::new();
                proof {
                    assert(ops_view(ops@) =~= Seq::<EngineOpView>::empty());
                }
                ops
            },
            EngineStatus::Ready => {
                let ops: Vec<EngineOp> = match parse_line(line) {
                    None => {
                        let empty_ops: Vec<EngineOp> = Vec::new();
                        proof {
                            assert(ops_view(empty_ops@) =~= Seq::<EngineOpView>::empty());
                        }
                        empty_ops
                    },
                    Some(cmd) => dispatch_command(cmd.code, cmd.arg.as_slice(), cfg),
                };
                self.log = Ghost(self.log@ + ops_view(ops@));
                ops
            },
        }
    }
}

/// Law: operations from two submissions to a ready handle never
/// interleave: the log afterwards is the old log, then the first line's
/// operations as one contiguous ordered run, then the second line's as
/// another.
pub proof fn lemma_runs_contiguous(h: HandleView, a: Seq<char>, b: Seq<char>, cfg: SpeakConfig)
    requires
        !h.failed,
    ensures
        ({
            let opsa = ops_for_line(a, cfg);
            let opsb = ops_for_line(b, cfg);
            let h2 = line_step(line_step(h, a, cfg), b, cfg);
            &&& h2.log == h.log + opsa + opsb
            &&& h2.log.subrange(h.log.len() as int, (h.log.len() + opsa.len()) as int) == opsa
            &&& h2.log.subrange((h.log.len() + opsa.len()) as int, h2.log.len() as int) == opsb
        }),
{
    let opsa = ops_for_line(a, cfg);
    let opsb = ops_for_line(b, cfg);
    let h2 = line_step(line_step(h, a, cfg), b, cfg);
    assert(h2.log.subrange(h.log.len() as int, (h.log.len() + opsa.len()) as int) =~= opsa);
    assert(h2.log.subrange((h.log.len() + opsa.len()) as int, h2.log.len() as int) =~= opsb);
}

/// The operations of a whole sequence of lines, one line's run after
/// another, in submission order.
pub open spec fn ops_for_lines(lines: Seq<Seq<char>>, cfg: SpeakConfig) -> Seq<EngineOpView>
    decreases lines.len(),
{
    if lines.len() == 0 {
        Seq::<EngineOpView>::empty()
    } else {
        ops_for_line(lines[0], cfg) + ops_for_lines(lines.skip(1), cfg)
    }
}

/// Law: however many lines a ready handle takes, its log is the old log
/// followed by each line's operations as consecutive contiguous runs in
/// submission order, and the handle stays ready.
pub proof fn lemma_lines_run_in_order(h: HandleView, lines: Seq<Seq<char>>, cfg: SpeakConfig)
    requires
        !h.failed,
    ensures
        run_lines(h, lines, cfg).log == h.log + ops_for_lines(lines, cfg),
        !run_lines(h, lines, cfg).failed,
    decreases lines.len(),
{
    if lines.len() == 0 {
        assert(h.log + ops_for_lines(lines, cfg) =~= h.log);
    } else {
        let h1 = line_step(h, lines[0], cfg);
        lemma_lines_run_in_order(h1, lines.skip(1), cfg);
        assert((h.log + ops_for_line(lines[0], cfg)) + ops_for_lines(lines.skip(1), cfg) =~= h.log
            + (ops_for_line(lines[0], cfg) + ops_for_lines(lines.skip(1), cfg)));
    }
}

/// Law: a failed initialization is sticky and silent: any sequence of
/// lines leaves a failed handle exactly as it was, so no operation ever
/// reaches the engine.
pub proof fn lemma_failed_session_silent(h: HandleView, lines: Seq<Seq<char>>, cfg: SpeakConfig)
    requires
        h.failed,
    ensures
        run_lines(h, lines, cfg) == h,
    decreases lines.len(),
{
    if lines.len() > 0 {
        lemma_failed_session_silent(h, lines.skip(1), cfg);
    }
}

/// Law: the session state is terminal: submitting a line never changes it.
pub proof fn lemma_status_sticky(h: HandleView, line: Seq<char>, cfg: SpeakConfig)
    ensures
        line_step(h, line, cfg).failed == h.failed,
{
}

} // verus!
