//! How the work is divided and how long it goes on.

use vstd::prelude::*;

verus! {

/// After this many failed attempts to connect, each further one is reported.
pub const QUIET_ATTEMPTS: i32 = 5;

/// The number of workers: as many as asked for, or else as many as the machine can run
/// at once, where that is known.
pub open spec fn planned_workers(asked: usize, available: Option<usize>) -> usize {
    if asked > 0 {
        asked
    } else {
        match available {
            Some(n) => n,
            None => 1,
        }
    }
}

/// The number of workers.
pub fn worker_count(asked: usize, available: Option<usize>) -> (workers: usize)
    ensures
        workers == planned_workers(asked, available),
{
    if asked > 0 {
        asked
    } else {
        match available {
            Some(n) => n,
            None => 1,
        }
    }
}

/// The number of connections of the worker `worker`: an equal share, and one of those
/// that are left over.
pub open spec fn planned_connections(connections: int, workers: int, worker: int) -> int {
    connections / workers + if worker < connections % workers {
        1int
    } else {
        0int
    }
}

/// The number of connections of the worker `worker`.
pub fn worker_connections(connections: usize, workers: usize, worker: usize) -> (share: usize)
    requires
        workers > 0,
    ensures
        share == planned_connections(connections as int, workers as int, worker as int),
{
    let each: usize = connections / workers;
    let left_over: usize = connections % workers;
    if worker < left_over {
        proof {
            lemma_share_fits(connections as int, workers as int);
        }
        each + 1
    } else {
        each
    }
}

/// An equal share is smaller than the whole where something is left over.
proof fn lemma_share_fits(connections: int, workers: int)
    requires
        connections >= 0,
        workers > 0,
        connections % workers > 0,
    ensures
        connections / workers + 1 <= connections,
{
    vstd::arithmetic::div_mod::lemma_fundamental_div_mod(connections, workers);
    let each = connections / workers;
    assert(each >= 0) by {
        vstd::arithmetic::div_mod::lemma_div_pos_is_pos(connections, workers);
    }
    assert(workers * each >= each) by (nonlinear_arith)
        requires
            workers > 0,
            each >= 0,
    ;
}

/// The number of connections of the first `count` workers.
pub open spec fn connections_of_first(connections: int, workers: int, count: int) -> int
    decreases count,
{
    if count <= 0 {
        0
    } else {
        connections_of_first(connections, workers, count - 1) + planned_connections(
            connections,
            workers,
            count - 1,
        )
    }
}

/// The workers together have all the connections, and no worker has more than one more
/// than another.
pub proof fn law_connections_are_shared_out(connections: int, workers: int, one: int, other: int)
    requires
        connections >= 0,
        workers > 0,
    ensures
        connections_of_first(connections, workers, workers) == connections,
        planned_connections(connections, workers, one) <= planned_connections(
            connections,
            workers,
            other,
        ) + 1,
{
    lemma_first_shares(connections, workers, workers);
    vstd::arithmetic::div_mod::lemma_fundamental_div_mod(connections, workers);
    vstd::arithmetic::div_mod::lemma_mod_bound(connections, workers);
    let each = connections / workers;
    assert(workers * each == each * workers) by (nonlinear_arith);
}

/// The first workers have an equal share each, and one more while some are left over.
proof fn lemma_first_shares(connections: int, workers: int, count: int)
    requires
        connections >= 0,
        workers > 0,
        0 <= count,
    ensures
        connections_of_first(connections, workers, count) == (connections / workers) * count + if count
            < connections % workers {
            count
        } else {
            connections % workers
        },
    decreases count,
{
    let each = connections / workers;
    vstd::arithmetic::div_mod::lemma_mod_bound(connections, workers);
    if count > 0 {
        lemma_first_shares(connections, workers, count - 1);
        assert(each * count == each * (count - 1) + each) by (nonlinear_arith);
    } else {
        assert(each * 0 == 0) by (nonlinear_arith);
    }
}

/// The first workers get what is left over.
pub proof fn law_first_workers_get_more(connections: int, workers: int, one: int, other: int)
    requires
        connections >= 0,
        workers > 0,
        one <= other,
    ensures
        planned_connections(connections, workers, one) >= planned_connections(
            connections,
            workers,
            other,
        ),
{
}

/// A number of workers that is asked for is the number of workers; zero stands for as many
/// as the machine can run at once, and for one where that is not known.
pub proof fn law_workers_as_asked(asked: usize, available: usize)
    ensures
        planned_workers(asked, Some(available)) == if asked == 0 {
            available
        } else {
            asked
        },
        planned_workers(asked, None) == if asked == 0 {
            1
        } else {
            asked
        },
{
}

/// Whether a failed attempt is reported, after so many of them.
pub open spec fn is_reported(attempts: int) -> bool {
    attempts > QUIET_ATTEMPTS
}

/// The first five failed attempts are not reported, and every further one is.
pub proof fn law_five_attempts_are_quiet(attempts: int)
    ensures
        is_reported(attempts) <==> attempts >= 6,
{
}

/// Notes that an attempt to connect failed, and tells whether to report it.
pub fn note_failed_attempt(attempts: &mut i32) -> (report: bool)
    requires
        *old(attempts) < i32::MAX,
    ensures
        *final(attempts) == *old(attempts) + 1,
        report == (*final(attempts) > QUIET_ATTEMPTS),
        report == is_reported(*final(attempts) as int),
{
    *attempts += 1;
    *attempts > QUIET_ATTEMPTS
}

/// What becomes of a phase of the benchmark.
#[derive(Clone, Copy, Debug, PartialEq, Eq, Structural)]
pub enum Phase {
    /// It goes on.
    Running,
    /// It has taken its time.
    Over,
    /// It was interrupted before that.
    Interrupted,
}

/// What becomes of a phase.
pub open spec fn phase_at(elapsed: int, duration: int, running: bool) -> Phase {
    if elapsed >= duration {
        Phase::Over
    } else if running {
        Phase::Running
    } else {
        Phase::Interrupted
    }
}

/// A phase goes on for its time and not longer, unless it is interrupted; once its time is
/// over it can no longer be interrupted, and it stays over.
pub proof fn law_phase_lasts_its_time(elapsed: int, later: int, duration: int, running: bool)
    requires
        elapsed <= later,
    ensures
        phase_at(elapsed, duration, true) == Phase::Running <==> elapsed < duration,
        phase_at(elapsed, duration, false) == Phase::Interrupted <==> elapsed < duration,
        phase_at(elapsed, duration, running) == Phase::Over ==> phase_at(later, duration, running)
            == Phase::Over,
        phase_at(duration, duration, running) == Phase::Over,
        phase_at(duration - 1, duration, running) != Phase::Over,
{
}

/// What becomes of a phase of `duration` seconds after `elapsed` whole seconds: it ends
/// with its time, and before that where the benchmark is no longer to run.
pub fn phase_after(elapsed: u64, duration: u64, running: bool) -> (phase: Phase)
    ensures
        phase == Phase::Over <==> elapsed >= duration,
        phase == Phase::Interrupted <==> elapsed < duration && !running,
        phase == phase_at(elapsed as int, duration as int, running),
{
    if elapsed >= duration {
        Phase::Over
    } else if !running {
        Phase::Interrupted
    } else {
        Phase::Running
    }
}

} // verus!
