//! Two generations of one item that run at the same time and share the
//! key's lock: a model of the world they act on (the cached file, the
//! lock, the mux commands run), in which each step of either generation is
//! one `MaterializeJob::step`, and what holds however their steps
//! interleave.
use vstd::prelude::*;

use crate::transcode::{same_path, spec_step, stage, MaterializeAction, MaterializeEvent, MaterializeJob, MaterializeState};

verus! {

/// Two generations of one item and the world they act on: where each of
/// them stands, whether the cached file exists, which of them holds the
/// key's lock, and how many mux commands have run.
pub struct Contention {
    pub states: Seq<MaterializeState>,
    pub file: bool,
    pub holder: Option<int>,
    pub muxes: nat,
}

/// Both generations have just been started, no lock is held and the cached
/// file is missing.
pub open spec fn contention_start() -> Contention {
    Contention {
        states: seq![MaterializeState::CreatingDir, MaterializeState::CreatingDir],
        file: false,
        holder: None,
        muxes: 0,
    }
}

/// What a world in which every action succeeds reports to generation `who`
/// for the action it waits on: a check sees whether the cached file
/// exists, the lock is granted only while nobody holds it, and the process
/// id and time are any.
pub open spec fn succeeding_answer(c: Contention, who: int, event: MaterializeEvent) -> bool {
    match c.states[who] {
        MaterializeState::Checking => event == MaterializeEvent::Exists(c.file),
        MaterializeState::Rechecking => event == MaterializeEvent::Exists(c.file),
        MaterializeState::Locking => event is Done && c.holder is None,
        MaterializeState::Naming => event is Suffix,
        _ => event is Done,
    }
}

/// Generation `who` takes one step (`spec_step`) on the answer of the
/// world, which then changes by what was performed: a rename puts the
/// cached file in place, the lock goes to a generation that asked for it
/// and is given back when that generation ends, and a mux command is
/// counted.
pub open spec fn contention_step(
    job: MaterializeJob,
    c: Contention,
    who: int,
    event: MaterializeEvent,
    next: MaterializeState,
    action: MaterializeAction,
    d: Contention,
) -> bool {
    &&& 0 <= who < 2
    &&& c.states.len() == 2
    &&& succeeding_answer(c, who, event)
    &&& spec_step(job, c.states[who], event, next, action)
    &&& d.states == c.states.update(who, next)
    &&& d.file == (c.file || c.states[who] is Renaming)
    &&& d.holder == (if c.states[who] is Locking {
        Some(who)
    } else if next is Finished && c.holder == Some(who) {
        None
    } else {
        c.holder
    })
    &&& d.muxes == c.muxes + (if c.states[who] is Muxing { 1nat } else { 0nat })
}

/// One step of a run: who stepped, on which event, and what it led to.
pub struct ContentionStep {
    pub who: int,
    pub event: MaterializeEvent,
    pub next: MaterializeState,
    pub action: MaterializeAction,
}

/// `cs` are the worlds of a run from the start, `steps[i]` leading from
/// `cs[i]` to `cs[i + 1]`.
pub open spec fn contention_run(job: MaterializeJob, cs: Seq<Contention>, steps: Seq<ContentionStep>) -> bool {
    &&& cs.len() == steps.len() + 1
    &&& cs[0] == contention_start()
    &&& forall|i: int|
        0 <= i < steps.len() ==> contention_step(
            job,
            cs[i],
            (#[trigger] steps[i]).who,
            steps[i].event,
            steps[i].next,
            steps[i].action,
            cs[i + 1],
        )
}

/// From taking the lock to the end of the clean-up.
pub open spec fn under_lock(s: MaterializeState) -> bool {
    stage(MaterializeState::Rechecking) <= stage(s) <= stage(MaterializeState::CleaningUp(None))
}

/// What the world is while a generation stands at `s`.
pub open spec fn fits_world(c: Contention, s: MaterializeState) -> bool {
    match s {
        MaterializeState::Naming => !c.file && c.muxes == 0,
        MaterializeState::ExtractingCover(_) => !c.file && c.muxes == 0,
        MaterializeState::RenderingBlack(_) => !c.file && c.muxes == 0,
        MaterializeState::Muxing(_) => !c.file && c.muxes == 0,
        MaterializeState::Renaming(_) => !c.file && c.muxes == 1,
        MaterializeState::CleaningUp(e) => e is None && c.file,
        MaterializeState::Finished => c.file,
        _ => true,
    }
}

/// What every world of a run keeps.
pub open spec fn contention_inv(c: Contention) -> bool {
    &&& c.states.len() == 2
    &&& c.holder is None || c.holder == Some(0int) || c.holder == Some(1int)
    &&& forall|w: int| 0 <= w < 2 ==> (c.holder == Some(w) <==> under_lock(#[trigger] c.states[w]))
    &&& c.muxes <= 1
    &&& c.file ==> c.muxes == 1
    &&& !c.file && c.muxes == 1 ==> (c.states[0] is Renaming || c.states[1] is Renaming)
    &&& forall|w: int| 0 <= w < 2 ==> fits_world(c, #[trigger] c.states[w])
}

/// One step keeps the invariant; a generation that ends on it hands back
/// the cached path.
proof fn lemma_step_keeps_inv(
    job: MaterializeJob,
    c: Contention,
    who: int,
    event: MaterializeEvent,
    next: MaterializeState,
    action: MaterializeAction,
    d: Contention,
)
    requires
        contention_inv(c),
        contention_step(job, c, who, event, next, action, d),
    ensures
        contention_inv(d),
        action is Finish ==> (action matches MaterializeAction::Finish(Ok(p)) && same_path(p, job.output)),
{
    let other = 1 - who;
    let s = c.states[who];
    let o = c.states[other];
    assert(fits_world(c, s));
    assert(fits_world(c, o));
    assert(c.holder == Some(who) <==> under_lock(s));
    assert(c.holder == Some(other) <==> under_lock(o));
    assert(d.states[who] == next);
    assert(d.states[other] == o);
    if s is Rechecking && event == MaterializeEvent::Exists(false) {
        assert(c.muxes == 0) by {
            if c.muxes == 1 {
                assert(!(o is Renaming));
            }
        }
    }
    assert(fits_world(d, next));
    assert(fits_world(d, o));
    assert forall|w: int| 0 <= w < 2 implies (d.holder == Some(w) <==> under_lock(#[trigger] d.states[w])) by {
        if w == who {
            assert(d.states[w] == next);
        } else {
            assert(w == other);
        }
    }
    assert forall|w: int| 0 <= w < 2 implies fits_world(d, #[trigger] d.states[w]) by {
        if w == who {
            assert(d.states[w] == next);
        } else {
            assert(w == other);
        }
    }
}

/// Every world of a run up to step `n` keeps the invariant, and every
/// generation that ended within those steps handed back the cached path.
proof fn lemma_run_keeps_inv(job: MaterializeJob, cs: Seq<Contention>, steps: Seq<ContentionStep>, n: int)
    requires
        contention_run(job, cs, steps),
        0 <= n <= steps.len(),
    ensures
        contention_inv(cs[n]),
        forall|j: int|
            0 <= j < n && (#[trigger] steps[j]).action is Finish ==> (steps[j].action matches MaterializeAction::Finish(
                Ok(p),
            ) && same_path(p, job.output)),
    decreases n,
{
    if n == 0 {
        assert(contention_inv(cs[0])) by {
            let c = cs[0];
            assert forall|w: int| 0 <= w < 2 implies fits_world(c, #[trigger] c.states[w]) by {
                assert(c.states[w] is CreatingDir);
            }
            assert forall|w: int| 0 <= w < 2 implies (c.holder == Some(w) <==> under_lock(#[trigger] c.states[w])) by {
                assert(c.states[w] is CreatingDir);
            }
        }
    } else {
        lemma_run_keeps_inv(job, cs, steps, n - 1);
        let st = steps[n - 1];
        lemma_step_keeps_inv(job, cs[n - 1], st.who, st.event, st.next, st.action, cs[n]);
    }
}

/// Two generations of one item that share the key's lock, in a world where
/// every action succeeds and the cached file is missing at first, however
/// their steps interleave: the mux command runs at most once, every
/// generation that ends hands back the path of the cached file, and once
/// both have ended the mux command has run exactly once.
pub proof fn lemma_two_generations_mux_once(job: MaterializeJob, cs: Seq<Contention>, steps: Seq<ContentionStep>)
    requires
        contention_run(job, cs, steps),
    ensures
        forall|i: int| 0 <= i < cs.len() ==> (#[trigger] cs[i]).muxes <= 1,
        forall|i: int|
            0 <= i < steps.len() && (#[trigger] steps[i]).action is Finish ==> (steps[i].action matches MaterializeAction::Finish(
                Ok(p),
            ) && same_path(p, job.output)),
        cs.last().states[0] is Finished && cs.last().states[1] is Finished ==> cs.last().muxes == 1,
{
    lemma_run_keeps_inv(job, cs, steps, steps.len() as int);
    assert forall|i: int| 0 <= i < cs.len() implies (#[trigger] cs[i]).muxes <= 1 by {
        lemma_run_keeps_inv(job, cs, steps, i);
    }
    let l = cs.last();
    if l.states[0] is Finished && l.states[1] is Finished {
        assert(fits_world(l, l.states[0]));
    }
}

} // verus!
