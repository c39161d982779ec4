use vstd::prelude::*;
use crate::plan::{Composition, Plan, PlanView};
use crate::random::random_below;
use crate::tween::{Channel, Ease, Repeat, Tween, Vec3};

verus! {

/// Number of plan templates the selector chooses from.
pub const TEMPLATE_COUNT: usize = 2;

/// Length of each step of the one-shot templates, in milliseconds.
pub const STEP_MS: u32 = 1000;

/// How far a decorative entity drifts along `y`, in pixels.
pub const DRIFT: i32 = 10;

/// Length of one drift of a decorative entity, in milliseconds.
pub const DRIFT_MS: u32 = 1500;

pub open spec fn uniform(v: i32) -> Vec3 {
    Vec3 { x: v, y: v, z: v }
}

/// A tween that has not run yet, runs once and eases in and out.
pub open spec fn one_shot(channel: Channel, start: Vec3, end: Vec3) -> Tween {
    Tween {
        channel,
        start,
        end,
        duration: STEP_MS,
        ease: Ease::QuadraticInOut,
        repeat: Repeat::Once,
        mirrored: false,
        elapsed: 0,
    }
}

/// Scale up from 1 to 3, then down to nothing.
pub open spec fn grow_then_shrink_spec() -> PlanView {
    PlanView {
        kind: Composition::Sequence,
        members: seq![
            one_shot(Channel::Scale, uniform(1000), uniform(3000)),
            one_shot(Channel::Scale, uniform(3000), uniform(0)),
        ],
    }
}

/// A half turn about `z` while shrinking from 1 to nothing.
pub open spec fn rotate_and_hide_spec() -> PlanView {
    PlanView {
        kind: Composition::Parallel,
        members: seq![
            one_shot(Channel::Rotation, uniform(0), Vec3 { x: 0, y: 0, z: 180_000 }),
            one_shot(Channel::Scale, uniform(1000), uniform(0)),
        ],
    }
}

pub open spec fn template_spec(k: nat) -> PlanView {
    if k == 0 {
        grow_then_shrink_spec()
    } else {
        rotate_and_hide_spec()
    }
}

/// An endless back-and-forth drift from `(x, y)` up by `DRIFT` pixels.
pub open spec fn drift_spec(x: i32, y: i32) -> PlanView {
    PlanView {
        kind: Composition::Parallel,
        members: seq![
            Tween {
                channel: Channel::Position,
                start: Vec3 { x, y, z: 0 },
                end: Vec3 { x, y: (y + DRIFT) as i32, z: 0 },
                duration: DRIFT_MS,
                ease: Ease::Linear,
                repeat: Repeat::Infinite,
                mirrored: true,
                elapsed: 0,
            },
        ],
    }
}

fn one_shot_exec(channel: Channel, start: Vec3, end: Vec3) -> (r: Tween)
    ensures
        r == one_shot(channel, start, end),
        r.wf(),
{
    Tween {
        channel,
        start,
        end,
        duration: STEP_MS,
        ease: Ease::QuadraticInOut,
        repeat: Repeat::Once,
        mirrored: false,
        elapsed: 0,
    }
}

fn uniform_exec(v: i32) -> (r: Vec3)
    ensures
        r == uniform(v),
{
    Vec3 { x: v, y: v, z: v }
}

pub fn grow_then_shrink() -> (r: Plan)
    ensures
        r@ == grow_then_shrink_spec(),
        r.wf(),
{
    let up = one_shot_exec(Channel::Scale, uniform_exec(1000), uniform_exec(3000));
    let down = one_shot_exec(Channel::Scale, uniform_exec(3000), uniform_exec(0));
    let members = vec![up, down];
    assert(members@ =~= grow_then_shrink_spec().members);
    Plan::new(Composition::Sequence, members)
}

pub fn rotate_and_hide() -> (r: Plan)
    ensures
        r@ == rotate_and_hide_spec(),
        r.wf(),
{
    let turn = one_shot_exec(Channel::Rotation, uniform_exec(0), Vec3 { x: 0, y: 0, z: 180_000 });
    let hide = one_shot_exec(Channel::Scale, uniform_exec(1000), uniform_exec(0));
    let members = vec![turn, hide];
    assert(members@ =~= rotate_and_hide_spec().members);
    Plan::new(Composition::Parallel, members)
}

/// A fresh copy of template `k`; each call builds its own plan, so no state
/// is shared between entities.
pub fn template(k: usize) -> (r: Plan)
    requires
        k < TEMPLATE_COUNT,
    ensures
        r@ == template_spec(k as nat),
        r.wf(),
{
    if k == 0 {
        grow_then_shrink()
    } else {
        rotate_and_hide()
    }
}

/// A fresh plan drawn uniformly from the templates.
pub fn select() -> (r: Plan)
    ensures
        exists|k: nat| k < TEMPLATE_COUNT && r@ == template_spec(k),
        r.wf(),
{
    let k = random_below(TEMPLATE_COUNT);
    template(k)
}

pub fn drift(x: i32, y: i32) -> (r: Plan)
    requires
        y + DRIFT <= i32::MAX,
    ensures
        r@ == drift_spec(x, y),
        r.wf(),
{
    let t = Tween {
        channel: Channel::Position,
        start: Vec3 { x, y, z: 0 },
        end: Vec3 { x, y: y + DRIFT, z: 0 },
        duration: DRIFT_MS,
        ease: Ease::Linear,
        repeat: Repeat::Infinite,
        mirrored: true,
        elapsed: 0,
    };
    let members = vec![t];
    assert(members@ =~= drift_spec(x, y).members);
    Plan::new(Composition::Parallel, members)
}

} // verus!
