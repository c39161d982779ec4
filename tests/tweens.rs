use tween_toy::plan::{Composition, Plan, Transform};
use tween_toy::templates::{grow_then_shrink, rotate_and_hide, select, template};
use tween_toy::tween::{lerp_exec, Channel, Ease, Progress, Repeat, Tween, TweenError, Vec3};

fn v(a: i32) -> Vec3 {
    Vec3 { x: a, y: a, z: a }
}

fn tween(d: u32, ease: Ease, repeat: Repeat, mirrored: bool) -> Tween {
    Tween::new(Channel::Scale, v(0), v(1000), d, ease, repeat, mirrored).unwrap()
}

#[test]
fn zero_duration_is_rejected() {
    let r = Tween::new(Channel::Scale, v(0), v(1), 0, Ease::Linear, Repeat::Once, false);
    assert_eq!(r, Err(TweenError::InvalidDuration));
}

#[test]
fn zero_cycles_are_rejected() {
    let r = Tween::new(Channel::Scale, v(0), v(1), 10, Ease::Linear, Repeat::Finite(0), false);
    assert_eq!(r, Err(TweenError::InvalidRepeatCount));
}

#[test]
fn once_saturates_at_full_progress() {
    let mut t = tween(1000, Ease::QuadraticInOut, Repeat::Once, false);
    assert!(!t.advance(400).is_complete());
    assert!(!t.advance(400).is_complete());
    let p = t.advance(400);
    assert!(p.is_complete());
    assert_eq!(p, Progress { num: 1_000_000, den: 1_000_000 });
    assert!(t.is_finished());
    assert_eq!(t.elapsed, 1000);
    let p = t.advance(5000);
    assert!(p.is_complete());
    assert_eq!(t.value(), v(1000));
}

#[test]
fn quadratic_in_out_values() {
    let mut t = tween(1000, Ease::QuadraticInOut, Repeat::Once, false);
    assert_eq!(t.advance(250), Progress { num: 125_000, den: 1_000_000 });
    assert_eq!(t.value(), v(125));
    assert_eq!(t.advance(500), Progress { num: 875_000, den: 1_000_000 });
    assert_eq!(t.value(), v(875));
}

#[test]
fn linear_values() {
    let mut t = tween(1000, Ease::Linear, Repeat::Once, false);
    assert_eq!(t.advance(250), Progress { num: 250_000, den: 1_000_000 });
    assert_eq!(t.value(), v(250));
}

#[test]
fn lerp_rounds_toward_start() {
    assert_eq!(lerp_exec(3000, 0, 980_000, 1_000_000), 60);
    assert_eq!(lerp_exec(0, 10, 1, 3), 3);
    assert_eq!(lerp_exec(10, 0, 1, 3), 7);
    assert_eq!(lerp_exec(-5, 5, 1, 2), 0);
}

#[test]
fn mirrored_infinite_is_symmetric() {
    let base = tween(1000, Ease::Linear, Repeat::Infinite, true);
    for t in [0u64, 1, 300, 999, 1000, 1001, 1700, 2000] {
        let mut a = base;
        let mut b = base;
        let pa = a.advance(t);
        let pb = b.advance(2000 - t);
        assert_eq!(pa, pb);
        assert!(!a.is_finished());
        assert!(!b.is_finished());
    }
    let mut c = base;
    assert_eq!(c.advance(1000), Progress { num: 1_000_000, den: 1_000_000 });
    assert!(!c.is_finished());
}

#[test]
fn large_step_wraps_without_skipping() {
    let base = tween(1000, Ease::Linear, Repeat::Infinite, true);
    let mut a = base;
    let mut b = base;
    a.advance(7300);
    for _ in 0..73 {
        b.advance(100);
    }
    assert_eq!(a, b);
    assert_eq!(a.elapsed, 1300);
    assert_eq!(a.progress(), Progress { num: 700_000, den: 1_000_000 });
}

#[test]
fn finite_repeat_finishes_after_its_cycles() {
    let mut t = tween(100, Ease::Linear, Repeat::Finite(3), false);
    t.advance(250);
    assert!(!t.is_finished());
    assert_eq!(t.progress(), Progress { num: 5_000, den: 10_000 });
    t.advance(50);
    assert!(t.is_finished());
    assert!(t.progress().is_complete());
    let mut m = tween(100, Ease::Linear, Repeat::Finite(2), true);
    m.advance(200);
    assert!(m.is_finished());
    assert_eq!(m.progress(), Progress { num: 0, den: 10_000 });
}

#[test]
fn sequence_completes_at_sum_of_durations() {
    let mut p = grow_then_shrink();
    assert!(!p.advance(1999));
    assert!(p.advance(1));
    let mut q = grow_then_shrink();
    assert!(q.advance(2000));
    let mut r = grow_then_shrink();
    assert!(r.advance(10_000));
}

#[test]
fn sequence_carries_time_across_members() {
    let mut a = grow_then_shrink();
    let mut b = grow_then_shrink();
    a.advance(1500);
    b.advance(700);
    b.advance(700);
    b.advance(100);
    assert_eq!(a.members, b.members);
    assert_eq!(a.members[0].elapsed, 1000);
    assert_eq!(a.members[1].elapsed, 500);
}

#[test]
fn parallel_members_run_independently() {
    let short = tween(1000, Ease::Linear, Repeat::Once, false);
    let long = Tween::new(Channel::Position, v(0), v(10), 2000, Ease::Linear, Repeat::Once, false).unwrap();
    let mut p = Plan::new(Composition::Parallel, vec![short, long]);
    assert!(!p.advance(1500));
    assert!(p.members[0].is_finished());
    assert_eq!(p.members[1].elapsed, 1500);
    assert!(p.advance(500));
    let endless = tween(1000, Ease::Linear, Repeat::Infinite, true);
    let mut q = Plan::new(Composition::Parallel, vec![short, endless]);
    assert!(!q.advance(1_000_000));
    assert!(q.members[0].is_finished());
}

#[test]
fn parallel_writes_each_channel() {
    let mut p = rotate_and_hide();
    p.advance(500);
    let start = Transform { translation: Vec3 { x: 7, y: 8, z: 0 }, rotation: v(0), scale: v(1000) };
    let t = p.apply(start);
    assert_eq!(t.translation, Vec3 { x: 7, y: 8, z: 0 });
    assert_eq!(t.rotation, Vec3 { x: 0, y: 0, z: 90_000 });
    assert_eq!(t.scale, v(500));
}

#[test]
fn sequence_writes_active_member() {
    let mut p = grow_then_shrink();
    let start = Transform { translation: v(0), rotation: v(0), scale: v(1000) };
    p.advance(1000);
    assert_eq!(p.apply(start).scale, v(3000));
    p.advance(500);
    assert_eq!(p.apply(start).scale, v(1500));
}

#[test]
fn templates_are_fresh_and_distinct() {
    let a = template(0);
    let b = template(1);
    assert_eq!(a.kind, Composition::Sequence);
    assert_eq!(b.kind, Composition::Parallel);
    assert_eq!(a.members.len(), 2);
    assert!(a.members.iter().all(|t| t.elapsed == 0));
    let s = select();
    assert!(s.members == a.members || s.members == b.members);
}

fn move_then_shrink() -> Plan {
    let step = Tween::new(Channel::Position, v(0), v(100), 1000, Ease::Linear, Repeat::Once, false).unwrap();
    let shrink = Tween::new(Channel::Scale, v(1000), v(0), 1000, Ease::Linear, Repeat::Once, false).unwrap();
    Plan::new(Composition::Sequence, vec![step, shrink])
}

#[test]
fn sequence_leaves_end_value_of_finished_member() {
    let start = Transform { translation: v(0), rotation: v(0), scale: v(1000) };
    let mut small = move_then_shrink();
    let mut cur = start;
    for _ in 0..15 {
        small.advance(100);
        cur = small.apply(cur);
    }
    assert_eq!(cur.translation, v(100));
    assert_eq!(cur.scale, v(500));
    let mut big = move_then_shrink();
    big.advance(1500);
    let once = big.apply(start);
    assert_eq!(once, cur);
}
