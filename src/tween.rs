use vstd::prelude::*;
use vstd::arithmetic::div_mod::{
    lemma_add_mod_noop, lemma_div_is_ordered, lemma_div_multiples_vanish, lemma_fundamental_div_mod,
    lemma_mod_bound, lemma_small_mod,
};

verus! {

/// A three-component value in fixed point: positions in pixels, rotations in
/// thousandths of a degree, scales in thousandths (1000 is the natural size).
#[derive(Clone, Copy, Debug, PartialEq, Eq, Structural)]
pub struct Vec3 {
    pub x: i32,
    pub y: i32,
    pub z: i32,
}

/// The transform channel a tween writes.
#[derive(Clone, Copy, Debug, PartialEq, Eq, Structural)]
pub enum Channel {
    Position,
    Rotation,
    Scale,
}

/// Easing curve from normalized time to normalized progress.
#[derive(Clone, Copy, Debug, PartialEq, Eq, Structural)]
pub enum Ease {
    Linear,
    QuadraticInOut,
}

/// How many cycles a tween runs.
#[derive(Clone, Copy, Debug, PartialEq, Eq, Structural)]
pub enum Repeat {
    Once,
    Finite(u32),
    Infinite,
}

#[derive(Clone, Copy, Debug, PartialEq, Eq, Structural)]
pub enum TweenError {
    /// The duration is zero.
    InvalidDuration,
    /// A finite repeat count of zero cycles.
    InvalidRepeatCount,
}

/// An exact progress value `num / den` in `[0, 1]`.
#[derive(Clone, Copy, Debug, PartialEq, Eq, Structural)]
pub struct Progress {
    pub num: u64,
    pub den: u64,
}

impl Progress {
    pub open spec fn is_full(self) -> bool {
        self.num == self.den
    }

    pub fn is_complete(&self) -> (r: bool)
        ensures
            r == self.is_full(),
    {
        self.num == self.den
    }
}

/// Eased progress of position `p` in a cycle of length `d`, over the denominator `d * d`.
pub open spec fn ease_num(ease: Ease, p: int, d: int) -> int {
    match ease {
        Ease::Linear => p * d,
        Ease::QuadraticInOut => if 2 * p < d {
            2 * p * p
        } else {
            d * d - 2 * (d - p) * (d - p)
        },
    }
}

/// Interpolation from `s` toward `e` by `num / den`, rounded toward `s`.
pub open spec fn lerp(s: int, e: int, num: int, den: int) -> int {
    if s <= e {
        s + (e - s) * num / den
    } else {
        s - (s - e) * num / den
    }
}

/// One interpolation of one channel from `start` to `end`. `elapsed` is the
/// time in milliseconds already run, reduced as the repeat policy says: held
/// at the end for a bounded tween, wrapped by the period for an endless one.
#[derive(Clone, Copy, Debug, PartialEq, Eq, Structural)]
pub struct Tween {
    pub channel: Channel,
    pub start: Vec3,
    pub end: Vec3,
    pub duration: u32,
    pub ease: Ease,
    pub repeat: Repeat,
    pub mirrored: bool,
    pub elapsed: u64,
}

impl Tween {
    pub open spec fn bounded(self) -> bool {
        !(self.repeat is Infinite)
    }

    pub open spec fn cycles(self) -> nat {
        match self.repeat {
            Repeat::Once => 1,
            Repeat::Finite(n) => n as nat,
            Repeat::Infinite => 0,
        }
    }

    /// Total running time of a bounded tween.
    pub open spec fn total(self) -> nat {
        self.cycles() * (self.duration as nat)
    }

    /// Length after which an endless tween is back where it began.
    pub open spec fn period(self) -> nat {
        if self.mirrored {
            2 * (self.duration as nat)
        } else {
            self.duration as nat
        }
    }

    pub open spec fn wf(self) -> bool {
        &&& self.duration > 0
        &&& (self.repeat matches Repeat::Finite(n) ==> n > 0)
        &&& if self.bounded() {
            self.elapsed <= self.total()
        } else {
            self.elapsed < self.period()
        }
    }

    /// The stored time that stands for a running time of `t`.
    pub open spec fn reduce(self, t: nat) -> nat {
        if self.bounded() {
            if t <= self.total() {
                t
            } else {
                self.total()
            }
        } else {
            t % self.period()
        }
    }

    /// This tween after `dt` more milliseconds.
    pub open spec fn after(self, dt: nat) -> Tween {
        Tween { elapsed: self.reduce((self.elapsed + dt) as nat) as u64, ..self }
    }

    /// The part of `dt` that a bounded tween does not need to reach its end.
    pub open spec fn leftover(self, dt: nat) -> nat {
        if self.bounded() && self.elapsed + dt > self.total() {
            (self.elapsed + dt - self.total()) as nat
        } else {
            0
        }
    }

    pub open spec fn finished(self) -> bool {
        self.bounded() && self.elapsed == self.total()
    }

    /// Position in the current cycle, in `[0, duration]`, mirrored on odd cycles.
    pub open spec fn position(self) -> int {
        let d = self.duration as int;
        let t = self.elapsed as int;
        if self.mirrored {
            if (t / d) % 2 == 0 {
                t % d
            } else {
                d - t % d
            }
        } else if self.finished() {
            d
        } else {
            t % d
        }
    }

    pub open spec fn progress_spec(self) -> Progress {
        Progress {
            num: ease_num(self.ease, self.position(), self.duration as int) as u64,
            den: (self.duration * self.duration) as u64,
        }
    }

    /// This tween, started afresh, after running `t` milliseconds.
    pub open spec fn at(self, t: nat) -> Tween {
        Tween { elapsed: self.reduce(t) as u64, ..self }
    }

    pub open spec fn value_spec(self) -> Vec3 {
        let p = self.progress_spec();
        Vec3 {
            x: lerp(self.start.x as int, self.end.x as int, p.num as int, p.den as int) as i32,
            y: lerp(self.start.y as int, self.end.y as int, p.num as int, p.den as int) as i32,
            z: lerp(self.start.z as int, self.end.z as int, p.num as int, p.den as int) as i32,
        }
    }

    /// A tween that has not run yet; fails on a zero duration or zero cycles.
    pub fn new(channel: Channel, start: Vec3, end: Vec3, duration: u32, ease: Ease, repeat: Repeat, mirrored: bool) -> (r: Result<Tween, TweenError>)
        ensures
            duration == 0 ==> r == Err::<Tween, TweenError>(TweenError::InvalidDuration),
            duration > 0 && repeat == Repeat::Finite(0) ==> r == Err::<Tween, TweenError>(TweenError::InvalidRepeatCount),
            duration > 0 && repeat != Repeat::Finite(0) ==> r == Ok::<Tween, TweenError>(Tween { channel, start, end, duration, ease, repeat, mirrored, elapsed: 0 }),
            r matches Ok(t) ==> t.wf(),
    {
        if duration == 0 {
            return Err(TweenError::InvalidDuration);
        }
        if let Repeat::Finite(n) = repeat {
            if n == 0 {
                return Err(TweenError::InvalidRepeatCount);
            }
        }
        Ok(Tween { channel, start, end, duration, ease, repeat, mirrored, elapsed: 0 })
    }

    pub fn total_exec(&self) -> (r: u64)
        requires
            self.wf(),
            self.bounded(),
        ensures
            r == self.total(),
    {
        let n: u64 = match self.repeat {
            Repeat::Once => 1,
            Repeat::Finite(n) => n as u64,
            Repeat::Infinite => 0,
        };
        assert(n * (self.duration as u64) <= 0xffff_ffff * 0xffff_ffff) by (nonlinear_arith)
            requires n <= 0xffff_ffff, self.duration <= 0xffff_ffff;
        n * (self.duration as u64)
    }

    pub fn is_finished(&self) -> (r: bool)
        requires
            self.wf(),
        ensures
            r == self.finished(),
    {
        match self.repeat {
            Repeat::Infinite => false,
            _ => self.elapsed == self.total_exec(),
        }
    }

    pub fn leftover_exec(&self, dt: u64) -> (r: u64)
        requires
            self.wf(),
        ensures
            r == self.leftover(dt as nat),
    {
        match self.repeat {
            Repeat::Infinite => 0,
            _ => {
                let rest = self.total_exec() - self.elapsed;
                if dt > rest {
                    dt - rest
                } else {
                    0
                }
            },
        }
    }

    /// Runs the tween for `dt` more milliseconds and returns its progress.
    pub fn advance(&mut self, dt: u64) -> (r: Progress)
        requires
            old(self).wf(),
        ensures
            *final(self) == old(self).after(dt as nat),
            final(self).wf(),
            r == final(self).progress_spec(),
    {
        match self.repeat {
            Repeat::Infinite => {
                let p: u64 = if self.mirrored {
                    2 * (self.duration as u64)
                } else {
                    self.duration as u64
                };
                proof {
                    lemma_add_mod_noop(self.elapsed as int, dt as int, p as int);
                    assert(self.elapsed as int % p as int == self.elapsed as int) by {
                        lemma_small_mod(self.elapsed as nat, p as nat);
                    }
                }
                self.elapsed = (self.elapsed + dt % p) % p;
            },
            _ => {
                let total = self.total_exec();
                if dt >= total - self.elapsed {
                    self.elapsed = total;
                } else {
                    self.elapsed = self.elapsed + dt;
                }
            },
        }
        self.progress()
    }

    pub fn position_exec(&self) -> (r: u64)
        requires
            self.wf(),
        ensures
            r == self.position(),
            r <= self.duration,
    {
        let d = self.duration as u64;
        if self.mirrored {
            let c = self.elapsed / d;
            let m = self.elapsed % d;
            if c % 2 == 0 {
                m
            } else {
                d - m
            }
        } else if self.is_finished() {
            d
        } else {
            self.elapsed % d
        }
    }

    /// Current eased progress, over the denominator `duration * duration`.
    pub fn progress(&self) -> (r: Progress)
        requires
            self.wf(),
        ensures
            r == self.progress_spec(),
            r.num <= r.den,
            r.den > 0,
    {
        let d = self.duration as u64;
        let p = self.position_exec();
        assert(d * d <= 0xffff_ffff * 0xffff_ffff && d * d > 0) by (nonlinear_arith)
            requires d <= 0xffff_ffff, d > 0;
        let dd = d * d;
        let num = match self.ease {
            Ease::Linear => {
                assert(p * d <= d * d) by (nonlinear_arith) requires p <= d;
                p * d
            },
            Ease::QuadraticInOut => {
                if 2 * p < d {
                    assert(2 * p * p <= d * d) by (nonlinear_arith) requires 2 * p < d;
                    2 * p * p
                } else {
                    let q = d - p;
                    assert(2 * q * q <= d * d) by (nonlinear_arith) requires 2 * q <= d;
                    dd - 2 * q * q
                }
            },
        };
        Progress { num, den: dd }
    }

    /// Current value of the tween's channel.
    pub fn value(&self) -> (r: Vec3)
        requires
            self.wf(),
        ensures
            r == self.value_spec(),
    {
        let p = self.progress();
        Vec3 {
            x: lerp_exec(self.start.x, self.end.x, p.num, p.den),
            y: lerp_exec(self.start.y, self.end.y, p.num, p.den),
            z: lerp_exec(self.start.z, self.end.z, p.num, p.den),
        }
    }
}

proof fn lemma_scaled_le(a: nat, num: nat, den: nat)
    requires
        num <= den,
        den > 0,
    ensures
        a * num / den <= a,
{
    assert(a * num <= a * den) by (nonlinear_arith) requires num <= den;
    lemma_div_is_ordered((a * num) as int, (a * den) as int, den as int);
    assert(a * den == den * a) by (nonlinear_arith);
    lemma_div_multiples_vanish(a as int, den as int);
}

pub fn lerp_exec(s: i32, e: i32, num: u64, den: u64) -> (r: i32)
    requires
        num <= den,
        den > 0,
    ensures
        r == lerp(s as int, e as int, num as int, den as int),
{
    if s <= e {
        let diff = (e as i64 - s as i64) as u128;
        assert(diff * (num as u128) <= 0x1_0000_0000 * 0xffff_ffff_ffff_ffff) by (nonlinear_arith)
            requires diff <= 0x1_0000_0000, num <= 0xffff_ffff_ffff_ffff;
        let q = diff * (num as u128) / (den as u128);
        proof { lemma_scaled_le(diff as nat, num as nat, den as nat); }
        (s as i64 + q as i64) as i32
    } else {
        let diff = (s as i64 - e as i64) as u128;
        assert(diff * (num as u128) <= 0x1_0000_0000 * 0xffff_ffff_ffff_ffff) by (nonlinear_arith)
            requires diff <= 0x1_0000_0000, num <= 0xffff_ffff_ffff_ffff;
        let q = diff * (num as u128) / (den as u128);
        proof { lemma_scaled_le(diff as nat, num as nat, den as nat); }
        (s as i64 - q as i64) as i32
    }
}

pub proof fn lemma_total_fits(tw: Tween)
    requires
        tw.wf(),
    ensures
        tw.total() <= 0xffff_ffff * 0xffff_ffff,
        tw.period() <= 2 * 0xffff_ffff,
{
    let c = tw.cycles();
    let d = tw.duration as nat;
    assert(c * d <= 0xffff_ffff * 0xffff_ffff) by (nonlinear_arith)
        requires c <= 0xffff_ffff, d <= 0xffff_ffff;
}

proof fn lemma_div_mod_range(x: int, d: int, q: int)
    requires
        d > 0,
        q * d <= x < (q + 1) * d,
    ensures
        x / d == q,
        x % d == x - q * d,
{
    lemma_fundamental_div_mod(x, d);
    lemma_mod_bound(x, d);
    let k = x / d;
    let r = x % d;
    assert(k == q) by (nonlinear_arith)
        requires d > 0, x == d * k + r, 0 <= r < d, q * d <= x < (q + 1) * d;
    assert(d * k == q * d) by (nonlinear_arith) requires k == q;
}

/// Splitting a run into two advances changes nothing: running `a` and then `b`
/// milliseconds leaves a tween exactly as running `a + b` at once does, so a
/// large step loses no cycles.
pub proof fn lemma_advance_additive(tw: Tween, a: nat, b: nat)
    requires
        tw.wf(),
    ensures
        tw.after(a).after(b) == tw.after(a + b),
        tw.after(a).wf(),
        tw.leftover(a + b) == tw.after(a).leftover(b) + tw.leftover(a),
{
    lemma_total_fits(tw);
    if !tw.bounded() {
        let p = tw.period() as int;
        let e = tw.elapsed as int;
        lemma_mod_bound(e + a, p);
        lemma_add_mod_noop((e + a) % p, b as int, p);
        lemma_add_mod_noop(e + a, b as int, p);
        lemma_small_mod(((e + a) % p) as nat, p as nat);
        assert(e + a + b == e + (a + b));
    }
}

/// A tween that runs once is finished, at full progress, as soon as the time
/// run reaches its duration, and further advances leave it unchanged.
pub proof fn lemma_once_saturates(tw: Tween, a: nat, b: nat)
    requires
        tw.wf(),
        tw.repeat == Repeat::Once,
        tw.elapsed + a >= tw.duration,
    ensures
        tw.after(a).finished(),
        tw.after(a).progress_spec().is_full(),
        tw.after(a).after(b) == tw.after(a),
        tw.after(a).after(b).progress_spec().is_full(),
{
    let t = tw.after(a);
    let d = tw.duration as int;
    assert(tw.total() == d);
    assert(t.elapsed == d);
    lemma_div_mod_range(d, d, 1);
    assert(t.position() == d);
    assert(d * d <= 0xffff_ffff * 0xffff_ffff) by (nonlinear_arith) requires 0 < d <= 0xffff_ffff;
    assert(t.after(b) == t);
}

/// A mirrored endless tween runs back the way it came: its progress at `t` is its
/// progress at `2 * duration - t`, and it never finishes.
pub proof fn lemma_mirror_symmetric(tw: Tween, t: nat)
    requires
        tw.wf(),
        tw.repeat == Repeat::Infinite,
        tw.mirrored,
        t <= 2 * tw.duration,
    ensures
        tw.at(t).progress_spec() == tw.at((2 * tw.duration - t) as nat).progress_spec(),
        !tw.at(t).finished(),
        !tw.at(t).after(t).finished(),
{
    let d = tw.duration as int;
    let u = 2 * d - t;
    if t == 0 || t == 2 * d {
        lemma_div_mod_range(0, 2 * d, 0);
        lemma_div_mod_range(2 * d, 2 * d, 1);
        lemma_div_mod_range(0, d, 0);
        assert(tw.at(t).elapsed == 0);
        assert(tw.at(u as nat).elapsed == 0);
    } else {
        lemma_div_mod_range(t as int, 2 * d, 0);
        lemma_div_mod_range(u, 2 * d, 0);
        if t < d {
            lemma_div_mod_range(t as int, d, 0);
            lemma_div_mod_range(u, d, 1);
        } else if t == d {
            lemma_div_mod_range(t as int, d, 1);
        } else {
            lemma_div_mod_range(t as int, d, 1);
            lemma_div_mod_range(u, d, 0);
        }
        assert(tw.at(t).position() == tw.at(u as nat).position());
    }
}

/// Each easing curve is monotone: within a cycle, a later position never
/// gives less progress, and the curve runs from none to full.
pub proof fn lemma_ease_monotone(ease: Ease, p: int, q: int, d: int)
    requires
        0 <= p <= q <= d,
        d > 0,
    ensures
        ease_num(ease, p, d) <= ease_num(ease, q, d),
        ease_num(ease, 0, d) == 0,
        ease_num(ease, d, d) == d * d,
{
    match ease {
        Ease::Linear => {
            assert(p * d <= q * d) by (nonlinear_arith) requires p <= q, d > 0;
        },
        Ease::QuadraticInOut => {
            if 2 * q < d {
                assert(2 * p * p <= 2 * q * q) by (nonlinear_arith) requires 0 <= p <= q;
            } else if 2 * p >= d {
                assert(2 * (d - q) * (d - q) <= 2 * (d - p) * (d - p)) by (nonlinear_arith)
                    requires 0 <= d - q <= d - p;
            } else {
                assert(2 * p * p + 2 * (d - q) * (d - q) <= d * d) by (nonlinear_arith)
                    requires 0 <= 2 * p < d, 0 <= 2 * (d - q) <= d;
            }
            assert(d * d - 2 * (d - d) * (d - d) == d * d);
        },
    }
}

} // verus!
