use vstd::prelude::*;
use crate::tween::{Channel, Tween, Vec3, lemma_advance_additive};

verus! {

/// The live transform of an entity: one value per channel.
#[derive(Clone, Copy, Debug, PartialEq, Eq, Structural)]
pub struct Transform {
    pub translation: Vec3,
    pub rotation: Vec3,
    pub scale: Vec3,
}

impl Transform {
    pub open spec fn with_spec(self, c: Channel, v: Vec3) -> Transform {
        match c {
            Channel::Position => Transform { translation: v, ..self },
            Channel::Rotation => Transform { rotation: v, ..self },
            Channel::Scale => Transform { scale: v, ..self },
        }
    }

    /// This transform with channel `c` set to `v`.
    pub fn with(self, c: Channel, v: Vec3) -> (r: Transform)
        ensures
            r == self.with_spec(c, v),
    {
        match c {
            Channel::Position => Transform { translation: v, ..self },
            Channel::Rotation => Transform { rotation: v, ..self },
            Channel::Scale => Transform { scale: v, ..self },
        }
    }
}

/// How the members of a plan share time.
#[derive(Clone, Copy, Debug, PartialEq, Eq, Structural)]
pub enum Composition {
    /// One after another: time left over by a member passes to the next.
    Sequence,
    /// All together: every member gets all of the time.
    Parallel,
}

/// A composition of tweens that animates one entity.
#[derive(Debug)]
pub struct Plan {
    pub kind: Composition,
    pub members: Vec<Tween>,
}

pub struct PlanView {
    pub kind: Composition,
    pub members: Seq<Tween>,
}

impl View for Plan {
    type V = PlanView;

    open spec fn view(&self) -> PlanView {
        PlanView { kind: self.kind, members: self.members@ }
    }
}

pub open spec fn members_wf(s: Seq<Tween>) -> bool {
    forall|i: int| 0 <= i < s.len() ==> #[trigger] s[i].wf()
}

/// The time handed to member `j` of a sequence advanced by `dt`.
pub open spec fn carry(s: Seq<Tween>, dt: nat, j: nat) -> nat
    decreases j,
{
    if j == 0 {
        dt
    } else {
        s[j - 1].leftover(carry(s, dt, (j - 1) as nat))
    }
}

pub open spec fn sequence_after(s: Seq<Tween>, dt: nat) -> Seq<Tween> {
    Seq::new(s.len(), |j: int| s[j].after(carry(s, dt, j as nat)))
}

pub open spec fn parallel_after(s: Seq<Tween>, dt: nat) -> Seq<Tween> {
    Seq::new(s.len(), |j: int| s[j].after(dt))
}

pub open spec fn all_finished(s: Seq<Tween>) -> bool {
    forall|i: int| 0 <= i < s.len() ==> #[trigger] s[i].finished()
}

/// The member of a sequence that is running: the first unfinished one from
/// `i` on, or the last one.
pub open spec fn active_from(s: Seq<Tween>, i: nat) -> nat
    decreases s.len() - i,
{
    if i + 1 >= s.len() || !s[i as int].finished() {
        i
    } else {
        active_from(s, i + 1)
    }
}

/// Each member in turn writes its value to its channel.
pub open spec fn apply_all(s: Seq<Tween>, tr: Transform) -> Transform
    decreases s.len(),
{
    if s.len() == 0 {
        tr
    } else {
        let m = s.last();
        apply_all(s.drop_last(), tr).with_spec(m.channel, m.value_spec())
    }
}

impl PlanView {
    pub open spec fn wf(self) -> bool {
        self.members.len() > 0 && members_wf(self.members)
    }

    pub open spec fn after(self, dt: nat) -> PlanView {
        PlanView {
            kind: self.kind,
            members: match self.kind {
                Composition::Sequence => sequence_after(self.members, dt),
                Composition::Parallel => parallel_after(self.members, dt),
            },
        }
    }

    /// Overall progress is full exactly when every member has finished.
    pub open spec fn complete(self) -> bool {
        all_finished(self.members)
    }

    pub open spec fn apply(self, tr: Transform) -> Transform {
        match self.kind {
            Composition::Sequence => apply_all(
                self.members.subrange(0, active_from(self.members, 0) + 1 as int),
                tr,
            ),
            Composition::Parallel => apply_all(self.members, tr),
        }
    }
}

proof fn lemma_leftover_le(t: Tween, dt: nat)
    requires
        t.wf(),
    ensures
        t.leftover(dt) <= dt,
{
}

proof fn lemma_after_wf(t: Tween, dt: nat)
    requires
        t.wf(),
    ensures
        t.after(dt).wf(),
{
    lemma_advance_additive(t, dt, 0);
}

impl Plan {
    pub open spec fn wf(&self) -> bool {
        self@.wf()
    }

    /// A plan over `members`, each in the state it is given in.
    pub fn new(kind: Composition, members: Vec<Tween>) -> (r: Plan)
        requires
            members@.len() > 0,
            members_wf(members@),
        ensures
            r@ == (PlanView { kind, members: members@ }),
            r.wf(),
    {
        Plan { kind, members }
    }

    /// Runs the plan for `dt` more milliseconds and tells whether it is complete.
    pub fn advance(&mut self, dt: u64) -> (done: bool)
        requires
            old(self).wf(),
        ensures
            final(self)@ == old(self)@.after(dt as nat),
            final(self).wf(),
            done == final(self)@.complete(),
    {
        let ghost s0 = self.members@;
        let n = self.members.len();
        let mut i: usize = 0;
        let mut rest: u64 = dt;
        while i < n
            invariant
                s0 == old(self)@.members,
                self.kind == old(self).kind,
                members_wf(s0),
                n == s0.len(),
                self.members@.len() == n,
                0 <= i <= n,
                members_wf(self.members@),
                forall|j: int| i <= j < n ==> self.members@[j] == s0[j],
                self.kind == Composition::Sequence ==> rest == carry(s0, dt as nat, i as nat),
                self.kind == Composition::Parallel ==> rest == dt,
                forall|j: int|
                    0 <= j < i ==> self.members@[j] == (match self.kind {
                        Composition::Sequence => sequence_after(s0, dt as nat)[j],
                        Composition::Parallel => parallel_after(s0, dt as nat)[j],
                    }),
            decreases n - i,
        {
            let mut t = self.members[i];
            let next = t.leftover_exec(rest);
            proof {
                lemma_leftover_le(t, rest as nat);
                lemma_after_wf(t, rest as nat);
            }
            t.advance(rest);
            self.members.set(i, t);
            if self.kind == Composition::Sequence {
                rest = next;
            }
            i = i + 1;
        }
        proof {
            let target = old(self)@.after(dt as nat).members;
            assert(self.members@ =~= target);
        }
        self.is_complete()
    }

    /// Whether every member has finished.
    pub fn is_complete(&self) -> (r: bool)
        requires
            self.wf(),
        ensures
            r == self@.complete(),
    {
        let mut i: usize = 0;
        while i < self.members.len()
            invariant
                self.wf(),
                0 <= i <= self.members@.len(),
                forall|j: int| 0 <= j < i ==> #[trigger] self.members@[j].finished(),
            decreases self.members@.len() - i,
        {
            if !self.members[i].is_finished() {
                return false;
            }
            i = i + 1;
        }
        true
    }

    /// Writes the values of the first `upto` members onto `tr`, in order.
    fn apply_prefix(&self, upto: usize, tr: Transform) -> (r: Transform)
        requires
            self.wf(),
            upto <= self.members@.len(),
        ensures
            r == apply_all(self.members@.subrange(0, upto as int), tr),
    {
        let s = Ghost(self.members@);
        let mut cur = tr;
        let mut i: usize = 0;
        while i < upto
            invariant
                self.wf(),
                s@ == self.members@,
                upto <= s@.len(),
                0 <= i <= upto,
                cur == apply_all(s@.subrange(0, i as int), tr),
            decreases upto - i,
        {
            let m = self.members[i];
            proof {
                assert(s@.subrange(0, i + 1).drop_last() =~= s@.subrange(0, i as int));
            }
            cur = cur.with(m.channel, m.value());
            i = i + 1;
        }
        cur
    }

    /// Writes the plan's current values onto `tr`: in a sequence, every member
    /// up to and including the active one, so that a finished member leaves
    /// its end value; in a parallel group, every member. Members write in order.
    pub fn apply(&self, tr: Transform) -> (r: Transform)
        requires
            self.wf(),
        ensures
            r == self@.apply(tr),
    {
        let s = Ghost(self.members@);
        let n = self.members.len();
        match self.kind {
            Composition::Sequence => {
                let mut i: usize = 0;
                while i + 1 < n && self.members[i].is_finished()
                    invariant
                        self.wf(),
                        s@ == self.members@,
                        n == s@.len(),
                        0 <= i < n,
                        active_from(s@, 0) == active_from(s@, i as nat),
                    decreases n - i,
                {
                    i = i + 1;
                }
                self.apply_prefix(i + 1, tr)
            },
            Composition::Parallel => {
                proof {
                    assert(s@.subrange(0, n as int) =~= s@);
                }
                self.apply_prefix(n, tr)
            },
        }
    }
}

/// Sum of the durations of the first `j` members.
pub open spec fn prefix_total(s: Seq<Tween>, j: nat) -> nat
    decreases j,
{
    if j == 0 {
        0
    } else {
        prefix_total(s, (j - 1) as nat) + (s[j - 1].duration as nat)
    }
}

/// Members that have not run yet and run once.
pub open spec fn fresh_once(s: Seq<Tween>) -> bool {
    forall|j: int|
        0 <= j < s.len() ==> (#[trigger] s[j]).elapsed == 0 && s[j].repeat == crate::tween::Repeat::Once
}

proof fn lemma_carry_additive(s: Seq<Tween>, a: nat, b: nat, j: nat)
    requires
        members_wf(s),
        j <= s.len(),
    ensures
        carry(sequence_after(s, a), b, j) + carry(s, a, j) == carry(s, a + b, j),
    decreases j,
{
    if j > 0 {
        let k = (j - 1) as nat;
        lemma_carry_additive(s, a, b, k);
        lemma_advance_additive(s[k as int], carry(s, a, k), carry(sequence_after(s, a), b, k));
    }
}

/// Advancing a plan by `a` and then by `b` is advancing it by `a + b`: no time
/// is lost or counted twice, also where a sequence passes from one member to
/// the next.
pub proof fn lemma_plan_additive(p: PlanView, a: nat, b: nat)
    requires
        p.wf(),
    ensures
        p.after(a).after(b) == p.after(a + b),
        p.after(a).wf(),
{
    let s = p.members;
    assert forall|j: int| 0 <= j < s.len() implies #[trigger] p.after(a).members[j].wf() by {
        match p.kind {
            Composition::Sequence => lemma_after_wf(s[j], carry(s, a, j as nat)),
            Composition::Parallel => lemma_after_wf(s[j], a),
        }
    }
    match p.kind {
        Composition::Sequence => {
            assert forall|j: int| 0 <= j < s.len() implies
                #[trigger] sequence_after(sequence_after(s, a), b)[j] == sequence_after(s, a + b)[j] by {
                lemma_carry_additive(s, a, b, j as nat);
                lemma_advance_additive(s[j], carry(s, a, j as nat), carry(sequence_after(s, a), b, j as nat));
            }
            assert(sequence_after(sequence_after(s, a), b) =~= sequence_after(s, a + b));
        },
        Composition::Parallel => {
            assert forall|j: int| 0 <= j < s.len() implies
                #[trigger] parallel_after(parallel_after(s, a), b)[j] == parallel_after(s, a + b)[j] by {
                lemma_advance_additive(s[j], a, b);
            }
            assert(parallel_after(parallel_after(s, a), b) =~= parallel_after(s, a + b));
        },
    }
}

proof fn lemma_prefix_monotone(s: Seq<Tween>, i: nat, j: nat)
    requires
        i <= j,
    ensures
        prefix_total(s, i) <= prefix_total(s, j),
    decreases j - i,
{
    if i < j {
        lemma_prefix_monotone(s, i, (j - 1) as nat);
    }
}

proof fn lemma_fresh_carry(s: Seq<Tween>, t: nat, j: nat)
    requires
        members_wf(s),
        fresh_once(s),
        j <= s.len(),
    ensures
        carry(s, t, j) == if t >= prefix_total(s, j) {
            (t - prefix_total(s, j)) as nat
        } else {
            0
        },
    decreases j,
{
    if j > 0 {
        let k = (j - 1) as nat;
        lemma_fresh_carry(s, t, k);
        assert(s[k as int].total() == s[k as int].duration);
    }
}

/// A sequence of fresh members that each run once completes exactly when the
/// time run reaches the sum of the members' durations.
pub proof fn lemma_sequence_completes(p: PlanView, t: nat)
    requires
        p.wf(),
        p.kind == Composition::Sequence,
        fresh_once(p.members),
    ensures
        p.after(t).complete() <==> t >= prefix_total(p.members, p.members.len()),
{
    let s = p.members;
    let n = s.len();
    assert forall|j: int| 0 <= j < n implies
        (#[trigger] sequence_after(s, t)[j].finished() <==> t >= prefix_total(s, (j + 1) as nat)) by {
        lemma_fresh_carry(s, t, j as nat);
        assert(s[j].repeat == crate::tween::Repeat::Once);
        assert(s[j].cycles() == 1);
        assert(s[j].total() == s[j].duration);
        assert(prefix_total(s, (j + 1) as nat) == prefix_total(s, j as nat) + s[j].duration);
        let c = carry(s, t, j as nat);
        assert(sequence_after(s, t)[j] == s[j].after(c));
        assert(s[j].elapsed == 0);
        assert(s[j].wf());
        if c >= s[j].duration {
            assert(s[j].after(c).elapsed == s[j].duration);
        } else {
            assert(s[j].after(c).elapsed == c);
        }
    }
    if t >= prefix_total(s, n) {
        assert forall|j: int| 0 <= j < n implies #[trigger] sequence_after(s, t)[j].finished() by {
            lemma_prefix_monotone(s, (j + 1) as nat, n);
        }
    }
    if p.after(t).complete() {
        assert(sequence_after(s, t)[n - 1].finished());
    }
}

/// In a parallel plan each member runs on its own time, whatever the others
/// are; started afresh, the plan completes exactly when every member is
/// bounded and the time run reaches that member's total, so a member that
/// repeats forever keeps it from ever completing.
pub proof fn lemma_parallel_completes(p: PlanView, t: nat)
    requires
        p.wf(),
        p.kind == Composition::Parallel,
        forall|j: int| 0 <= j < p.members.len() ==> (#[trigger] p.members[j]).elapsed == 0,
    ensures
        forall|j: int| 0 <= j < p.members.len() ==> #[trigger] p.after(t).members[j] == p.members[j].after(t),
        p.after(t).complete() <==> forall|j: int|
            0 <= j < p.members.len() ==> (#[trigger] p.members[j]).bounded() && t >= p.members[j].total(),
        (exists|j: int| 0 <= j < p.members.len() && !(#[trigger] p.members[j]).bounded()) ==> !p.after(t).complete(),
{
    let s = p.members;
    assert forall|j: int| 0 <= j < s.len() implies
        (#[trigger] parallel_after(s, t)[j].finished() <==> s[j].bounded() && t >= s[j].total()) by {
        crate::tween::lemma_total_fits(s[j]);
    }
    let all_reach = forall|j: int| 0 <= j < s.len() ==> (#[trigger] s[j]).bounded() && t >= s[j].total();
    if all_reach {
        assert forall|j: int| 0 <= j < s.len() implies #[trigger] parallel_after(s, t)[j].finished() by {
            assert(s[j].bounded() && t >= s[j].total());
        }
    }
    if p.after(t).complete() {
        assert forall|j: int| 0 <= j < s.len() implies (#[trigger] s[j]).bounded() && t >= s[j].total() by {
            assert(parallel_after(s, t)[j].finished());
        }
    }
    if exists|j: int| 0 <= j < s.len() && !(#[trigger] s[j]).bounded() {
        let j = choose|j: int| 0 <= j < s.len() && !(#[trigger] s[j]).bounded();
        assert(!parallel_after(s, t)[j].finished());
    }
}

} // verus!
