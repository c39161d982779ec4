use vstd::prelude::*;
use crate::plan::{all_finished, carry, members_wf, Composition, Plan, PlanView, Transform};
use crate::templates::{drift, drift_spec, template, template_spec, DRIFT, TEMPLATE_COUNT};
use crate::random::{random_below, random_between};
use crate::tween::Vec3;

verus! {

/// Smallest side of a triggered entity, in pixels.
pub const MIN_SIZE: i32 = 50;

/// Largest side of a triggered entity, in pixels.
pub const MAX_SIZE: i32 = 200;

/// Initial scale of a decorative entity, in thousandths.
pub const TINY_SCALE: i32 = 100;

/// Natural scale, in thousandths.
pub const UNIT_SCALE: i32 = 1000;

#[derive(Clone, Copy, Debug, PartialEq, Eq, Structural)]
pub enum SpawnError {
    /// A trigger came while the catalog holds no asset.
    EmptyCatalog,
}

/// One animated visual object.
#[derive(Debug)]
pub struct Entity {
    pub id: u64,
    /// Index of the entity's image in the asset catalog.
    pub asset: usize,
    /// Side of the sprite, in pixels.
    pub size: u32,
    /// Reclaimed once its plan completes; persistent entities never are.
    pub transient: bool,
    pub transform: Transform,
    pub plan: Plan,
}

pub struct EntityView {
    pub id: u64,
    pub asset: usize,
    pub size: u32,
    pub transient: bool,
    pub transform: Transform,
    pub plan: PlanView,
}

impl View for Entity {
    type V = EntityView;

    open spec fn view(&self) -> EntityView {
        EntityView {
            id: self.id,
            asset: self.asset,
            size: self.size,
            transient: self.transient,
            transform: self.transform,
            plan: self.plan@,
        }
    }
}

impl EntityView {
    /// The entity after its plan has run `dt` more milliseconds, with the
    /// plan's values written onto its transform.
    pub open spec fn after(self, dt: nat) -> EntityView {
        EntityView {
            plan: self.plan.after(dt),
            transform: self.plan.after(dt).apply(self.transform),
            ..self
        }
    }

    pub open spec fn reclaimable(self) -> bool {
        self.transient && self.plan.complete()
    }
}

/// The entities of `s` that stay, in order.
pub open spec fn survivors(s: Seq<EntityView>) -> Seq<EntityView>
    decreases s.len(),
{
    if s.len() == 0 {
        s
    } else if s.last().reclaimable() {
        survivors(s.drop_last())
    } else {
        survivors(s.drop_last()).push(s.last())
    }
}

pub open spec fn advanced(s: Seq<EntityView>, dt: nat) -> Seq<EntityView> {
    s.map_values(|e: EntityView| e.after(dt))
}

/// The entities after one tick of `dt` milliseconds.
pub open spec fn tick_spec(s: Seq<EntityView>, dt: nat) -> Seq<EntityView> {
    survivors(advanced(s, dt))
}

pub open spec fn plans_wf(s: Seq<EntityView>) -> bool {
    forall|i: int| 0 <= i < s.len() ==> (#[trigger] s[i]).plan.wf()
}

/// A fresh triggered entity.
pub open spec fn triggered(id: u64, asset: usize, x: i32, y: i32, size: u32, k: nat) -> EntityView {
    EntityView {
        id,
        asset,
        size,
        transient: true,
        transform: Transform {
            translation: Vec3 { x, y, z: 0 },
            rotation: Vec3 { x: 0, y: 0, z: 0 },
            scale: Vec3 { x: UNIT_SCALE, y: UNIT_SCALE, z: UNIT_SCALE },
        },
        plan: template_spec(k),
    }
}

/// A fresh decorative entity.
pub open spec fn decorative(id: u64, asset: usize, x: i32, y: i32) -> EntityView {
    EntityView {
        id,
        asset,
        size: MAX_SIZE as u32,
        transient: false,
        transform: Transform {
            translation: Vec3 { x, y, z: 0 },
            rotation: Vec3 { x: 0, y: 0, z: 0 },
            scale: Vec3 { x: TINY_SCALE, y: TINY_SCALE, z: TINY_SCALE },
        },
        plan: drift_spec(x, y),
    }
}

/// Half of a viewport side: placements run over `[-half, half]`.
pub open spec fn half(side: u16) -> int {
    side as int / 2
}

/// What holds of an entity spawned by a trigger, whatever was drawn.
pub open spec fn valid_spawn(e: EntityView, assets: nat, width: u16, height: u16) -> bool {
    &&& e.transient
    &&& e.asset < assets
    &&& -half(width) <= e.transform.translation.x <= half(width)
    &&& -half(height) <= e.transform.translation.y <= half(height)
    &&& MIN_SIZE <= e.size <= MAX_SIZE
    &&& exists|k: nat| k < TEMPLATE_COUNT && e == triggered(e.id, e.asset, e.transform.translation.x, e.transform.translation.y, e.size, k)
}

/// The set of animated entities, owned by the lifecycle manager.
#[derive(Debug)]
pub struct World {
    pub entities: Vec<Entity>,
    pub next_id: u64,
}

impl Entity {
    /// Runs the entity's plan for `dt` milliseconds and writes its values.
    pub fn step(&mut self, dt: u64)
        requires
            old(self).plan.wf(),
        ensures
            final(self)@ == old(self)@.after(dt as nat),
            final(self).plan.wf(),
    {
        self.plan.advance(dt);
        self.transform = self.plan.apply(self.transform);
    }

    pub fn is_reclaimable(&self) -> (r: bool)
        requires
            self.plan.wf(),
        ensures
            r == self@.reclaimable(),
    {
        self.transient && self.plan.is_complete()
    }
}

impl World {
    pub open spec fn view_seq(&self) -> Seq<EntityView> {
        self.entities@.map_values(|e: Entity| e@)
    }

    pub open spec fn wf(&self) -> bool {
        &&& plans_wf(self.view_seq())
        &&& ids_unique(self.view_seq())
        &&& forall|i: int| 0 <= i < self.entities@.len() ==> (#[trigger] self.entities@[i]).id < self.next_id
    }

    pub fn new() -> (r: World)
        ensures
            r.wf(),
            r.view_seq() == Seq::<EntityView>::empty(),
            r.next_id == 0,
    {
        let r = World { entities: Vec::new(), next_id: 0 };
        assert(r.view_seq() =~= Seq::<EntityView>::empty());
        r
    }

    pub fn len(&self) -> (r: usize)
        ensures
            r == self.view_seq().len(),
    {
        self.entities.len()
    }

    /// Number of persistent entities.
    pub fn persistent_count(&self) -> (r: usize)
        ensures
            r == persistent_ids(self.view_seq()).len(),
    {
        let mut c: usize = 0;
        let mut i: usize = 0;
        while i < self.entities.len()
            invariant
                0 <= i <= self.entities@.len(),
                c == persistent_ids(self.view_seq().subrange(0, i as int)).len(),
                c <= i,
            decreases self.entities@.len() - i,
        {
            proof {
                assert(self.view_seq().subrange(0, i + 1).drop_last() =~= self.view_seq().subrange(0, i as int));
            }
            if !self.entities[i].transient {
                c = c + 1;
            }
            i = i + 1;
        }
        proof {
            assert(self.view_seq().subrange(0, i as int) =~= self.view_seq());
        }
        c
    }

    /// Whether an entity with this identity is in the set.
    pub fn contains(&self, id: u64) -> (r: bool)
        ensures
            r == exists|i: int| 0 <= i < self.view_seq().len() && (#[trigger] self.view_seq()[i]).id == id,
    {
        let mut i: usize = 0;
        while i < self.entities.len()
            invariant
                0 <= i <= self.entities@.len(),
                forall|j: int| 0 <= j < i ==> (#[trigger] self.view_seq()[j]).id != id,
            decreases self.entities@.len() - i,
        {
            if self.entities[i].id == id {
                assert(self.view_seq()[i as int].id == id);
                return true;
            }
            i = i + 1;
        }
        false
    }

    /// Registers a new entity and returns its identity.
    pub fn spawn(&mut self, asset: usize, x: i32, y: i32, size: u32, transient: bool, scale: i32, plan: Plan) -> (id: u64)
        requires
            old(self).wf(),
            plan.wf(),
            old(self).next_id < u64::MAX,
        ensures
            final(self).wf(),
            id == old(self).next_id,
            final(self).next_id == old(self).next_id + 1,
            final(self).view_seq() == old(self).view_seq().push(EntityView {
                id,
                asset,
                size,
                transient,
                transform: Transform {
                    translation: Vec3 { x, y, z: 0 },
                    rotation: Vec3 { x: 0, y: 0, z: 0 },
                    scale: Vec3 { x: scale, y: scale, z: scale },
                },
                plan: plan@,
            }),
    {
        let id = self.next_id;
        let e = Entity {
            id,
            asset,
            size,
            transient,
            transform: Transform {
                translation: Vec3 { x, y, z: 0 },
                rotation: Vec3 { x: 0, y: 0, z: 0 },
                scale: Vec3 { x: scale, y: scale, z: scale },
            },
            plan,
        };
        self.entities.push(e);
        self.next_id = id + 1;
        proof {
            assert(self.view_seq() =~= old(self).view_seq().push(e@));
        }
        id
    }

    /// Registers a transient entity with template `k`, at `(x, y)`, of side `size`.
    pub fn place(&mut self, asset: usize, x: i32, y: i32, size: u32, k: usize) -> (id: u64)
        requires
            old(self).wf(),
            old(self).next_id < u64::MAX,
            k < TEMPLATE_COUNT,
        ensures
            final(self).wf(),
            id == old(self).next_id,
            final(self).next_id == old(self).next_id + 1,
            final(self).view_seq() == old(self).view_seq().push(triggered(id, asset, x, y, size, k as nat)),
    {
        let plan = template(k);
        self.spawn(asset, x, y, size, true, UNIT_SCALE, plan)
    }

    /// Registers a persistent decorative entity drifting from `(x, y)`.
    pub fn place_decorative(&mut self, asset: usize, x: i32, y: i32) -> (id: u64)
        requires
            old(self).wf(),
            old(self).next_id < u64::MAX,
            y + DRIFT <= i32::MAX,
        ensures
            final(self).wf(),
            id == old(self).next_id,
            final(self).next_id == old(self).next_id + 1,
            final(self).view_seq() == old(self).view_seq().push(decorative(id, asset, x, y)),
    {
        let plan = drift(x, y);
        self.spawn(asset, x, y, MAX_SIZE as u32, false, TINY_SCALE, plan)
    }

    /// Advances every entity by `dt` milliseconds, then removes each transient
    /// entity whose plan has completed.
    pub fn tick(&mut self, dt: u64)
        requires
            old(self).wf(),
        ensures
            final(self).wf(),
            final(self).next_id == old(self).next_id,
            final(self).view_seq() == tick_spec(old(self).view_seq(), dt as nat),
            forall|j: int|
                0 <= j < old(self).view_seq().len() && (#[trigger] old(self).view_seq()[j]).transient
                    && old(self).view_seq()[j].plan.complete() ==> forall|k: int|
                    0 <= k < final(self).view_seq().len() ==> (#[trigger] final(self).view_seq()[k]).id
                        != old(self).view_seq()[j].id,
            forall|j: int|
                0 <= j < old(self).view_seq().len() && !(#[trigger] old(self).view_seq()[j]).transient
                    ==> exists|k: int|
                    0 <= k < final(self).view_seq().len() && (#[trigger] final(self).view_seq()[k]).id
                        == old(self).view_seq()[j].id && !final(self).view_seq()[k].transient,
    {
        let ghost s0 = self.view_seq();
        let ghost adv = advanced(s0, dt as nat);
        let ghost n = s0.len();
        let ghost mut k: int = 0;
        let mut i: usize = 0;
        proof {
            assert(adv.subrange(0, 0) =~= Seq::<EntityView>::empty());
            assert(self.view_seq() =~= survivors(adv.subrange(0, 0)) + s0.subrange(0, n as int));
        }
        while i < self.entities.len()
            invariant
                s0 == old(self).view_seq(),
                adv == advanced(s0, dt as nat),
                n == s0.len(),
                plans_wf(s0),
                0 <= k <= n,
                i == survivors(adv.subrange(0, k)).len(),
                self.view_seq() == survivors(adv.subrange(0, k)) + s0.subrange(k, n as int),
                self.entities@.len() == i + (n - k),
                plans_wf(self.view_seq()),
                ids_unique(self.view_seq()),
                self.next_id == old(self).next_id,
                forall|j: int| 0 <= j < self.entities@.len() ==> (#[trigger] self.entities@[j]).id < self.next_id,
            decreases n - k,
        {
            let ghost before = self.view_seq();
            let ghost sv = survivors(adv.subrange(0, k));
            assert(before[i as int] == s0[k]);
            assert(adv.subrange(0, k + 1).drop_last() =~= adv.subrange(0, k));
            assert(adv.subrange(0, k + 1).last() == adv[k]);
            let mut e = self.entities.remove(i);
            proof {
                assert(self.view_seq() =~= before.remove(i as int));
                assert forall|a: int| 0 <= a < self.view_seq().len() implies
                    #[trigger] self.view_seq()[a] == before[if a < i { a } else { a + 1 }] by {}
                assert(before.remove(i as int) =~= sv + s0.subrange(k + 1, n as int));
            }
            e.step(dt);
            assert(e@ == adv[k]);
            if e.is_reclaimable() {
                proof {
                    assert(survivors(adv.subrange(0, k + 1)) == sv);
                    k = k + 1;
                }
            } else {
                let ghost mid = self.view_seq();
                self.entities.insert(i, e);
                proof {
                    assert(self.view_seq() =~= mid.insert(i as int, e@));
                    assert forall|a: int| 0 <= a < self.view_seq().len() implies
                        (#[trigger] self.view_seq()[a]).id == before[a].id by {}
                    assert(survivors(adv.subrange(0, k + 1)) == sv.push(adv[k]));
                    assert(mid.insert(i as int, e@) =~= sv.push(adv[k]) + s0.subrange(k + 1, n as int));
                    k = k + 1;
                }
                i = i + 1;
            }
        }
        proof {
            assert(k == n);
            assert(adv.subrange(0, n as int) =~= adv);
            assert(self.view_seq() =~= survivors(adv));
            assert forall|j: int|
                0 <= j < s0.len() && (#[trigger] s0[j]).transient && s0[j].plan.complete() implies forall|k: int|
                    0 <= k < self.view_seq().len() ==> (#[trigger] self.view_seq()[k]).id != s0[j].id by {
                lemma_tick_reclaims(s0, dt as nat, j);
            }
            lemma_tick_keeps_persistent(s0, dt as nat);
            lemma_persistent_ids_members(s0);
            lemma_persistent_ids_members(self.view_seq());
            assert forall|j: int| 0 <= j < s0.len() && !(#[trigger] s0[j]).transient implies exists|k: int|
                0 <= k < self.view_seq().len() && (#[trigger] self.view_seq()[k]).id == s0[j].id
                    && !self.view_seq()[k].transient by {
                assert(persistent_ids(self.view_seq()).contains(s0[j].id));
            }
        }
    }

    /// Spawns one transient entity for each of `triggers` events, each with a
    /// random asset of the catalog, a random place in the viewport, a random
    /// side in `[MIN_SIZE, MAX_SIZE]` and a randomly chosen template.
    pub fn on_trigger_events(&mut self, assets: usize, triggers: usize, width: u16, height: u16) -> (r: Result<(), SpawnError>)
        requires
            old(self).wf(),
            old(self).next_id + triggers <= u64::MAX,
        ensures
            final(self).wf(),
            triggers > 0 && assets == 0 <==> r == Err::<(), SpawnError>(SpawnError::EmptyCatalog),
            r is Err ==> final(self).view_seq() == old(self).view_seq() && final(self).next_id == old(self).next_id,
            r is Ok ==> {
                &&& final(self).next_id == old(self).next_id + triggers
                &&& final(self).view_seq().len() == old(self).view_seq().len() + triggers
                &&& final(self).view_seq().subrange(0, old(self).view_seq().len() as int) == old(self).view_seq()
                &&& forall|j: int|
                    old(self).view_seq().len() <= j < final(self).view_seq().len() ==> {
                        &&& valid_spawn(#[trigger] final(self).view_seq()[j], assets as nat, width, height)
                        &&& final(self).view_seq()[j].id == old(self).next_id + (j - old(self).view_seq().len())
                    }
            },
    {
        if triggers > 0 && assets == 0 {
            return Err(SpawnError::EmptyCatalog);
        }
        let hw: i32 = (width / 2) as i32;
        let hh: i32 = (height / 2) as i32;
        let ghost s0 = self.view_seq();
        let mut c: usize = 0;
        while c < triggers
            invariant
                s0 == old(self).view_seq(),
                self.wf(),
                0 <= c <= triggers,
                triggers > 0 ==> assets > 0,
                hw == half(width),
                hh == half(height),
                self.next_id == old(self).next_id + c,
                old(self).next_id + triggers <= u64::MAX,
                self.view_seq().len() == s0.len() + c,
                self.view_seq().subrange(0, s0.len() as int) == s0,
                forall|j: int|
                    s0.len() <= j < self.view_seq().len() ==> {
                        &&& valid_spawn(#[trigger] self.view_seq()[j], assets as nat, width, height)
                        &&& self.view_seq()[j].id == old(self).next_id + (j - s0.len())
                    },
            decreases triggers - c,
        {
            let asset = random_below(assets);
            let x = random_between(-hw, hw);
            let y = random_between(-hh, hh);
            let size = random_between(MIN_SIZE, MAX_SIZE) as u32;
            let k = random_below(TEMPLATE_COUNT);
            let ghost prev = self.view_seq();
            let id = self.place(asset, x, y, size, k);
            proof {
                let e = triggered(id, asset, x, y, size, k as nat);
                assert(self.view_seq().subrange(0, s0.len() as int) =~= prev.subrange(0, s0.len() as int));
                assert(self.view_seq()[prev.len() as int] == e);
                assert(valid_spawn(e, assets as nat, width, height));
            }
            c = c + 1;
        }
        Ok(())
    }

    /// Seeds `count` persistent decorative entities with asset `asset`, each at
    /// a random place in the viewport, drifting back and forth forever.
    pub fn seed_persistent_field(&mut self, asset: usize, count: usize, width: u16, height: u16)
        requires
            old(self).wf(),
            old(self).next_id + count <= u64::MAX,
        ensures
            final(self).wf(),
            final(self).next_id == old(self).next_id + count,
            final(self).view_seq().len() == old(self).view_seq().len() + count,
            final(self).view_seq().subrange(0, old(self).view_seq().len() as int) == old(self).view_seq(),
            forall|j: int|
                old(self).view_seq().len() <= j < final(self).view_seq().len() ==> {
                    let e = #[trigger] final(self).view_seq()[j];
                    &&& e == decorative(e.id, asset, e.transform.translation.x, e.transform.translation.y)
                    &&& -half(width) <= e.transform.translation.x <= half(width)
                    &&& -half(height) <= e.transform.translation.y <= half(height)
                },
            persistent_ids(final(self).view_seq()).len() == persistent_ids(old(self).view_seq()).len() + count,
    {
        let hw: i32 = (width / 2) as i32;
        let hh: i32 = (height / 2) as i32;
        let ghost s0 = self.view_seq();
        let mut c: usize = 0;
        while c < count
            invariant
                s0 == old(self).view_seq(),
                self.wf(),
                0 <= c <= count,
                hw == half(width),
                hh == half(height),
                self.next_id == old(self).next_id + c,
                old(self).next_id + count <= u64::MAX,
                self.view_seq().len() == s0.len() + c,
                self.view_seq().subrange(0, s0.len() as int) == s0,
                forall|j: int|
                    s0.len() <= j < self.view_seq().len() ==> {
                        let e = #[trigger] self.view_seq()[j];
                        &&& e == decorative(e.id, asset, e.transform.translation.x, e.transform.translation.y)
                        &&& -half(width) <= e.transform.translation.x <= half(width)
                        &&& -half(height) <= e.transform.translation.y <= half(height)
                    },
                persistent_ids(self.view_seq()).len() == persistent_ids(s0).len() + c,
            decreases count - c,
        {
            let x = random_between(-hw, hw);
            let y = random_between(-hh, hh);
            let ghost prev = self.view_seq();
            let id = self.place_decorative(asset, x, y);
            proof {
                assert(self.view_seq().subrange(0, s0.len() as int) =~= prev.subrange(0, s0.len() as int));
                assert(self.view_seq().drop_last() =~= prev);
            }
            c = c + 1;
        }
    }
}

/// Identities of the persistent entities of `s`, in order.
pub open spec fn persistent_ids(s: Seq<EntityView>) -> Seq<u64>
    decreases s.len(),
{
    if s.len() == 0 {
        Seq::empty()
    } else if s.last().transient {
        persistent_ids(s.drop_last())
    } else {
        persistent_ids(s.drop_last()).push(s.last().id)
    }
}

/// The entities after one tick for each step of `dts`, in order.
pub open spec fn ticks_spec(s: Seq<EntityView>, dts: Seq<nat>) -> Seq<EntityView>
    decreases dts.len(),
{
    if dts.len() == 0 {
        s
    } else {
        tick_spec(ticks_spec(s, dts.drop_last()), dts.last())
    }
}

pub open spec fn ids_unique(s: Seq<EntityView>) -> bool {
    forall|a: int, b: int| 0 <= a < s.len() && 0 <= b < s.len() && a != b ==> s[a].id != s[b].id
}

proof fn lemma_survivor_origin(s: Seq<EntityView>)
    ensures
        forall|k: int|
            0 <= k < survivors(s).len() ==> exists|m: int|
                0 <= m < s.len() && #[trigger] survivors(s)[k] == s[m] && !s[m].reclaimable(),
    decreases s.len(),
{
    if s.len() > 0 {
        let t = s.drop_last();
        lemma_survivor_origin(t);
        assert forall|k: int| 0 <= k < survivors(s).len() implies exists|m: int|
            0 <= m < s.len() && #[trigger] survivors(s)[k] == s[m] && !s[m].reclaimable() by {
            if k < survivors(t).len() {
                let m = choose|m: int| 0 <= m < t.len() && survivors(t)[k] == t[m] && !t[m].reclaimable();
                assert(s[m] == t[m]);
            } else {
                assert(survivors(s)[k] == s[s.len() - 1]);
            }
        }
    }
}

proof fn lemma_complete_stays(p: PlanView, dt: nat)
    requires
        p.wf(),
        p.complete(),
    ensures
        p.after(dt).complete(),
{
    let s = p.members;
    match p.kind {
        Composition::Sequence => {
            assert forall|j: int| 0 <= j < s.len() implies #[trigger] p.after(dt).members[j].finished() by {
                lemma_finished_carry(s, dt, j as nat);
                assert(s[j].finished());
            }
        },
        Composition::Parallel => {
            assert forall|j: int| 0 <= j < s.len() implies #[trigger] p.after(dt).members[j].finished() by {
                assert(s[j].finished());
            }
        },
    }
}

proof fn lemma_finished_carry(s: Seq<crate::tween::Tween>, dt: nat, j: nat)
    requires
        members_wf(s),
        all_finished(s),
        j <= s.len(),
    ensures
        carry(s, dt, j) == dt,
    decreases j,
{
    if j > 0 {
        lemma_finished_carry(s, dt, (j - 1) as nat);
        assert(s[j - 1].finished());
    }
}

proof fn lemma_persistent_ids_members(s: Seq<EntityView>)
    ensures
        forall|j: int| 0 <= j < s.len() && !(#[trigger] s[j]).transient ==> persistent_ids(s).contains(s[j].id),
        forall|x: u64| persistent_ids(s).contains(x) ==> exists|j: int|
            0 <= j < s.len() && (#[trigger] s[j]).id == x && !s[j].transient,
    decreases s.len(),
{
    if s.len() > 0 {
        let t = s.drop_last();
        lemma_persistent_ids_members(t);
        let p = persistent_ids(t);
        assert forall|j: int| 0 <= j < s.len() && !(#[trigger] s[j]).transient implies
            persistent_ids(s).contains(s[j].id) by {
            if j < t.len() {
                assert(t[j] == s[j]);
                let m = choose|m: int| 0 <= m < p.len() && p[m] == s[j].id;
                assert(persistent_ids(s)[m] == s[j].id);
            } else {
                assert(persistent_ids(s)[p.len() as int] == s[j].id);
            }
        }
        assert forall|x: u64| persistent_ids(s).contains(x) implies exists|j: int|
            0 <= j < s.len() && (#[trigger] s[j]).id == x && !s[j].transient by {
            let m = choose|m: int| 0 <= m < persistent_ids(s).len() && persistent_ids(s)[m] == x;
            if m < p.len() {
                assert(p.contains(x));
                let j = choose|j: int| 0 <= j < t.len() && (#[trigger] t[j]).id == x && !t[j].transient;
                assert(s[j] == t[j]);
            } else {
                assert(s[s.len() - 1].id == x);
            }
        }
    }
}

/// A transient entity whose plan has completed is gone after the next tick:
/// no entity that remains carries its identity.
pub proof fn lemma_tick_reclaims(s: Seq<EntityView>, dt: nat, j: int)
    requires
        plans_wf(s),
        ids_unique(s),
        0 <= j < s.len(),
        s[j].transient,
        s[j].plan.complete(),
    ensures
        forall|k: int| 0 <= k < tick_spec(s, dt).len() ==> (#[trigger] tick_spec(s, dt)[k]).id != s[j].id,
{
    let adv = advanced(s, dt);
    lemma_survivor_origin(adv);
    lemma_complete_stays(s[j].plan, dt);
    assert(adv[j].reclaimable());
    assert forall|k: int| 0 <= k < tick_spec(s, dt).len() implies (#[trigger] tick_spec(s, dt)[k]).id != s[j].id by {
        let m = choose|m: int| 0 <= m < adv.len() && survivors(adv)[k] == adv[m] && !adv[m].reclaimable();
        assert(m != j);
        assert(adv[m].id == s[m].id);
    }
}

/// A tick keeps every persistent entity, in order, whatever its plan's progress.
pub proof fn lemma_tick_keeps_persistent(s: Seq<EntityView>, dt: nat)
    ensures
        persistent_ids(tick_spec(s, dt)) == persistent_ids(s),
    decreases s.len(),
{
    if s.len() > 0 {
        let t = s.drop_last();
        lemma_tick_keeps_persistent(t, dt);
        assert(advanced(s, dt).drop_last() =~= advanced(t, dt));
        let a = advanced(s, dt);
        assert(a.last() == s.last().after(dt));
        if !a.last().reclaimable() {
            assert(survivors(a).drop_last() =~= survivors(a.drop_last()));
        }
    }
}

/// Persistent entities stay through any number of ticks of any lengths: the
/// identities of the persistent entities, and so their number, never change.
pub proof fn lemma_ticks_keep_persistent(s: Seq<EntityView>, dts: Seq<nat>)
    ensures
        persistent_ids(ticks_spec(s, dts)) == persistent_ids(s),
        persistent_ids(ticks_spec(s, dts)).len() == persistent_ids(s).len(),
    decreases dts.len(),
{
    if dts.len() > 0 {
        lemma_ticks_keep_persistent(s, dts.drop_last());
        lemma_tick_keeps_persistent(ticks_spec(s, dts.drop_last()), dts.last());
    }
}

} // verus!
