//! Per-instance animation records and the registry that advances them.
use crate::easing::{
    clamp_unit, clamp_unit_i128, ease_in_ease_out_loop, ease_loop_value, get_height_color,
    height_color, AnimationTransition,
};
use crate::easing::{ease_in_half, ease_out_half};
use crate::vector::{
    div_trunc, div_trunc_i128, mul_fixed, mul_i64, sat_add, sat_add_i64, Vec3, COORD_LIMIT, ONE,
};
use vstd::prelude::*;

verus! {

/// Delay of the periodic motion of an instance anchored at `p`: `(x + z) / 20`, a
/// diagonal wave, so that neighbouring instances do not move in lockstep.
pub open spec fn wave_delay(p: Vec3) -> int {
    div_trunc(p.x + p.z, 20)
}

fn wave_delay_of(p: Vec3) -> (r: i64)
    ensures
        r == wave_delay(p),
{
    let s = p.x as i128 + p.z as i128;
    let r = div_trunc_i128(s, 20);
    proof {
        let a = s as int;
        if a >= 0 {
            vstd::arithmetic::div_mod::lemma_div_is_ordered(a, 0x1_0000_0000_0000_0000, 20);
        } else {
            vstd::arithmetic::div_mod::lemma_div_is_ordered(-a, 0x1_0000_0000_0000_0000, 20);
        }
        assert(0x1_0000_0000_0000_0000int / 20 < 0x7fff_ffff_ffff_ffff);
    }
    r as i64
}

/// A periodic motion that never ends.
#[derive(Clone, Copy, Debug, PartialEq, Eq, Structural)]
pub struct AnimationPersistent {
    pub time: i64,
    pub movement_vector: Vec3,
    pub animation_transition: AnimationTransition,
}

impl AnimationPersistent {
    pub fn new(movement_vector: Vec3, animation_transition: AnimationTransition) -> (r: Self)
        ensures
            r == (AnimationPersistent { time: 0, movement_vector, animation_transition }),
    {
        Self { time: 0, movement_vector, animation_transition }
    }

    /// The animation after its clock moved on by `dt`.
    pub open spec fn advanced(self, dt: int) -> Self {
        AnimationPersistent { time: sat_add(self.time as int, dt) as i64, ..self }
    }

    /// Displacement from `start` at the animation's current time.
    pub open spec fn offset(self, start: Vec3, delay: int) -> Vec3 {
        self.animation_transition.spec_lerp(
            start,
            start.plus(self.movement_vector),
            self.time as int,
            delay,
        ).minus(start)
    }
}

/// A transient displacement of one instance, run from time 0 to `ONE` (or back).
#[derive(Clone, Copy, Debug, PartialEq, Eq, Structural)]
pub struct AnimationStep {
    pub movement_vector: Vec3,
    pub time: i64,
    pub reversed: bool,
    pub activated: bool,
    pub animating: bool,
    pub speed: i64,
    pub animation_transition: AnimationTransition,
    pub one_time_animation: bool,
}

impl AnimationStep {
    /// Constructs a new step at time 0.
    pub fn new(
        movement_vector: Vec3,
        speed: i64,
        reversed: bool,
        activated: bool,
        one_time_animation: bool,
        animation_transition: AnimationTransition,
    ) -> (r: Self)
        ensures
            r == (AnimationStep {
                movement_vector,
                time: 0,
                reversed,
                activated,
                animating: false,
                speed,
                animation_transition,
                one_time_animation,
            }),
    {
        Self {
            movement_vector,
            time: 0,
            reversed,
            activated,
            speed,
            one_time_animation,
            animating: false,
            animation_transition,
        }
    }

    /// The step after one tick of `dt`: an activated step moves its time by
    /// `dt * speed`, backward when reversed, clamped to `[0, ONE]`.
    pub open spec fn advanced(self, dt: int) -> Self {
        if !self.activated {
            self
        } else {
            let delta = mul_fixed(dt, self.speed as int);
            let t = if self.reversed {
                clamp_unit(self.time - delta)
            } else {
                clamp_unit(self.time + delta)
            };
            AnimationStep {
                time: t as i64,
                animating: if t == 0 || t == ONE {
                    false
                } else {
                    self.animating
                },
                ..self
            }
        }
    }

    /// Displacement from the anchor `start` at the step's current time.
    pub open spec fn offset(self, start: Vec3) -> Vec3 {
        if self.reversed {
            let top = start.plus(self.movement_vector);
            Vec3::spec_zero().minus(
                self.animation_transition.spec_lerp(top, start, self.time as int, 0).minus(top),
            )
        } else {
            self.animation_transition.spec_lerp(
                start,
                start.plus(self.movement_vector),
                self.time as int,
                0,
            ).minus(start)
        }
    }

    /// A one-shot step at its end folds its displacement into the anchor.
    pub open spec fn folds(self) -> bool {
        self.one_time_animation && self.time == ONE
    }

    /// The step has reached its terminal bound and leaves the active list.
    pub open spec fn is_finished(self) -> bool {
        (self.reversed && self.time == 0) || (self.one_time_animation && self.time == ONE)
    }

    fn advance(self, dt: i64) -> (r: Self)
        ensures
            r == self.advanced(dt as int),
    {
        if !self.activated {
            return self;
        }
        let prod = mul_i64(dt, self.speed);
        let delta = div_trunc_i128(prod, ONE as i128);
        proof {
            let p = prod as int;
            if p >= 0 {
                vstd::arithmetic::div_mod::lemma_div_is_ordered(p, 0x4000_0000_0000_0000_0000_0000_0000_0000, 1_000_000);
            } else {
                vstd::arithmetic::div_mod::lemma_div_is_ordered(-p, 0x4000_0000_0000_0000_0000_0000_0000_0000, 1_000_000);
            }
            vstd::arithmetic::div_mod::lemma_div_pos_is_pos(if p >= 0 { p } else { -p }, 1_000_000);
            assert(0x4000_0000_0000_0000_0000_0000_0000_0000int / 1_000_000 < 0x1000_0000_0000_0000_0000_0000_0000);
        }
        let t = if self.reversed {
            clamp_unit_i128(self.time as i128 - delta)
        } else {
            clamp_unit_i128(self.time as i128 + delta)
        };
        let animating = if t == 0 || t == ONE as i128 {
            false
        } else {
            self.animating
        };
        AnimationStep { time: t as i64, animating, ..self }
    }

    fn offset_from(&self, start: Vec3) -> (r: Vec3)
        ensures
            r == self.offset(start),
    {
        if self.reversed {
            let top = start.add(self.movement_vector);
            Vec3::zero().sub(self.animation_transition.lerp(top, start, self.time, 0).sub(top))
        } else {
            self.animation_transition.lerp(start, start.add(self.movement_vector), self.time, 0).sub(
                start,
            )
        }
    }
}

/// An animation handed to the registry.
#[derive(Clone, Copy, Debug, PartialEq, Eq, Structural)]
pub enum AnimationType {
    Persistent(AnimationPersistent),
    Step(AnimationStep),
}

/// `base` plus the displacements of the persistent animations from anchor `start`,
/// added left to right.
pub open spec fn persistent_sum(ps: Seq<AnimationPersistent>, base: Vec3, start: Vec3, delay: int) -> Vec3
    decreases ps.len(),
{
    if ps.len() == 0 {
        base
    } else {
        persistent_sum(ps.drop_last(), base, start, delay).plus(ps.last().offset(start, delay))
    }
}

/// Runs the (already advanced) steps in order from anchor `start`: returns the anchor
/// after the folds of one-shot steps that ended, and the summed step displacement.
/// Each step's displacement is taken from the anchor as it stands when its turn comes.
pub open spec fn run_steps(steps: Seq<AnimationStep>, start: Vec3) -> (Vec3, Vec3)
    decreases steps.len(),
{
    if steps.len() == 0 {
        (start, Vec3::spec_zero())
    } else {
        let (anchor, delta) = run_steps(steps.drop_last(), start);
        let s = steps.last();
        if !s.activated {
            (anchor, delta)
        } else {
            let m = s.offset(anchor);
            (
                if s.folds() {
                    anchor.plus(m)
                } else {
                    anchor
                },
                delta.plus(m),
            )
        }
    }
}

/// Some activated step of the (already advanced) steps folds into the anchor.
pub open spec fn any_fold(steps: Seq<AnimationStep>) -> bool
    decreases steps.len(),
{
    if steps.len() == 0 {
        false
    } else {
        any_fold(steps.drop_last()) || (steps.last().activated && steps.last().folds())
    }
}

/// The steps that have not reached their terminal bound, in order.
pub open spec fn live_steps(steps: Seq<AnimationStep>) -> Seq<AnimationStep>
    decreases steps.len(),
{
    if steps.len() == 0 {
        Seq::empty()
    } else if steps.last().is_finished() {
        live_steps(steps.drop_last())
    } else {
        live_steps(steps.drop_last()).push(steps.last())
    }
}

pub open spec fn advance_persistents(ps: Seq<AnimationPersistent>, dt: int) -> Seq<
    AnimationPersistent,
> {
    ps.map_values(|p: AnimationPersistent| p.advanced(dt))
}

pub open spec fn advance_steps(ss: Seq<AnimationStep>, dt: int) -> Seq<AnimationStep> {
    ss.map_values(|s: AnimationStep| s.advanced(dt))
}

/// The animation state of one instance.
#[derive(Clone, Debug)]
pub struct Animation {
    pub activated: bool,
    pub time: i64,
    pub start: Vec3,
    pub current_pos: Vec3,
    pub grid_pos: Vec3,
    pub persistent_animation: Vec<AnimationPersistent>,
    pub animations: Vec<AnimationStep>,
    pub color: Vec3,
}

impl Animation {
    /// `new` is `old` after one tick of `dt`.
    ///
    /// An inactive record stays as it is. An active one advances its clock and every
    /// animation; the periodic displacements are taken from the old anchor, the step
    /// displacements from the anchor as one-shot folds move it; `current_pos` is the old
    /// anchor plus all of them, `start` takes the folds, `grid_pos` is locked to the new
    /// anchor on a tick with a fold and kept otherwise, the color follows the loop
    /// curve, and finished steps leave the list.
    pub open spec fn ticked(old: Animation, new: Animation, dt: int) -> bool {
        if !old.activated {
            new == old
        } else {
            let delay = wave_delay(old.start);
            let time = sat_add(old.time as int, dt);
            let ps = advance_persistents(old.persistent_animation@, dt);
            let ss = advance_steps(old.animations@, dt);
            let (anchor, delta) = run_steps(ss, old.start);
            &&& new.activated
            &&& new.time == time
            &&& new.persistent_animation@ == ps
            &&& new.animations@ == live_steps(ss)
            &&& new.start == anchor
            &&& new.grid_pos == if any_fold(ss) {
                anchor
            } else {
                old.grid_pos
            }
            &&& new.current_pos == persistent_sum(ps, old.start, old.start, delay).plus(delta)
            &&& new.color == height_color(ease_loop_value(time, delay, ONE as int))
        }
    }

    fn tick(&mut self, dt: i64)
        ensures
            Animation::ticked(*old(self), *final(self), dt as int),
    {
        if !self.activated {
            return;
        }
        let ghost before = *self;
        self.time = sat_add_i64(self.time, dt);
        let delay = wave_delay_of(self.start);
        let start0 = self.start;

        let mut total = start0;
        let mut ps: Vec<AnimationPersistent> = Vec::new();
        let n = self.persistent_animation.len();
        for i in 0..n
            invariant
                n == self.persistent_animation.len(),
                self.persistent_animation@ == before.persistent_animation@,
                ps@ == advance_persistents(before.persistent_animation@.take(i as int), dt as int),
                total == persistent_sum(ps@, start0, start0, delay as int),
        {
            let mut p = self.persistent_animation[i];
            p.time = sat_add_i64(p.time, dt);
            let moved = p.animation_transition.lerp(start0, start0.add(p.movement_vector), p.time, delay);
            total = total.add(moved.sub(start0));
            let ghost prev = ps@;
            ps.push(p);
            proof {
                assert(ps@.drop_last() =~= prev);
                assert(before.persistent_animation@.take(i + 1) =~= before.persistent_animation@.take(
                    i as int,
                ).push(before.persistent_animation@[i as int]));
                assert(ps@ =~= advance_persistents(before.persistent_animation@.take(i + 1), dt as int));
            }
        }
        proof {
            assert(before.persistent_animation@.take(n as int) =~= before.persistent_animation@);
        }
        let lerp = ease_in_ease_out_loop(self.time, delay, ONE);
        self.color = get_height_color(lerp);

        let mut anchor = start0;
        let mut delta = Vec3::zero();
        let mut kept: Vec<AnimationStep> = Vec::new();
        let mut folded = false;
        let ghost adv = advance_steps(before.animations@, dt as int);
        let m = self.animations.len();
        for j in 0..m
            invariant
                m == self.animations.len(),
                self.animations@ == before.animations@,
                adv == advance_steps(before.animations@, dt as int),
                (anchor, delta) == run_steps(adv.take(j as int), start0),
                kept@ == live_steps(adv.take(j as int)),
                folded == any_fold(adv.take(j as int)),
        {
            let s = self.animations[j].advance(dt);
            proof {
                assert(adv.take(j + 1) =~= adv.take(j as int).push(s));
                assert(adv.take(j + 1).drop_last() =~= adv.take(j as int));
            }
            if s.activated {
                let mv = s.offset_from(anchor);
                if s.one_time_animation && s.time == ONE {
                    anchor = anchor.add(mv);
                    folded = true;
                }
                delta = delta.add(mv);
            }
            if !((s.reversed && s.time == 0) || (s.one_time_animation && s.time == ONE)) {
                kept.push(s);
            }
        }
        proof {
            assert(adv.take(m as int) =~= adv);
        }
        self.start = anchor;
        if folded {
            self.grid_pos = anchor;
        }
        self.current_pos = total.add(delta);
        self.persistent_animation = ps;
        self.animations = kept;
    }
}

/// Steps kept in order, with `activated` and `animating` set to `state`.
pub open spec fn with_state(ss: Seq<AnimationStep>, state: bool) -> Seq<AnimationStep> {
    ss.map_values(|s: AnimationStep| AnimationStep { activated: state, animating: state, ..s })
}

/// Steps kept in order, each set to run backward.
pub open spec fn all_reversed(ss: Seq<AnimationStep>) -> Seq<AnimationStep> {
    ss.map_values(|s: AnimationStep| AnimationStep { reversed: true, ..s })
}

/// The persistent animations among `anims`, in order.
pub open spec fn persistents_of(anims: Seq<AnimationType>) -> Seq<AnimationPersistent>
    decreases anims.len(),
{
    if anims.len() == 0 {
        Seq::empty()
    } else {
        match anims.last() {
            AnimationType::Persistent(p) => persistents_of(anims.drop_last()).push(p),
            AnimationType::Step(_) => persistents_of(anims.drop_last()),
        }
    }
}

/// The step animations among `anims`, in order.
pub open spec fn steps_of(anims: Seq<AnimationType>) -> Seq<AnimationStep>
    decreases anims.len(),
{
    if anims.len() == 0 {
        Seq::empty()
    } else {
        match anims.last() {
            AnimationType::Step(s) => steps_of(anims.drop_last()).push(s),
            AnimationType::Persistent(_) => steps_of(anims.drop_last()),
        }
    }
}

fn persistent_offsets(ps: &Vec<AnimationPersistent>, base: Vec3, start: Vec3, delay: i64) -> (r: Vec3)
    ensures
        r == persistent_sum(ps@, base, start, delay as int),
{
    let mut total = base;
    for i in 0..ps.len()
        invariant
            total == persistent_sum(ps@.take(i as int), base, start, delay as int),
    {
        let p = ps[i];
        let moved = p.animation_transition.lerp(start, start.add(p.movement_vector), p.time, delay);
        total = total.add(moved.sub(start));
        proof {
            assert(ps@.take(i + 1).drop_last() =~= ps@.take(i as int));
        }
    }
    proof {
        assert(ps@.take(ps@.len() as int) =~= ps@);
    }
    total
}

fn steps_with_state(ss: &Vec<AnimationStep>, state: bool) -> (r: Vec<AnimationStep>)
    ensures
        r@ == with_state(ss@, state),
{
    let mut r: Vec<AnimationStep> = Vec::new();
    for i in 0..ss.len()
        invariant
            r@ == with_state(ss@.take(i as int), state),
    {
        r.push(AnimationStep { activated: state, animating: state, ..ss[i] });
        proof {
            assert(r@ =~= with_state(ss@.take(i + 1), state));
        }
    }
    proof {
        assert(ss@.take(ss@.len() as int) =~= ss@);
    }
    r
}

fn steps_reversed(ss: &Vec<AnimationStep>) -> (r: Vec<AnimationStep>)
    ensures
        r@ == all_reversed(ss@),
{
    let mut r: Vec<AnimationStep> = Vec::new();
    for i in 0..ss.len()
        invariant
            r@ == all_reversed(ss@.take(i as int)),
    {
        r.push(AnimationStep { reversed: true, ..ss[i] });
        proof {
            assert(r@ =~= all_reversed(ss@.take(i + 1)));
        }
    }
    proof {
        assert(ss@.take(ss@.len() as int) =~= ss@);
    }
    r
}

fn copy_vec<T: Copy>(v: &Vec<T>) -> (r: Vec<T>)
    ensures
        r@ == v@,
{
    let mut r: Vec<T> = Vec::new();
    for i in 0..v.len()
        invariant
            r@ == v@.take(i as int),
    {
        r.push(v[i]);
        proof {
            assert(r@ =~= v@.take(i + 1));
        }
    }
    proof {
        assert(v@.take(v@.len() as int) =~= v@);
    }
    r
}

/// The parts of a rendered instance that the animation engine reads and writes.
#[derive(Clone, Copy, Debug, PartialEq, Eq, Structural)]
pub struct Instance {
    pub position: Vec3,
    pub should_render: bool,
    pub scale: i64,
    pub color: Vec3,
    pub size: Vec3,
    pub bounding: Vec3,
}

/// One animation record per instance, index-aligned with the instance list.
pub struct AnimationHandler {
    pub movement_list: Vec<Animation>,
    pub disabled: bool,
}

impl Animation {
    /// `new` is `old` with the step list replaced by `steps`, all else kept.
    pub open spec fn with_steps(old: Animation, new: Animation, steps: Seq<AnimationStep>) -> bool {
        &&& new.activated == old.activated
        &&& new.time == old.time
        &&& new.start == old.start
        &&& new.current_pos == old.current_pos
        &&& new.grid_pos == old.grid_pos
        &&& new.persistent_animation@ == old.persistent_animation@
        &&& new.animations@ == steps
        &&& new.color == old.color
    }

    /// `new` is `old` with the animation `anim` appended to the list of its kind.
    pub open spec fn appended(old: Animation, new: Animation, anim: AnimationType) -> bool {
        &&& new.activated == old.activated
        &&& new.time == old.time
        &&& new.start == old.start
        &&& new.current_pos == old.current_pos
        &&& new.grid_pos == old.grid_pos
        &&& new.color == old.color
        &&& match anim {
            AnimationType::Persistent(p) => {
                &&& new.persistent_animation@ == old.persistent_animation@.push(p)
                &&& new.animations@ == old.animations@
            },
            AnimationType::Step(s) => {
                &&& new.persistent_animation@ == old.persistent_animation@
                &&& new.animations@ == old.animations@.push(s)
            },
        }
    }

    /// The record `new` and the instance `inst_new` after the reset of record `old`
    /// (whose instance, if `has_instance`, was `inst_old`).
    pub open spec fn settled(
        old: Animation,
        new: Animation,
        has_instance: bool,
        inst_old: Instance,
        inst_new: Instance,
    ) -> bool {
        if has_instance && old.animations.len() > 0 {
            let p = old.settled_position();
            &&& inst_new == (Instance { position: p, bounding: inst_old.size.plus(p), ..inst_old })
            &&& new.activated == old.activated
            &&& new.time == old.time
            &&& new.start == p
            &&& new.grid_pos == old.grid_pos
            &&& new.current_pos == old.current_pos
            &&& new.persistent_animation@ == old.persistent_animation@
            &&& new.animations@.len() == 0
            &&& new.color == old.color
        } else {
            new == old
        }
    }

    /// The anchor that the record's current position has once the persistent
    /// displacements are taken out of it.
    pub open spec fn settled_position(self) -> Vec3 {
        self.current_pos.minus(
            persistent_sum(
                self.persistent_animation@,
                Vec3::spec_zero(),
                self.start,
                wave_delay(self.start),
            ),
        )
    }
}

impl AnimationHandler {
    /// A registry with one record per position in `positions`, each anchored there,
    /// active, with copies of the persistent and step animations of `animations`.
    pub fn new(positions: &Vec<Vec3>, animations: Vec<AnimationType>) -> (r: AnimationHandler)
        requires
            positions.len() > 0,
        ensures
            !r.disabled,
            r.movement_list.len() == positions.len(),
            forall|i: int|
                0 <= i < positions.len() ==> {
                    let a = #[trigger] r.movement_list@[i];
                    &&& a.activated
                    &&& a.time == 0
                    &&& a.start == positions@[i]
                    &&& a.current_pos == positions@[i]
                    &&& a.grid_pos == positions@[i]
                    &&& a.persistent_animation@ == persistents_of(animations@)
                    &&& a.animations@ == steps_of(animations@)
                    &&& a.color == Vec3::spec_zero()
                },
    {
        let mut steps: Vec<AnimationStep> = Vec::new();
        let mut persistents: Vec<AnimationPersistent> = Vec::new();
        for k in 0..animations.len()
            invariant
                steps@ == steps_of(animations@.take(k as int)),
                persistents@ == persistents_of(animations@.take(k as int)),
        {
            proof {
                assert(animations@.take(k + 1).drop_last() =~= animations@.take(k as int));
            }
            match animations[k] {
                AnimationType::Step(step) => steps.push(step),
                AnimationType::Persistent(persistent) => persistents.push(persistent),
            }
        }
        proof {
            assert(animations@.take(animations@.len() as int) =~= animations@);
        }
        let mut movement_list: Vec<Animation> = Vec::new();
        for i in 0..positions.len()
            invariant
                movement_list.len() == i,
                steps@ == steps_of(animations@),
                persistents@ == persistents_of(animations@),
                forall|j: int|
                    0 <= j < i ==> {
                        let a = #[trigger] movement_list@[j];
                        &&& a.activated
                        &&& a.time == 0
                        &&& a.start == positions@[j]
                        &&& a.current_pos == positions@[j]
                        &&& a.grid_pos == positions@[j]
                        &&& a.persistent_animation@ == persistents_of(animations@)
                        &&& a.animations@ == steps_of(animations@)
                        &&& a.color == Vec3::spec_zero()
                    },
        {
            let position = positions[i];
            movement_list.push(
                Animation {
                    activated: true,
                    start: position,
                    current_pos: position,
                    grid_pos: position,
                    persistent_animation: copy_vec(&persistents),
                    animations: copy_vec(&steps),
                    color: Vec3::zero(),
                    time: 0,
                },
            );
        }
        AnimationHandler { disabled: false, movement_list }
    }

    pub fn disable(&mut self)
        ensures
            final(self).disabled,
            final(self).movement_list@ == old(self).movement_list@,
    {
        self.disabled = true;
    }

    pub fn enable(&mut self)
        ensures
            !final(self).disabled,
            final(self).movement_list@ == old(self).movement_list@,
    {
        self.disabled = false;
    }

    /// Appends `animation_type` to the record at `index`; nothing happens while the
    /// registry is disabled or when `index` is out of range.
    pub fn set_animation(&mut self, index: usize, animation_type: AnimationType)
        ensures
            final(self).disabled == old(self).disabled,
            final(self).movement_list.len() == old(self).movement_list.len(),
            old(self).disabled || index >= old(self).movement_list.len() ==> final(self).movement_list@ == old(self).movement_list@,
            !old(self).disabled && index < old(self).movement_list.len() ==> {
                &&& Animation::appended(
                    old(self).movement_list@[index as int],
                    final(self).movement_list@[index as int],
                    animation_type,
                )
                &&& forall|j: int|
                    0 <= j < old(self).movement_list.len() && j != index ==> #[trigger] final(self).movement_list@[j] == old(self).movement_list@[j]
            },
    {
        if self.disabled {
            return;
        }
        if index < self.movement_list.len() {
            let animation = &mut self.movement_list[index];
            match animation_type {
                AnimationType::Persistent(animation_persistent) => {
                    animation.persistent_animation.push(animation_persistent);
                },
                AnimationType::Step(animation_step) => {
                    animation.animations.push(animation_step);
                },
            }
        }
    }

    /// Some record holds a one-shot step that has not finished yet.
    pub open spec fn locked(&self) -> bool {
        exists|i: int, j: int|
            0 <= i < self.movement_list.len() && 0 <= j
                < self.movement_list@[i].animations.len()
                && (#[trigger] self.movement_list@[i].animations@[j]).one_time_animation
    }

    /// True iff any record holds a one-shot step.
    pub fn is_locked(&mut self) -> (r: bool)
        ensures
            r == old(self).locked(),
            final(self).disabled == old(self).disabled,
            final(self).movement_list@ == old(self).movement_list@,
    {
        let mut locked = false;
        for i in 0..self.movement_list.len()
            invariant
                locked <==> exists|a: int, b: int|
                    0 <= a < i && 0 <= b < self.movement_list@[a].animations.len()
                        && (#[trigger] self.movement_list@[a].animations@[b]).one_time_animation,
        {
            let steps = &self.movement_list[i].animations;
            for j in 0..steps.len()
                invariant
                    steps == self.movement_list@[i as int].animations,
                    locked <==> (exists|a: int, b: int|
                        0 <= a < i && 0 <= b < self.movement_list@[a].animations.len()
                            && (#[trigger] self.movement_list@[a].animations@[b]).one_time_animation)
                        || (exists|b: int|
                        0 <= b < j && (#[trigger] steps@[b]).one_time_animation),
            {
                if steps[j].one_time_animation {
                    locked = true;
                }
            }
        }
        locked
    }

    /// Sets `activated` and `animating` of every step of the record at `index` to
    /// `state`; nothing happens while disabled or when `index` is out of range.
    pub fn set_animation_state(&mut self, index: usize, state: bool)
        ensures
            final(self).disabled == old(self).disabled,
            final(self).movement_list.len() == old(self).movement_list.len(),
            old(self).disabled || index >= old(self).movement_list.len() ==> final(self).movement_list@
                == old(self).movement_list@,
            !old(self).disabled && index < old(self).movement_list.len() ==> {
                &&& Animation::with_steps(
                    old(self).movement_list@[index as int],
                    final(self).movement_list@[index as int],
                    with_state(old(self).movement_list@[index as int].animations@, state),
                )
                &&& forall|j: int|
                    0 <= j < old(self).movement_list.len() && j != index ==> #[trigger] final(self).movement_list@[j]
                        == old(self).movement_list@[j]
            },
    {
        if self.disabled {
            return;
        }
        if index < self.movement_list.len() {
            let animation = &mut self.movement_list[index];
            animation.animations = steps_with_state(&animation.animations, state);
        }
    }

    /// Sets every step of every record to run backward; nothing happens while disabled.
    pub fn reverse(&mut self)
        ensures
            final(self).disabled == old(self).disabled,
            final(self).movement_list.len() == old(self).movement_list.len(),
            old(self).disabled ==> final(self).movement_list@ == old(self).movement_list@,
            !old(self).disabled ==> forall|i: int|
                0 <= i < old(self).movement_list.len() ==> Animation::with_steps(
                    old(self).movement_list@[i],
                    #[trigger] final(self).movement_list@[i],
                    all_reversed(old(self).movement_list@[i].animations@),
                ),
    {
        if self.disabled {
            return;
        }
        let ghost list0 = self.movement_list@;
        let n = self.movement_list.len();
        for i in 0..n
            invariant
                n == list0.len(),
                self.movement_list.len() == n,
                self.disabled == old(self).disabled,
                list0 == old(self).movement_list@,
                forall|a: int|
                    0 <= a < i ==> Animation::with_steps(
                        list0[a],
                        #[trigger] self.movement_list@[a],
                        all_reversed(list0[a].animations@),
                    ),
                forall|a: int| i <= a < n ==> #[trigger] self.movement_list@[a] == list0[a],
        {
            let animation = &mut self.movement_list[i];
            animation.animations = steps_reversed(&animation.animations);
        }
    }

    /// Advances every active record by one tick of `dt`; nothing happens while disabled.
    pub fn animate(&mut self, dt: i64)
        ensures
            final(self).disabled == old(self).disabled,
            final(self).movement_list.len() == old(self).movement_list.len(),
            old(self).disabled ==> final(self).movement_list@ == old(self).movement_list@,
            !old(self).disabled ==> forall|i: int|
                0 <= i < old(self).movement_list.len() ==> Animation::ticked(
                    old(self).movement_list@[i],
                    #[trigger] final(self).movement_list@[i],
                    dt as int,
                ),
    {
        if self.disabled {
            return;
        }
        let ghost list0 = self.movement_list@;
        let n = self.movement_list.len();
        for i in 0..n
            invariant
                n == list0.len(),
                self.movement_list.len() == n,
                self.disabled == old(self).disabled,
                list0 == old(self).movement_list@,
                forall|a: int|
                    0 <= a < i ==> Animation::ticked(
                        list0[a],
                        #[trigger] self.movement_list@[a],
                        dt as int,
                    ),
                forall|a: int| i <= a < n ==> #[trigger] self.movement_list@[a] == list0[a],
        {
            self.movement_list[i].tick(dt);
        }
    }

    /// For every record with pending steps whose instance exists: takes the persistent
    /// displacement out of its current position, makes the result the record's anchor
    /// `start` and the instance's position (with
    /// `bounding = size + position`), and drops the steps. Other records and instances
    /// stay as they are.
    pub fn reset_instance_position_to_current_position(&mut self, instances: &mut Vec<Instance>)
        ensures
            final(self).disabled == old(self).disabled,
            final(self).movement_list.len() == old(self).movement_list.len(),
            final(instances).len() == old(instances).len(),
            forall|i: int|
                0 <= i < old(self).movement_list.len() ==> Animation::settled(
                    old(self).movement_list@[i],
                    #[trigger] final(self).movement_list@[i],
                    i < old(instances).len(),
                    old(instances)@[i],
                    final(instances)@[i],
                ),
            forall|i: int|
                0 <= i < old(instances).len() && !(i < old(self).movement_list.len()
                    && old(self).movement_list@[i].animations.len() > 0) ==> #[trigger] final(instances)@[i]
                    == old(instances)@[i],
    {
        let ghost list0 = self.movement_list@;
        let ghost inst0 = instances@;
        let n = self.movement_list.len();
        for i in 0..n
            invariant
                n == list0.len(),
                self.movement_list.len() == n,
                instances.len() == inst0.len(),
                self.disabled == old(self).disabled,
                list0 == old(self).movement_list@,
                inst0 == old(instances)@,
                forall|a: int|
                    0 <= a < i ==> Animation::settled(
                        list0[a],
                        #[trigger] self.movement_list@[a],
                        a < inst0.len(),
                        inst0[a],
                        instances@[a],
                    ),
                forall|a: int| i <= a < n ==> #[trigger] self.movement_list@[a] == list0[a],
                forall|a: int|
                    0 <= a < inst0.len() && !(a < i && list0[a].animations.len() > 0)
                        ==> #[trigger] instances@[a] == inst0[a],
        {
            if i < instances.len() && self.movement_list[i].animations.len() > 0 {
                let animation = &mut self.movement_list[i];
                let delay = wave_delay_of(animation.start);
                let total = persistent_offsets(
                    &animation.persistent_animation,
                    Vec3::zero(),
                    animation.start,
                    delay,
                );
                let position = animation.current_pos.sub(total);
                let mut instance = instances[i];
                instance.position = position;
                instance.bounding = instance.size.add(position);
                instances[i] = instance;
                animation.start = position;
                animation.animations = Vec::new();
            }
        }
    }

    /// Writes the resolved position and color of the record at `index` into `instance`,
    /// with `bounding = size + position`; nothing happens when the index is out of range
    /// or the record is inactive. This works while disabled too.
    pub fn update_instance(&mut self, index: usize, instance: &mut Instance)
        ensures
            final(self).disabled == old(self).disabled,
            final(self).movement_list@ == old(self).movement_list@,
            index < old(self).movement_list.len() && old(self).movement_list@[index as int].activated
                ==> *final(instance) == (Instance {
                position: old(self).movement_list@[index as int].current_pos,
                bounding: old(instance).size.plus(old(self).movement_list@[index as int].current_pos),
                color: old(self).movement_list@[index as int].color,
                ..*old(instance)
            }),
            !(index < old(self).movement_list.len() && old(self).movement_list@[index as int].activated)
                ==> *final(instance) == *old(instance),
    {
        if index < self.movement_list.len() {
            let animation = &self.movement_list[index];
            if !animation.activated {
                return;
            }
            instance.position = animation.current_pos;
            instance.bounding = instance.size.add(animation.current_pos);
            instance.color = animation.color;
        }
    }
}

} // verus!

verus! {

proof fn lemma_run_steps_without_folds(steps: Seq<AnimationStep>, start: Vec3)
    requires
        forall|j: int| 0 <= j < steps.len() ==> !(#[trigger] steps[j]).one_time_animation,
    ensures
        run_steps(steps, start).0 == start,
        !any_fold(steps),
    decreases steps.len(),
{
    if steps.len() > 0 {
        lemma_run_steps_without_folds(steps.drop_last(), start);
    }
}

proof fn lemma_live_steps_subset(steps: Seq<AnimationStep>)
    ensures
        forall|j: int|
            0 <= j < live_steps(steps).len() ==> steps.contains(#[trigger] live_steps(steps)[j]),
    decreases steps.len(),
{
    if steps.len() > 0 {
        lemma_live_steps_subset(steps.drop_last());
        let rest = live_steps(steps.drop_last());
        assert forall|j: int| 0 <= j < live_steps(steps).len() implies steps.contains(
            #[trigger] live_steps(steps)[j],
        ) by {
            if j < rest.len() {
                let x = rest[j];
                assert(steps.drop_last().contains(x));
                let a = choose|a: int| 0 <= a < steps.len() - 1 && #[trigger] steps.drop_last()[a] == x;
                assert(steps[a] == x);
            } else {
                assert(steps[steps.len() - 1] == steps.last());
            }
        }
    }
}

/// A tick of a record that holds no one-shot step leaves its anchor where it was, and
/// the record still holds no one-shot step; so steps that never fold (such as those of
/// an explosion) can run to their end without moving the anchor.
pub proof fn lemma_anchor_kept_without_one_shot_steps(old: Animation, new: Animation, dt: int)
    requires
        Animation::ticked(old, new, dt),
        forall|j: int|
            0 <= j < old.animations.len() ==> !(#[trigger] old.animations@[j]).one_time_animation,
    ensures
        new.start == old.start,
        new.grid_pos == old.grid_pos,
        forall|j: int|
            0 <= j < new.animations.len() ==> !(#[trigger] new.animations@[j]).one_time_animation,
{
    if old.activated {
        let ss = advance_steps(old.animations@, dt);
        assert forall|j: int| 0 <= j < ss.len() implies !(#[trigger] ss[j]).one_time_animation by {
            assert(ss[j] == old.animations@[j].advanced(dt));
        }
        lemma_run_steps_without_folds(ss, old.start);
        lemma_live_steps_subset(ss);
        assert forall|j: int| 0 <= j < new.animations.len() implies !(
        #[trigger] new.animations@[j]).one_time_animation by {
            assert(ss.contains(live_steps(ss)[j]));
        }
    }
}

/// A record whose only step is an activated, forward, one-shot step: the tick in which
/// the step reaches `ONE` folds its displacement into the anchor once and drops it;
/// before that, the anchor stays and the step runs on.
pub proof fn lemma_one_shot_step_folds_once(old: Animation, new: Animation, dt: int)
    requires
        Animation::ticked(old, new, dt),
        old.activated,
        old.animations.len() == 1,
        old.animations@[0].activated,
        old.animations@[0].one_time_animation,
        !old.animations@[0].reversed,
    ensures
        ({
            let s = old.animations@[0].advanced(dt);
            if s.time == ONE {
                &&& new.start == old.start.plus(s.offset(old.start))
                &&& new.grid_pos == new.start
                &&& new.animations.len() == 0
            } else {
                &&& new.start == old.start
                &&& new.grid_pos == old.grid_pos
                &&& new.animations@ == seq![s]
            }
        }),
{
    let ss = advance_steps(old.animations@, dt);
    assert(ss.len() == 1);
    assert(ss.drop_last() =~= Seq::<AnimationStep>::empty());
    assert(ss.last() == old.animations@[0].advanced(dt));
    assert(run_steps(ss.drop_last(), old.start) == (old.start, Vec3::spec_zero()));
    assert(live_steps(ss.drop_last()) == Seq::<AnimationStep>::empty());
    assert(!any_fold(ss.drop_last()));
}

/// A record whose only step runs backward: the tick in which the step reaches 0 drops
/// it without moving the anchor.
pub proof fn lemma_reversed_step_leaves_anchor(old: Animation, new: Animation, dt: int)
    requires
        Animation::ticked(old, new, dt),
        old.activated,
        old.animations.len() == 1,
        old.animations@[0].reversed,
        old.animations@[0].advanced(dt).time == 0,
    ensures
        new.start == old.start,
        new.grid_pos == old.grid_pos,
        new.animations.len() == 0,
        !ends_at_half(old.animations@[0].animation_transition) ==> new.current_pos == persistent_sum(
            advance_persistents(old.persistent_animation@, dt),
            old.start,
            old.start,
            wave_delay(old.start),
        ).plus(Vec3::spec_zero()),
{
    let ss = advance_steps(old.animations@, dt);
    assert(ss.len() == 1);
    assert(ss.drop_last() =~= Seq::<AnimationStep>::empty());
    assert(ss.last() == old.animations@[0].advanced(dt));
    assert(run_steps(ss.drop_last(), old.start) == (old.start, Vec3::spec_zero()));
    assert(live_steps(ss.drop_last()) == Seq::<AnimationStep>::empty());
    assert(!any_fold(ss.drop_last()));
    let st = ss.last();
    if !ends_at_half(st.animation_transition) && st.activated {
        let top = old.start.plus(st.movement_vector);
        lemma_curve_ends(st.animation_transition, 0);
        lemma_times_zero(old.start.minus(top));
        assert(st.animation_transition.spec_lerp(top, old.start, 0, 0) == top);
        assert(st.offset(old.start) == Vec3::spec_zero());
    }
}

/// The loop curve, whose blend swings around one half instead of running from 0 to 1.
pub open spec fn ends_at_half(t: AnimationTransition) -> bool {
    t is EaseInEaseOutLoop
}

proof fn lemma_curve_ends(t: AnimationTransition, delay: int)
    requires
        !ends_at_half(t),
    ensures
        t.blend(0, delay) == 0,
        t.blend(ONE as int, delay) == ONE,
{
    crate::easing::lemma_ease_out_cubic_shape(0, ONE as int);
    vstd::arithmetic::div_mod::lemma_div_of0(ONE * ONE);
    vstd::arithmetic::div_mod::lemma_div_of0(2 * ONE * ONE);
    assert(4 * (0int * 0int * 0int) == 0) by (nonlinear_arith);
    assert(ease_in_half(0) == 0);
    assert(ease_out_half(ONE as int) == ONE);
}

proof fn lemma_times_zero(v: Vec3)
    ensures
        v.times(0) == Vec3::spec_zero(),
{
}

proof fn lemma_times_one(v: Vec3)
    requires
        v.in_range(),
    ensures
        v.times(ONE as int) == v,
{
    assert forall|x: int| -COORD_LIMIT <= x <= COORD_LIMIT implies mul_fixed(x, ONE as int) == x by {
        vstd::arithmetic::div_mod::lemma_div_multiples_vanish(x, ONE as int);
        vstd::arithmetic::div_mod::lemma_div_multiples_vanish(-x, ONE as int);
        vstd::arithmetic::mul::lemma_mul_is_commutative(x, ONE as int);
        vstd::arithmetic::mul::lemma_mul_is_commutative(-x, ONE as int);
    }
}

/// The components of `a + b` all lie within `COORD_LIMIT`, so the sum does not saturate.
pub open spec fn sum_fits(a: Vec3, b: Vec3) -> bool {
    (Vec3 { x: (a.x + b.x) as i64, y: (a.y + b.y) as i64, z: (a.z + b.z) as i64 }).in_range()
        && -COORD_LIMIT <= a.x + b.x <= COORD_LIMIT && -COORD_LIMIT <= a.y + b.y <= COORD_LIMIT
        && -COORD_LIMIT <= a.z + b.z <= COORD_LIMIT
}

/// A one-shot step on an S-curve or ease-out, whose target does not saturate, lands
/// the anchor exactly on `start + movement_vector` on the tick it ends.
pub proof fn lemma_one_shot_step_lands_on_target(old: Animation, new: Animation, dt: int)
    requires
        Animation::ticked(old, new, dt),
        old.activated,
        old.animations.len() == 1,
        old.animations@[0].activated,
        old.animations@[0].one_time_animation,
        !old.animations@[0].reversed,
        !ends_at_half(old.animations@[0].animation_transition),
        old.animations@[0].advanced(dt).time == ONE,
        old.start.in_range(),
        old.animations@[0].movement_vector.in_range(),
        sum_fits(old.start, old.animations@[0].movement_vector),
    ensures
        new.start == (Vec3 {
            x: (old.start.x + old.animations@[0].movement_vector.x) as i64,
            y: (old.start.y + old.animations@[0].movement_vector.y) as i64,
            z: (old.start.z + old.animations@[0].movement_vector.z) as i64,
        }),
        new.grid_pos == new.start,
        new.animations.len() == 0,
{
    lemma_one_shot_step_folds_once(old, new, dt);
    let s = old.animations@[0].advanced(dt);
    let mv = s.movement_vector;
    let end = old.start.plus(mv);
    assert(end.minus(old.start) == mv);
    lemma_curve_ends(s.animation_transition, 0);
    lemma_times_one(mv);
    assert(s.animation_transition.spec_lerp(old.start, end, ONE as int, 0) == end);
    assert(s.offset(old.start) == mv);
}


/// A record that holds at most one step, and that step an activated forward one-shot.
pub open spec fn single_one_shot(r: Animation) -> bool {
    &&& r.animations.len() <= 1
    &&& r.animations.len() == 1 ==> {
        let s = r.animations@[0];
        s.activated && s.one_time_animation && !s.reversed
    }
}

proof fn lemma_single_one_shot_tick(old: Animation, new: Animation, dt: int)
    requires
        Animation::ticked(old, new, dt),
        single_one_shot(old),
    ensures
        single_one_shot(new),
        new.start != old.start ==> old.animations.len() == 1 && new.animations.len() == 0,
        new.grid_pos != old.grid_pos ==> old.animations.len() == 1 && new.animations.len() == 0,
        old.animations.len() == 0 ==> new.animations.len() == 0 && new.start == old.start
            && new.grid_pos == old.grid_pos,
{
    if old.activated {
        let ss = advance_steps(old.animations@, dt);
        if old.animations.len() == 1 {
            lemma_one_shot_step_folds_once(old, new, dt);
        } else {
            assert(ss =~= Seq::<AnimationStep>::empty());
        }
    }
}

/// A one-shot step run tick after tick, alone in its record, folds into the anchor at
/// most once: the anchor (`start` and `grid_pos`) moves only on the tick that drops the step (the tick at which
/// its time reaches `ONE`, see `lemma_one_shot_step_folds_once`), and once the step is
/// gone the anchor stays where it is.
pub proof fn lemma_one_shot_step_folds_at_most_once(recs: Seq<Animation>, dt: int)
    requires
        recs.len() >= 1,
        single_one_shot(recs[0]),
        forall|k: int| 0 <= k < recs.len() - 1 ==> Animation::ticked(#[trigger] recs[k], recs[k + 1], dt),
    ensures
        forall|k: int|
            0 <= k < recs.len() - 1 && ((#[trigger] recs[k + 1]).start != recs[k].start || recs[k + 1].grid_pos
                != recs[k].grid_pos) ==> recs[k].animations.len()
                == 1 && recs[k + 1].animations.len() == 0,
        forall|k: int, j: int|
            0 <= k <= j < recs.len() && (#[trigger] recs[k]).animations.len() == 0 ==> (#[trigger] recs[j]).start
                == recs[k].start && recs[j].grid_pos == recs[k].grid_pos && recs[j].animations.len() == 0,
    decreases recs.len(),
{
    if recs.len() > 1 {
        let rest = recs.drop_first();
        assert(Animation::ticked(recs[0], recs[1], dt));
        lemma_single_one_shot_tick(recs[0], recs[1], dt);
        assert forall|k: int| 0 <= k < rest.len() - 1 implies Animation::ticked(
            #[trigger] rest[k],
            rest[k + 1],
            dt,
        ) by {
            assert(rest[k] == recs[k + 1]);
            assert(Animation::ticked(recs[k + 1], recs[k + 2], dt));
        }
        lemma_one_shot_step_folds_at_most_once(rest, dt);
        assert forall|k: int|
            0 <= k < recs.len() - 1 && ((#[trigger] recs[k + 1]).start != recs[k].start || recs[k + 1].grid_pos
                != recs[k].grid_pos) implies recs[k].animations.len()
                == 1 && recs[k + 1].animations.len() == 0 by {
            if k > 0 {
                assert(rest[k - 1] == recs[k]);
                assert(rest[k] == recs[k + 1]);
            }
        }
        assert forall|k: int, j: int|
            0 <= k <= j < recs.len() && (#[trigger] recs[k]).animations.len() == 0 implies (
            #[trigger] recs[j]).start == recs[k].start && recs[j].grid_pos == recs[k].grid_pos
                && recs[j].animations.len() == 0 by {
            if k == 0 {
                if j > 0 {
                    assert(rest[0] == recs[1]);
                    assert(rest[j - 1] == recs[j]);
                }
            } else {
                assert(rest[k - 1] == recs[k]);
                assert(rest[j - 1] == recs[j]);
            }
        }
    }
}


/// A record that holds no one-shot step keeps its anchor (`start` and `grid_pos`)
/// through any run of ticks: an explosion can play to its end and leave it in place.
pub proof fn lemma_anchor_kept_over_ticks(recs: Seq<Animation>, dt: int)
    requires
        recs.len() >= 1,
        forall|j: int|
            0 <= j < recs[0].animations.len() ==> !(#[trigger] recs[0].animations@[j]).one_time_animation,
        forall|k: int| 0 <= k < recs.len() - 1 ==> Animation::ticked(#[trigger] recs[k], recs[k + 1], dt),
    ensures
        forall|k: int|
            0 <= k < recs.len() ==> (#[trigger] recs[k]).start == recs[0].start && recs[k].grid_pos
                == recs[0].grid_pos,
    decreases recs.len(),
{
    if recs.len() > 1 {
        let rest = recs.drop_first();
        assert(Animation::ticked(recs[0], recs[1], dt));
        lemma_anchor_kept_without_one_shot_steps(recs[0], recs[1], dt);
        assert forall|k: int| 0 <= k < rest.len() - 1 implies Animation::ticked(
            #[trigger] rest[k],
            rest[k + 1],
            dt,
        ) by {
            assert(rest[k] == recs[k + 1]);
            assert(Animation::ticked(recs[k + 1], recs[k + 2], dt));
        }
        assert(rest[0] == recs[1]);
        lemma_anchor_kept_over_ticks(rest, dt);
        assert forall|k: int| 0 <= k < recs.len() implies (#[trigger] recs[k]).start == recs[0].start
            && recs[k].grid_pos == recs[0].grid_pos by {
            if k > 0 {
                assert(rest[k - 1] == recs[k]);
            }
        }
    }
}

} // verus!
