//! Voxel shapes, and the assignment of grid instances to their cubes.
use crate::animation::{with_state, Animation, AnimationHandler, AnimationStep, AnimationType};
use crate::easing::{AnimationTransition, EaseInEaseOut};
use crate::transition::{VoxelObjects, SHAPE_COUNT};
use crate::vector::{Vec3, ONE};
use rand::seq::SliceRandom;
use vstd::prelude::*;

verus! {

/// Speed of a step that carries an instance onto a cube of the shape.
pub const CUBE_SPEED: i64 = 400_000;

/// Speed of a step that sends a released instance to its idle point.
pub const RELEASE_SPEED: i64 = 250_000;

/// Instances anchored farther than this from the origin are already dispersed.
pub const DISPERSED_RADIUS: i64 = 500_000_000;

/// The step that carries an instance anchored at `anchor` onto `target`, its
/// displacement multiplied by the fixed-point factor `amplify`.
pub open spec fn cube_step(target: Vec3, anchor: Vec3, amplify: int, one_time: bool) -> AnimationStep {
    AnimationStep {
        movement_vector: target.minus(anchor).times(amplify),
        time: 0,
        reversed: false,
        activated: false,
        animating: false,
        speed: CUBE_SPEED,
        animation_transition: AnimationTransition::EaseInEaseOut(EaseInEaseOut),
        one_time_animation: one_time,
    }
}

/// The step that sends a released instance anchored at `anchor` toward `point`; an
/// instance already farther than `DISPERSED_RADIUS` out, or without a point, stays put.
pub open spec fn release_step(point: Option<Vec3>, anchor: Vec3, one_time: bool) -> AnimationStep {
    AnimationStep {
        movement_vector: match point {
            Some(p) => if anchor.norm_sq() <= DISPERSED_RADIUS * DISPERSED_RADIUS {
                p.minus(anchor)
            } else {
                Vec3::spec_zero()
            },
            None => Vec3::spec_zero(),
        },
        time: 0,
        reversed: false,
        activated: false,
        animating: false,
        speed: RELEASE_SPEED,
        animation_transition: AnimationTransition::EaseInEaseOut(EaseInEaseOut),
        one_time_animation: one_time,
    }
}

/// How many of the instances below `i` are not in `chosen`.
pub open spec fn released_rank(chosen: Seq<usize>, i: int) -> int
    decreases i,
{
    if i <= 0 {
        0
    } else {
        released_rank(chosen, i - 1) + if chosen.contains((i - 1) as usize) {
            0int
        } else {
            1int
        }
    }
}

/// The idle point of the released instance of rank `rank`: the points are handed out
/// from the back of `dispersal`.
pub open spec fn dispersal_point(dispersal: Seq<Vec3>, rank: int) -> Option<Vec3> {
    if 0 <= rank < dispersal.len() {
        Some(dispersal[dispersal.len() - 1 - rank])
    } else {
        None
    }
}

/// The step that instance `i` (anchored at `anchor`) receives when cube `k` of `cubes`
/// goes to instance `chosen[k]` and every other instance is released.
pub open spec fn placement_step(
    i: int,
    anchor: Vec3,
    cubes: Seq<Vec3>,
    chosen: Seq<usize>,
    dispersal: Seq<Vec3>,
    amplify: int,
    one_time: bool,
) -> AnimationStep {
    if chosen.contains(i as usize) {
        cube_step(cubes[chosen.index_of(i as usize)], anchor, amplify, one_time)
    } else {
        release_step(dispersal_point(dispersal, released_rank(chosen, i)), anchor, one_time)
    }
}

/// `new` is `old` after each instance received its placement step, and all of its
/// steps were set running; a disabled registry stays as it is.
pub open spec fn placed(
    old: AnimationHandler,
    new: AnimationHandler,
    cubes: Seq<Vec3>,
    chosen: Seq<usize>,
    dispersal: Seq<Vec3>,
    amplify: int,
    one_time: bool,
) -> bool {
    &&& new.disabled == old.disabled
    &&& new.movement_list.len() == old.movement_list.len()
    &&& old.disabled ==> new.movement_list@ == old.movement_list@
    &&& !old.disabled ==> forall|i: int|
        0 <= i < old.movement_list.len() ==> Animation::with_steps(
            old.movement_list@[i],
            #[trigger] new.movement_list@[i],
            with_state(
                old.movement_list@[i].animations@.push(
                    placement_step(
                        i,
                        old.movement_list@[i].grid_pos,
                        cubes,
                        chosen,
                        dispersal,
                        amplify,
                        one_time,
                    ),
                ),
                true,
            ),
        )
}

/// Distinct instance indices, all below `n`.
pub open spec fn valid_pool(pool: Seq<usize>, n: int) -> bool {
    &&& pool.no_duplicates()
    &&& forall|k: int| 0 <= k < pool.len() ==> #[trigger] pool[k] < n
}

fn within_dispersed_radius(p: Vec3) -> (r: bool)
    ensures
        r == (p.norm_sq() <= DISPERSED_RADIUS * DISPERSED_RADIUS),
{
    let lim = DISPERSED_RADIUS;
    let (x, y, z) = (p.x, p.y, p.z);
    if x > lim || x < -lim || y > lim || y < -lim || z > lim || z < -lim {
        proof {
            let (xi, yi, zi) = (x as int, y as int, z as int);
            let l = lim as int;
            assert(xi * xi >= 0 && yi * yi >= 0 && zi * zi >= 0) by (nonlinear_arith);
            if xi > l || xi < -l {
                assert(xi * xi > l * l) by (nonlinear_arith)
                    requires
                        xi > l || xi < -l,
                        l > 0,
                ;
            } else if yi > l || yi < -l {
                assert(yi * yi > l * l) by (nonlinear_arith)
                    requires
                        yi > l || yi < -l,
                        l > 0,
                ;
            } else {
                assert(zi * zi > l * l) by (nonlinear_arith)
                    requires
                        zi > l || zi < -l,
                        l > 0,
                ;
            }
        }
        return false;
    }
    let (xw, yw, zw) = (x as i128, y as i128, z as i128);
    proof {
        let l = lim as int;
        assert(xw * xw <= l * l && yw * yw <= l * l && zw * zw <= l * l) by (nonlinear_arith)
            requires
                -l <= xw <= l,
                -l <= yw <= l,
                -l <= zw <= l,
        ;
        assert(xw * xw >= 0 && yw * yw >= 0 && zw * zw >= 0) by (nonlinear_arith);
    }
    xw * xw + yw * yw + zw * zw <= (lim as i128) * (lim as i128)
}

/// Gives cube `k` of `cubes` to instance `chosen[k]`, moving it there with a step
/// scaled by `amplify`, and releases every other instance toward a point of
/// `dispersal`; every touched record then has all its steps running.
pub fn place_shape(
    animation_handler: &mut AnimationHandler,
    cubes: &Vec<Vec3>,
    chosen: &Vec<usize>,
    dispersal: &Vec<Vec3>,
    amplify: i64,
    is_onetime: bool,
)
    requires
        chosen.len() == cubes.len(),
        valid_pool(chosen@, old(animation_handler).movement_list.len() as int),
    ensures
        placed(
            *old(animation_handler),
            *final(animation_handler),
            cubes@,
            chosen@,
            dispersal@,
            amplify as int,
            is_onetime,
        ),
{
    let n = animation_handler.movement_list.len();
    let mut slot: Vec<Option<usize>> = Vec::new();
    for i in 0..n
        invariant
            slot.len() == i,
            forall|a: int| 0 <= a < i ==> #[trigger] slot@[a] is None,
    {
        slot.push(None);
    }
    for k in 0..chosen.len()
        invariant
            slot.len() == n,
            n == animation_handler.movement_list.len(),
            valid_pool(chosen@, n as int),
            forall|a: int|
                0 <= a < n ==> match #[trigger] slot@[a] {
                    Some(c) => c < k && chosen@[c as int] == a,
                    None => forall|c: int| 0 <= c < k ==> chosen@[c] != a,
                },
    {
        slot[chosen[k]] = Some(k);
    }
    let ghost handler0 = *animation_handler;
    let mut rank: usize = 0;
    for i in 0..n
        invariant
            slot.len() == n,
            n == handler0.movement_list.len(),
            chosen.len() == cubes.len(),
            valid_pool(chosen@, n as int),
            forall|a: int|
                0 <= a < n ==> match #[trigger] slot@[a] {
                    Some(c) => c < chosen.len() && chosen@[c as int] == a,
                    None => !chosen@.contains(a as usize),
                },
            rank == released_rank(chosen@, i as int),
            rank <= i,
            animation_handler.disabled == handler0.disabled,
            animation_handler.movement_list.len() == n,
            handler0.disabled ==> animation_handler.movement_list@ == handler0.movement_list@,
            !handler0.disabled ==> forall|a: int|
                0 <= a < i ==> Animation::with_steps(
                    handler0.movement_list@[a],
                    #[trigger] animation_handler.movement_list@[a],
                    with_state(
                        handler0.movement_list@[a].animations@.push(
                            placement_step(
                                a,
                                handler0.movement_list@[a].grid_pos,
                                cubes@,
                                chosen@,
                                dispersal@,
                                amplify as int,
                                is_onetime,
                            ),
                        ),
                        true,
                    ),
                ),
            forall|a: int|
                i <= a < n ==> #[trigger] animation_handler.movement_list@[a]
                    == handler0.movement_list@[a],
    {
        let anchor = animation_handler.movement_list[i].grid_pos;
        let step = match slot[i] {
            Some(k) => {
                proof {
                    assert(chosen@.contains(i as usize));
                    assert(chosen@[chosen@.index_of(i as usize)] == i);
                    assert(chosen@.index_of(i as usize) == k as int);
                }
                AnimationStep::new(
                    cubes[k].sub(anchor).scale(amplify),
                    CUBE_SPEED,
                    false,
                    false,
                    is_onetime,
                    AnimationTransition::EaseInEaseOut(EaseInEaseOut),
                )
            },
            None => {
                let movement = if rank < dispersal.len() {
                    if within_dispersed_radius(anchor) {
                        dispersal[dispersal.len() - 1 - rank].sub(anchor)
                    } else {
                        Vec3::zero()
                    }
                } else {
                    Vec3::zero()
                };
                AnimationStep::new(
                    movement,
                    RELEASE_SPEED,
                    false,
                    false,
                    is_onetime,
                    AnimationTransition::EaseInEaseOut(EaseInEaseOut),
                )
            },
        };
        assert(step == placement_step(
            i as int,
            anchor,
            cubes@,
            chosen@,
            dispersal@,
            amplify as int,
            is_onetime,
        ));
        if slot[i].is_none() {
            rank = rank + 1;
        }
        animation_handler.set_animation(i, AnimationType::Step(step));
        animation_handler.set_animation_state(i, true);
    }
}

/// The models and palette of a `.vox` file: each voxel as `(x, y, z, palette index)`,
/// each palette entry as `(r, g, b, a)`; `None` when the bytes are no valid file.
pub uninterp spec fn vox_contents(bytes: Seq<u8>) -> Option<
    (Seq<Seq<(u8, u8, u8, u8)>>, Seq<(u8, u8, u8, u8)>),
>;

pub open spec fn models_view(models: Seq<Vec<(u8, u8, u8, u8)>>) -> Seq<Seq<(u8, u8, u8, u8)>> {
    models.map_values(|m: Vec<(u8, u8, u8, u8)>| m@)
}

/// Relies on `dot_vox::load_bytes`, which parses a MagicaVoxel file or fails; what it
/// yields depends on the bytes alone.
#[verifier::external_body]
fn decode_vox(bytes: &[u8]) -> (r: Option<(Vec<Vec<(u8, u8, u8, u8)>>, Vec<(u8, u8, u8, u8)>)>)
    ensures
        r is None <==> vox_contents(bytes@) is None,
        r matches Some(d) ==> vox_contents(bytes@) == Some((models_view(d.0@), d.1@)),
{
    match dot_vox::load_bytes(bytes) {
        Ok(data) => Some((
            data.models.iter().map(|m| m.voxels.iter().map(|v| (v.x, v.y, v.z, v.i)).collect()).collect(),
            data.palette.iter().map(|c| (c.r, c.g, c.b, c.a)).collect(),
        )),
        Err(_) => None,
    }
}

/// Relies on `rand::seq::SliceRandom::shuffle` with the generator of `rand::rng()`,
/// which only swaps elements: the result is a permutation of the input.
#[verifier::external_body]
fn shuffle_indices(v: &mut Vec<usize>)
    ensures
        final(v)@.to_multiset() == old(v)@.to_multiset(),
{
    v.shuffle(&mut rand::rng());
}

proof fn lemma_permutation(s: Seq<usize>, t: Seq<usize>)
    requires
        s.to_multiset() == t.to_multiset(),
    ensures
        t.len() == s.len(),
        s.no_duplicates() ==> t.no_duplicates(),
        forall|x: usize| t.contains(x) <==> s.contains(x),
{
    vstd::seq_lib::to_multiset_len(s);
    vstd::seq_lib::to_multiset_len(t);
    assert forall|x: usize| t.contains(x) <==> s.contains(x) by {
        vstd::seq_lib::to_multiset_contains(s, x);
        vstd::seq_lib::to_multiset_contains(t, x);
    }
    if s.no_duplicates() {
        s.lemma_multiset_has_no_duplicates();
        t.lemma_multiset_has_no_duplicates_conv();
    }
}

/// Number of `true` entries.
pub open spec fn count_true(s: Seq<bool>) -> int
    decreases s.len(),
{
    if s.len() == 0 {
        0
    } else {
        count_true(s.drop_last()) + if s.last() {
            1int
        } else {
            0int
        }
    }
}

proof fn lemma_count_true_set(s: Seq<bool>, j: int)
    requires
        0 <= j < s.len(),
        !s[j],
    ensures
        count_true(s.update(j, true)) == count_true(s) + 1,
    decreases s.len(),
{
    if j < s.len() - 1 {
        lemma_count_true_set(s.drop_last(), j);
        assert(s.update(j, true).drop_last() =~= s.drop_last().update(j, true));
    } else {
        assert(s.update(j, true).drop_last() =~= s.drop_last());
    }
}

/// Each instance of `prev` that is still wanted stays: when the new pool is no larger,
/// it is drawn from `prev`; when it is no smaller, it keeps all of `prev`. (Applies when
/// `prev` was a valid, non-empty pool.)
pub open spec fn recycled(prev: Seq<usize>, next: Seq<usize>, n: int) -> bool {
    valid_pool(prev, n) && prev.len() > 0 ==> {
        &&& next.len() <= prev.len() ==> forall|x: usize| #[trigger] next.contains(x) ==> prev.contains(x)
        &&& next.len() >= prev.len() ==> forall|x: usize| #[trigger] prev.contains(x) ==> next.contains(x)
    }
}

/// The instances a transition draws from: the current pool, topped up with unused
/// instances to `m` entries; every instance when the current pool is empty or invalid.
fn current_pool(cur: &Vec<usize>, n: usize, m: usize) -> (pool: Vec<usize>)
    requires
        m <= n,
    ensures
        valid_pool(pool@, n as int),
        pool.len() >= m,
        valid_pool(cur@, n as int) && cur.len() > 0 ==> {
            &&& pool@.take(cur.len() as int) == cur@
            &&& pool.len() == if m > cur.len() {
                m
            } else {
                cur.len()
            }
        },
{
    let mut marks: Vec<bool> = Vec::new();
    for i in 0..n
        invariant
            marks.len() == i,
            forall|a: int| 0 <= a < i ==> !#[trigger] marks@[a],
            count_true(marks@) == 0,
    {
        let ghost prev = marks@;
        marks.push(false);
        proof {
            assert(marks@.drop_last() =~= prev);
        }
    }
    let mut valid = true;
    for k in 0..cur.len()
        invariant
            marks.len() == n,
            valid ==> {
                &&& count_true(marks@) == k
                &&& cur@.take(k as int).no_duplicates()
                &&& forall|a: int| 0 <= a < k ==> cur@[a] < n
                &&& forall|j: int| 0 <= j < n ==> (#[trigger] marks@[j] <==> cur@.take(k as int).contains(j as usize))
            },
            !valid ==> !valid_pool(cur@, n as int),
    {
        let c = cur[k];
        if valid {
            if c < n && !marks[c] {
                proof {
                    lemma_count_true_set(marks@, c as int);
                    assert(cur@.take(k + 1) =~= cur@.take(k as int).push(c));
                    assert(!cur@.take(k as int).contains(c));
                    assert forall|j: int| 0 <= j < n implies (#[trigger] marks@.update(c as int, true)[j]
                        <==> cur@.take(k + 1).contains(j as usize)) by {
                        if j == c {
                            assert(cur@.take(k + 1)[k as int] == c);
                        } else if cur@.take(k + 1).contains(j as usize) {
                            let a = choose|a: int| 0 <= a < k + 1 && #[trigger] cur@.take(k + 1)[a] == j as usize;
                            assert(cur@.take(k as int)[a] == j as usize);
                        }
                    }
                }
                marks[c] = true;
            } else {
                proof {
                    if c < n {
                        let a = choose|a: int| 0 <= a < k && #[trigger] cur@.take(k as int)[a] == c;
                        assert(cur@[a] == cur@[k as int]);
                    }
                }
                valid = false;
            }
        }
    }
    let mut pool: Vec<usize> = Vec::new();
    if !valid || cur.len() == 0 {
        for i in 0..n
            invariant
                pool@ == Seq::new(i as nat, |a: int| a as usize),
        {
            pool.push(i);
            proof {
                assert(pool@ =~= Seq::new((i + 1) as nat, |a: int| a as usize));
            }
        }
        return pool;
    }
    proof {
        assert(cur@.take(cur.len() as int) =~= cur@);
    }
    for k in 0..cur.len()
        invariant
            pool@ == cur@.take(k as int),
    {
        pool.push(cur[k]);
        proof {
            assert(pool@ =~= cur@.take(k + 1));
        }
    }
    proof {
        assert(pool@ =~= cur@);
    }
    if m > cur.len() {
        let mut excluded: Vec<usize> = Vec::new();
        for j in 0..n
            invariant
                marks.len() == n,
                count_true(marks@) == cur.len(),
                excluded.len() + count_true(marks@.take(j as int)) == j,
                excluded@.no_duplicates(),
                forall|a: int|
                    0 <= a < excluded.len() ==> #[trigger] excluded@[a] < j && !marks@[excluded@[a] as int],
        {
            proof {
                assert(marks@.take(j + 1).drop_last() =~= marks@.take(j as int));
            }
            if !marks[j] {
                excluded.push(j);
            }
        }
        proof {
            assert(marks@.take(n as int) =~= marks@);
        }
        let ghost before = excluded@;
        shuffle_indices(&mut excluded);
        proof {
            lemma_permutation(before, excluded@);
            assert forall|x: usize| #[trigger] excluded@.contains(x) implies x < n && !cur@.contains(x) by {
                assert(before.contains(x));
                let a = choose|a: int| 0 <= a < before.len() && #[trigger] before[a] == x;
                assert(!marks@[before[a] as int]);
            }
        }
        let deficit = m - cur.len();
        for k in 0..deficit
            invariant
                deficit <= excluded.len(),
                deficit == m - cur.len(),
                excluded@.no_duplicates(),
                forall|x: usize| #[trigger] excluded@.contains(x) ==> x < n && !cur@.contains(x),
                pool@ == cur@ + excluded@.take(k as int),
                valid_pool(pool@, n as int),
        {
            let x = excluded[k];
            proof {
                assert(excluded@.contains(x));
                assert(!pool@.contains(x)) by {
                    if pool@.contains(x) {
                        let a = choose|a: int| 0 <= a < pool@.len() && #[trigger] pool@[a] == x;
                        if a >= cur.len() {
                            assert(excluded@[a - cur.len()] == x);
                        } else {
                            assert(cur@[a] == x);
                        }
                    }
                }
            }
            pool.push(x);
            proof {
                assert(pool@ =~= cur@ + excluded@.take(k + 1));
            }
        }
        proof {
            assert(pool@.take(cur.len() as int) =~= cur@);
        }
    } else {
        proof {
            assert(pool@.take(cur.len() as int) =~= cur@);
        }
    }
    pool
}

/// A voxel model: where each cube stands, and its palette color as `(r, g, b)`.
pub struct Object {
    pub cubes: Vec<Vec3>,
    pub color: Vec<(u8, u8, u8)>,
}

/// Position of a voxel: the file's `z` axis points up, so `y` and `z` swap.
pub open spec fn voxel_cube(v: (u8, u8, u8, u8)) -> Vec3 {
    Vec3 { x: (v.0 * ONE) as i64, y: (v.2 * ONE) as i64, z: (v.1 * ONE) as i64 }
}

/// Every voxel of the model names an entry of a palette of `palette_len` colors.
pub open spec fn model_fits(model: Seq<(u8, u8, u8, u8)>, palette_len: int) -> bool {
    forall|k: int| 0 <= k < model.len() ==> (#[trigger] model[k]).3 < palette_len
}

/// Index of the last model that fits the palette.
pub open spec fn last_fitting_model(models: Seq<Seq<(u8, u8, u8, u8)>>, palette_len: int) -> Option<
    int,
>
    decreases models.len(),
{
    if models.len() == 0 {
        None
    } else if model_fits(models.last(), palette_len) {
        Some(models.len() - 1)
    } else {
        last_fitting_model(models.drop_last(), palette_len)
    }
}

proof fn lemma_last_fitting_model(models: Seq<Seq<(u8, u8, u8, u8)>>, palette_len: int)
    ensures
        last_fitting_model(models, palette_len) matches Some(i) ==> 0 <= i < models.len()
            && model_fits(models[i], palette_len),
    decreases models.len(),
{
    if models.len() > 0 {
        lemma_last_fitting_model(models.drop_last(), palette_len);
    }
}

/// The shape catalog and the instances that show the current shape.
pub struct VoxelHandler {
    /// One slot per [`VoxelObjects`] variant, by its ordinal.
    pub voxels_map: Vec<Option<Object>>,
    pub current_voxel: Option<VoxelObjects>,
    pub current_cubes: Vec<usize>,
}

impl VoxelHandler {
    /// The catalog has one slot for each shape.
    pub open spec fn wf(&self) -> bool {
        self.voxels_map.len() == SHAPE_COUNT
    }

    /// The model loaded for `shape`, if any.
    pub open spec fn shape(&self, shape: VoxelObjects) -> Option<Object> {
        self.voxels_map@[shape.ordinal()]
    }

    /// An empty catalog, with no current shape.
    pub fn new() -> (r: Self)
        ensures
            r.wf(),
            forall|s: VoxelObjects| #[trigger] r.shape(s) is None,
            r.current_voxel is None,
            r.current_cubes@.len() == 0,
    {
        let mut voxels_map: Vec<Option<Object>> = Vec::new();
        for i in 0..SHAPE_COUNT
            invariant
                voxels_map.len() == i,
                forall|a: int| 0 <= a < i ==> #[trigger] voxels_map@[a] is None,
        {
            voxels_map.push(None);
        }
        Self { voxels_map, current_cubes: Vec::new(), current_voxel: None }
    }

    /// Loads `shape` from the bytes of a `.vox` file: see [`Self::add_voxel_models`].
    /// Bytes that are no valid file leave the catalog as it is.
    pub fn add_voxel(&mut self, path: &[u8], voxel_type: VoxelObjects)
        requires
            old(self).wf(),
        ensures
            final(self).wf(),
            final(self).current_voxel == old(self).current_voxel,
            final(self).current_cubes@ == old(self).current_cubes@,
            vox_contents(path@) is None ==> final(self).voxels_map@ == old(self).voxels_map@,
            vox_contents(path@) matches Some(d) ==> Self::models_added(
                *old(self),
                *final(self),
                d.0,
                d.1,
                voxel_type,
            ),
    {
        match decode_vox(path) {
            Some((models, palette)) => self.add_voxel_models(&models, &palette, voxel_type),
            None => {},
        }
    }

    /// `new` is `old` after loading `shape` from `models` and `palette`: the last model
    /// that fits the palette becomes the shape, and nothing changes if none does.
    pub open spec fn models_added(
        old: VoxelHandler,
        new: VoxelHandler,
        models: Seq<Seq<(u8, u8, u8, u8)>>,
        palette: Seq<(u8, u8, u8, u8)>,
        shape: VoxelObjects,
    ) -> bool {
        match last_fitting_model(models, palette.len() as int) {
            None => new.voxels_map@ == old.voxels_map@,
            Some(m) => {
                &&& new.voxels_map@ == old.voxels_map@.update(shape.ordinal(), new.voxels_map@[shape.ordinal()])
                &&& new.shape(shape) matches Some(o) && o.cubes@ == models[m].map_values(
                    |v: (u8, u8, u8, u8)| voxel_cube(v),
                ) && o.color@ == models[m].map_values(
                    |v: (u8, u8, u8, u8)| (palette[v.3 as int].0, palette[v.3 as int].1, palette[v.3 as int].2),
                )
            },
        }
    }

    /// Makes the last model of `models` whose voxels all name an entry of `palette`
    /// the shape `voxel_type`; nothing changes if no model fits.
    pub fn add_voxel_models(
        &mut self,
        models: &Vec<Vec<(u8, u8, u8, u8)>>,
        palette: &Vec<(u8, u8, u8, u8)>,
        voxel_type: VoxelObjects,
    )
        requires
            old(self).wf(),
        ensures
            final(self).wf(),
            final(self).current_voxel == old(self).current_voxel,
            final(self).current_cubes@ == old(self).current_cubes@,
            Self::models_added(*old(self), *final(self), models_view(models@), palette@, voxel_type),
    {
        let ghost mv = models_view(models@);
        let mut chosen: Option<usize> = None;
        for m in 0..models.len()
            invariant
                mv == models_view(models@),
                mv.len() == models.len(),
                match last_fitting_model(mv.take(m as int), palette.len() as int) {
                    None => chosen is None,
                    Some(i) => chosen == Some(i as usize),
                },
        {
            let model = &models[m];
            let mut fits = true;
            for k in 0..model.len()
                invariant
                    fits <==> forall|a: int| 0 <= a < k ==> (#[trigger] model@[a]).3 < palette.len(),
            {
                if model[k].3 as usize >= palette.len() {
                    fits = false;
                }
            }
            proof {
                assert(mv.take(m + 1).drop_last() =~= mv.take(m as int));
                assert(mv.take(m + 1).last() == model@);
                lemma_last_fitting_model(mv.take(m as int), palette.len() as int);
            }
            if fits {
                chosen = Some(m);
            }
        }
        proof {
            assert(mv.take(models.len() as int) =~= mv);
            lemma_last_fitting_model(mv, palette.len() as int);
        }
        if let Some(m) = chosen {
            let model = &models[m];
            let mut cubes: Vec<Vec3> = Vec::new();
            let mut color: Vec<(u8, u8, u8)> = Vec::new();
            for k in 0..model.len()
                invariant
                    model_fits(model@, palette.len() as int),
                    cubes@ == model@.take(k as int).map_values(|v: (u8, u8, u8, u8)| voxel_cube(v)),
                    color@ == model@.take(k as int).map_values(
                        |v: (u8, u8, u8, u8)| (palette@[v.3 as int].0, palette@[v.3 as int].1, palette@[v.3 as int].2),
                    ),
            {
                let v = model[k];
                cubes.push(Vec3::new(v.0 as i64 * ONE, v.2 as i64 * ONE, v.1 as i64 * ONE));
                let c = palette[v.3 as usize];
                color.push((c.0, c.1, c.2));
                proof {
                    assert(cubes@ =~= model@.take(k + 1).map_values(|v: (u8, u8, u8, u8)| voxel_cube(v)));
                    assert(color@ =~= model@.take(k + 1).map_values(
                        |v: (u8, u8, u8, u8)| (palette@[v.3 as int].0, palette@[v.3 as int].1, palette@[v.3 as int].2),
                    ));
                }
            }
            proof {
                assert(model@.take(model@.len() as int) =~= model@);
            }
            self.voxels_map[voxel_type.index()] = Some(Object { cubes, color });
        }
    }

    /// The model loaded for `current_object`, if any.
    pub fn get_object(&self, current_object: VoxelObjects) -> (r: Option<&Object>)
        requires
            self.wf(),
        ensures
            r is None <==> self.shape(current_object) is None,
            r matches Some(o) ==> self.shape(current_object) == Some(*o),
    {
        match &self.voxels_map[current_object.index()] {
            Some(object) => Some(object),
            None => None,
        }
    }

    /// `new` and `h1` are `old` and `h0` after a transition to `shape`.
    ///
    /// When the shape is in the catalog and has no more cubes than there are instances,
    /// it becomes the current shape, its cubes go to the distinct instances of the new
    /// pool `new.current_cubes` (cube `k` to instance `new.current_cubes[k]`), all other
    /// instances are released, and the pool is recycled from the previous one.
    /// Otherwise nothing changes.
    pub open spec fn transitioned(
        old: VoxelHandler,
        new: VoxelHandler,
        h0: AnimationHandler,
        h1: AnimationHandler,
        shape: VoxelObjects,
        dispersal: Seq<Vec3>,
        amplify: int,
        one_time: bool,
    ) -> bool {
        let n = h0.movement_list.len() as int;
        &&& new.voxels_map@ == old.voxels_map@
        &&& if Self::can_show(old, shape, n) {
            let cubes = old.shape(shape)->Some_0.cubes@;
            &&& new.current_voxel == Some(shape)
            &&& new.current_cubes.len() == cubes.len()
            &&& valid_pool(new.current_cubes@, n)
            &&& placed(h0, h1, cubes, new.current_cubes@, dispersal, amplify, one_time)
            &&& recycled(old.current_cubes@, new.current_cubes@, n)
        } else {
            &&& new.current_voxel == old.current_voxel
            &&& new.current_cubes@ == old.current_cubes@
            &&& h1 == h0
        }
    }

    /// `shape` is in the catalog and has no more cubes than the `n` instances.
    pub open spec fn can_show(handler: VoxelHandler, shape: VoxelObjects, n: int) -> bool {
        handler.shape(shape) matches Some(o) && o.cubes.len() <= n
    }

    fn transition_to_object_base(
        &mut self,
        object: VoxelObjects,
        animation_handler: &mut AnimationHandler,
        amplify: i64,
        is_onetime: bool,
        dispersal: &Vec<Vec3>,
    )
        requires
            old(self).wf(),
        ensures
            final(self).wf(),
            Self::transitioned(
                *old(self),
                *final(self),
                *old(animation_handler),
                *final(animation_handler),
                object,
                dispersal@,
                amplify as int,
                is_onetime,
            ),
    {
        let n = animation_handler.movement_list.len();
        let chosen: Vec<usize>;
        match &self.voxels_map[object.index()] {
            None => {
                return;
            },
            Some(target) => {
                if target.cubes.len() > n {
                    return;
                }
                let m = target.cubes.len();
                let mut pool = current_pool(&self.current_cubes, n, m);
                let ghost pool0 = pool@;
                shuffle_indices(&mut pool);
                proof {
                    lemma_permutation(pool0, pool@);
                }
                let len = pool.len();
                let mut picked: Vec<usize> = Vec::new();
                for k in 0..m
                    invariant
                        len == pool.len(),
                        m <= len,
                        picked@ == Seq::new(k as nat, |a: int| pool@[len - 1 - a]),
                {
                    picked.push(pool[len - 1 - k]);
                    proof {
                        assert(picked@ =~= Seq::new((k + 1) as nat, |a: int| pool@[len - 1 - a]));
                    }
                }
                proof {
                    let cur = self.current_cubes@;
                    assert forall|x: usize| #[trigger] picked@.contains(x) implies pool@.contains(x)
                        && x < n by {
                        let a = choose|a: int| 0 <= a < picked@.len() && #[trigger] picked@[a] == x;
                        assert(pool@[len - 1 - a] == x);
                        assert(pool@.contains(x));
                        assert(pool0.contains(x));
                        let b = choose|b: int| 0 <= b < pool0.len() && #[trigger] pool0[b] == x;
                        assert(pool0[b] < n);
                    }
                    assert forall|k: int| 0 <= k < picked@.len() implies #[trigger] picked@[k] < n by {
                        assert(picked@.contains(picked@[k]));
                    }
                    assert(picked@.no_duplicates()) by {
                        assert forall|a: int, b: int|
                            0 <= a < picked@.len() && 0 <= b < picked@.len() && a != b implies picked@[a]
                            != picked@[b] by {
                            assert(picked@[a] == pool@[len - 1 - a]);
                            assert(picked@[b] == pool@[len - 1 - b]);
                        }
                    }
                    if valid_pool(cur, n as int) && cur.len() > 0 {
                        if m <= cur.len() {
                            assert(pool0 =~= cur);
                            assert forall|x: usize| #[trigger] picked@.contains(x) implies cur.contains(x) by {}
                        }
                        if m >= cur.len() {
                            assert forall|x: usize| #[trigger] cur.contains(x) implies picked@.contains(x) by {
                                let a = choose|a: int| 0 <= a < cur.len() && #[trigger] cur[a] == x;
                                assert(pool0[a] == x);
                                assert(pool0.contains(x));
                                assert(pool@.contains(x));
                                let b = choose|b: int| 0 <= b < len && #[trigger] pool@[b] == x;
                                assert(picked@[len - 1 - b] == x);
                            }
                        }
                    }
                }
                place_shape(animation_handler, &target.cubes, &picked, dispersal, amplify, is_onetime);
                chosen = picked;
            },
        }
        self.current_voxel = Some(object);
        self.current_cubes = chosen;
    }

    /// Morphs the grid into `object`: a one-shot transition at full amplitude, whose
    /// released instances head for the points of `dispersal`.
    pub fn transition_to_object(
        &mut self,
        object: VoxelObjects,
        animation_handler: &mut AnimationHandler,
        dispersal: &Vec<Vec3>,
    )
        requires
            old(self).wf(),
        ensures
            final(self).wf(),
            Self::transitioned(
                *old(self),
                *final(self),
                *old(animation_handler),
                *final(animation_handler),
                object,
                dispersal@,
                ONE as int,
                true,
            ),
    {
        self.transition_to_object_base(object, animation_handler, ONE, true, dispersal);
    }

    /// Replays the transition to the current shape with displacements scaled by the
    /// fixed-point factor `amplify`, as steps that do not fold into the anchors; with
    /// no current shape nothing changes.
    pub fn explode_object(
        &mut self,
        animation_handler: &mut AnimationHandler,
        amplify: i64,
        dispersal: &Vec<Vec3>,
    )
        requires
            old(self).wf(),
        ensures
            final(self).wf(),
            old(self).current_voxel is None ==> final(self).current_cubes@ == old(self).current_cubes@
                && final(self).current_voxel == old(self).current_voxel && final(self).voxels_map@
                == old(self).voxels_map@ && *final(animation_handler) == *old(animation_handler),
            old(self).current_voxel matches Some(shape) ==> Self::transitioned(
                *old(self),
                *final(self),
                *old(animation_handler),
                *final(animation_handler),
                shape,
                dispersal@,
                amplify as int,
                false,
            ),
    {
        if let Some(current_voxel) = self.current_voxel {
            self.transition_to_object_base(current_voxel, animation_handler, amplify, false, dispersal);
        }
    }
}


/// A placement whose steps do not fold (an explosion) adds no one-shot step: a
/// registry that held none still holds none, so its anchors stay put while the
/// explosion runs (see `lemma_anchor_kept_without_one_shot_steps`).
pub proof fn lemma_explosion_adds_no_one_shot_steps(
    old: AnimationHandler,
    new: AnimationHandler,
    cubes: Seq<Vec3>,
    chosen: Seq<usize>,
    dispersal: Seq<Vec3>,
    amplify: int,
)
    requires
        placed(old, new, cubes, chosen, dispersal, amplify, false),
        forall|i: int, j: int|
            0 <= i < old.movement_list.len() && 0 <= j < old.movement_list@[i].animations.len()
                ==> !(#[trigger] old.movement_list@[i].animations@[j]).one_time_animation,
    ensures
        forall|i: int, j: int|
            0 <= i < new.movement_list.len() && 0 <= j < new.movement_list@[i].animations.len()
                ==> !(#[trigger] new.movement_list@[i].animations@[j]).one_time_animation,
{
    if !old.disabled {
        assert forall|i: int, j: int|
            0 <= i < new.movement_list.len() && 0 <= j
                < new.movement_list@[i].animations.len() implies !(
        #[trigger] new.movement_list@[i].animations@[j]).one_time_animation by {
            let r = old.movement_list@[i];
            let pushed = r.animations@.push(
                placement_step(i, r.grid_pos, cubes, chosen, dispersal, amplify, false),
            );
            assert(Animation::with_steps(r, new.movement_list@[i], with_state(pushed, true)));
            assert(new.movement_list@[i].animations@[j] == with_state(pushed, true)[j]);
            if j < r.animations.len() {
                assert(pushed[j] == r.animations@[j]);
            }
        }
    }
}


/// Two transitions in a row share `min(|previous pool|, |new pool|)` instances: the
/// smaller of the two pools lies wholly inside the larger one.
pub proof fn lemma_recycled_overlap(prev: Seq<usize>, next: Seq<usize>, n: int)
    requires
        valid_pool(prev, n),
        prev.len() > 0,
        valid_pool(next, n),
        recycled(prev, next, n),
    ensures
        next.to_set().intersect(prev.to_set()).len() == if next.len() <= prev.len() {
            next.len()
        } else {
            prev.len()
        },
{
    prev.unique_seq_to_set();
    next.unique_seq_to_set();
    if next.len() <= prev.len() {
        assert(next.to_set().intersect(prev.to_set()) =~= next.to_set()) by {
            assert forall|x: usize| next.to_set().contains(x) implies prev.to_set().contains(x) by {
                assert(next.contains(x));
            }
        }
    } else {
        assert(next.to_set().intersect(prev.to_set()) =~= prev.to_set()) by {
            assert forall|x: usize| prev.to_set().contains(x) implies next.to_set().contains(x) by {
                assert(prev.contains(x));
            }
        }
    }
}

} // verus!
