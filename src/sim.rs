//! The simulation: one target chasing the pointer, projectiles charged,
//! launched at it, moved and culled, and a counter of those in flight.
use vstd::prelude::*;
use crate::events::{BulletEvent, apply_events, deletes, net, num_adds, num_deletes};
use crate::geometry::Point;
use crate::motion::{
    DIR_ONE, Direction, aim, fine_bounded, launch_direction, lemma_to_fine_bounded, pursue,
    pursuit_step, to_fine,
};
use crate::timer::TimerGate;
use crate::viewport::Viewport;

verus! {

/// Distance a projectile covers per frame, in whole units.
pub const SPEED: i64 = 5;

/// Nanoseconds between two growth steps of a charging projectile.
pub const CHARGE_INTERVAL: u64 = 100_000_000;

/// A projectile being charged while the trigger is held.
#[derive(Clone, Copy, Debug, PartialEq, Eq, Structural)]
pub struct Charge {
    pub pos: Point,
    pub growth: u64,
}

impl Charge {
    /// Visual scale: one plus the growth so far.
    pub open spec fn scale_spec(self) -> int {
        1 + self.growth
    }

    pub fn scale(&self) -> (r: u128)
        ensures
            r == self.scale_spec(),
    {
        1 + self.growth as u128
    }
}

/// A projectile in flight. Its position is kept in `1 / DIR_ONE` units, so
/// that a fractional velocity is followed exactly.
#[derive(Clone, Copy, Debug, PartialEq, Eq, Structural)]
pub struct Bullet {
    pub x: i64,
    pub y: i64,
    pub speed: i64,
    pub dir: Direction,
}

pub open spec fn bullet_wf(b: Bullet) -> bool {
    &&& b.speed == SPEED
    &&& -2 * DIR_ONE <= b.dir.x_scale <= 2 * DIR_ONE
    &&& -2 * DIR_ONE <= b.dir.y_scale <= 2 * DIR_ONE
}

/// `v` held to the range of `i64`.
pub open spec fn clamp_i64(v: int) -> i64 {
    if v < i64::MIN {
        i64::MIN
    } else if v > i64::MAX {
        i64::MAX
    } else {
        v as i64
    }
}

/// A projectile after one frame of flight. Its coordinates stop at the ends
/// of the `i64` range, far outside any viewport.
pub open spec fn advance(b: Bullet) -> Bullet {
    Bullet {
        x: clamp_i64(b.x + b.speed * b.dir.x_scale),
        y: clamp_i64(b.y + b.speed * b.dir.y_scale),
        ..b
    }
}

/// The projectile that a charge at `c` becomes when released with the target
/// at `t` (in fixed point).
pub open spec fn launched(c: Charge, t: Point) -> Bullet {
    Bullet { x: to_fine(c.pos).x, y: to_fine(c.pos).y, speed: SPEED, dir: aim(to_fine(c.pos), t) }
}

/// Screen x of a projectile, in `1 / DIR_ONE` units.
pub open spec fn screen_x(vp: Viewport, b: Bullet) -> int {
    b.x - vp.left * DIR_ONE
}

/// Screen y of a projectile, in `1 / DIR_ONE` units.
pub open spec fn screen_y(vp: Viewport, b: Bullet) -> int {
    vp.top * DIR_ONE - b.y
}

/// A projectile is visible when its screen position lies in
/// `[0, width] x [0, height]`, edges included.
pub open spec fn visible(vp: Viewport, b: Bullet) -> bool {
    &&& 0 <= screen_x(vp, b) <= vp.width * DIR_ONE
    &&& 0 <= screen_y(vp, b) <= vp.height * DIR_ONE
}

/// A projectile whose screen position is a corner of the viewport is visible;
/// one a whole unit beyond any edge is not.
pub proof fn visibility_edges(vp: Viewport, b: Bullet)
    requires
        vp.wf(),
    ensures
        screen_x(vp, b) == 0 && screen_y(vp, b) == 0 ==> visible(vp, b),
        screen_x(vp, b) == vp.width * DIR_ONE && screen_y(vp, b) == vp.height * DIR_ONE
            ==> visible(vp, b),
        screen_x(vp, b) == -DIR_ONE ==> !visible(vp, b),
        screen_y(vp, b) == -DIR_ONE ==> !visible(vp, b),
        screen_x(vp, b) == (vp.width + 1) * DIR_ONE ==> !visible(vp, b),
        screen_y(vp, b) == (vp.height + 1) * DIR_ONE ==> !visible(vp, b),
{
}

/// Whether a projectile is visible in the viewport.
pub fn is_visible(vp: &Viewport, b: &Bullet) -> (r: bool)
    requires
        vp.wf(),
    ensures
        r == visible(*vp, *b),
{
    let one: i128 = DIR_ONE as i128;
    let sx: i128 = b.x as i128 - vp.left as i128 * one;
    let sy: i128 = vp.top as i128 * one - b.y as i128;
    0 <= sx && sx <= vp.width as i128 * one && 0 <= sy && sy <= vp.height as i128 * one
}

fn clamp_add(a: i64, b: i64) -> (r: i64)
    requires
        -100_000_000 <= b <= 100_000_000,
    ensures
        r == clamp_i64(a + b),
{
    if b > 0 && a > i64::MAX - b {
        i64::MAX
    } else if b < 0 && a < i64::MIN - b {
        i64::MIN
    } else {
        a + b
    }
}

/// Move a projectile by one frame.
pub fn advance_bullet(b: &Bullet) -> (r: Bullet)
    requires
        bullet_wf(*b),
    ensures
        r == advance(*b),
        bullet_wf(r),
{
    Bullet {
        x: clamp_add(b.x, b.speed * b.dir.x_scale),
        y: clamp_add(b.y, b.speed * b.dir.y_scale),
        speed: b.speed,
        dir: b.dir,
    }
}

/// One frame of input.
#[derive(Clone, Copy, Debug, PartialEq, Eq, Structural)]
pub struct FrameInput {
    /// Screen position of the pointer, if it is over the window.
    pub pointer: Option<Point>,
    /// The trigger went down this frame.
    pub press_began: bool,
    /// The trigger is down.
    pub held: bool,
    /// The trigger went up this frame.
    pub released: bool,
    /// Time since the last frame, in nanoseconds.
    pub delta: u64,
    pub viewport: Viewport,
}

impl FrameInput {
    pub open spec fn wf(self) -> bool {
        &&& self.viewport.wf()
        &&& self.pointer matches Some(p) ==> p.bounded() && self.viewport.to_world(p).bounded()
    }

    /// World position of the pointer, if it is over the window.
    pub open spec fn pointer_world(self) -> Option<Point> {
        match self.pointer {
            Some(p) => Some(self.viewport.to_world(p)),
            None => None,
        }
    }
}

/// Target (in fixed point) after the pursuit phase toward a pointer in whole units.
pub open spec fn target_phase(t: Point, pointer: Option<Point>) -> Point {
    match pointer {
        Some(p) => pursuit_step(t, to_fine(p)),
        None => t,
    }
}

/// Charge and charge timer after the charge phase. A held charge grows by one
/// at each completed interval; with no charge, a press that begins over the
/// window starts one at the pointer and restarts the timer. A press that begins
/// while a charge exists is ignored: at most one charge exists at a time.
pub open spec fn charge_phase(
    charge: Option<Charge>,
    timer: TimerGate,
    pointer: Option<Point>,
    press_began: bool,
    held: bool,
    delta: u64,
) -> (Option<Charge>, TimerGate) {
    match charge {
        Some(c) => if held {
            let grow = timer.completes(delta) && c.growth < u64::MAX;
            (
                Some(Charge { growth: if grow { (c.growth + 1) as u64 } else { c.growth }, ..c }),
                timer.ticked(delta),
            )
        } else {
            (charge, timer)
        },
        None => match pointer {
            Some(p) => if press_began {
                (Some(Charge { pos: p, growth: 0 }), TimerGate { elapsed: 0, ..timer })
            } else {
                (charge, timer)
            },
            None => (charge, timer),
        },
    }
}

/// How many of the ticks `deltas`, applied in order from `timer`, complete an interval.
pub open spec fn completions(timer: TimerGate, deltas: Seq<u64>) -> nat
    decreases deltas.len(),
{
    if deltas.len() == 0 {
        0
    } else {
        (if timer.completes(deltas[0]) { 1nat } else { 0nat }) + completions(
            timer.ticked(deltas[0]),
            deltas.skip(1),
        )
    }
}

/// Charge and timer after frames with the trigger held, one per entry of `deltas`.
pub open spec fn charge_held(charge: Option<Charge>, timer: TimerGate, deltas: Seq<u64>) -> (
    Option<Charge>,
    TimerGate,
)
    decreases deltas.len(),
{
    if deltas.len() == 0 {
        (charge, timer)
    } else {
        let (c, t) = charge_phase(charge, timer, None, false, true, deltas[0]);
        charge_held(c, t, deltas.skip(1))
    }
}

/// While the trigger stays held, a charge keeps its position and its growth
/// rises by one for each frame whose tick completes an interval, and by
/// nothing for the others.
pub proof fn charge_growth_counts_intervals(c: Charge, timer: TimerGate, deltas: Seq<u64>)
    requires
        c.growth + deltas.len() <= u64::MAX,
    ensures
        completions(timer, deltas) <= deltas.len(),
        charge_held(Some(c), timer, deltas).0 == Some(
            Charge { pos: c.pos, growth: (c.growth + completions(timer, deltas)) as u64 },
        ),
    decreases deltas.len(),
{
    if deltas.len() > 0 {
        let (c2, t2) = charge_phase(Some(c), timer, None, false, true, deltas[0]);
        let grown = c2.unwrap();
        charge_growth_counts_intervals(grown, t2, deltas.skip(1));
    }
}

/// In-flight projectiles after the launch phase.
pub open spec fn launch_phase(
    bullets: Seq<Bullet>,
    charge: Option<Charge>,
    target: Point,
    released: bool,
) -> Seq<Bullet> {
    match charge {
        Some(c) => if released {
            bullets.push(launched(c, target))
        } else {
            bullets
        },
        None => bullets,
    }
}

/// The state of a simulation as a mathematical value.
pub struct SimModel {
    pub target: Point,
    pub charge: Option<Charge>,
    pub charge_timer: TimerGate,
    pub bullets: Seq<Bullet>,
    pub count: int,
    /// Add events counted so far.
    pub adds: nat,
    /// Delete events counted so far.
    pub deletes: nat,
}

/// The state a simulation starts in, with the target at `target` (whole units).
pub open spec fn initial_model(target: Point) -> SimModel {
    SimModel {
        target: to_fine(target),
        charge: None,
        charge_timer: TimerGate { interval: CHARGE_INTERVAL, elapsed: 0 },
        bullets: Seq::empty(),
        count: 0,
        adds: 0,
        deletes: 0,
    }
}

/// One frame, phase by phase: pursuit, charge, launch, movement, culling,
/// then the counter applies one add per launch and one delete per culled
/// projectile.
pub open spec fn frame_model(m: SimModel, input: FrameInput) -> SimModel {
    let pointer = input.pointer_world();
    let target = target_phase(m.target, pointer);
    let (charge, timer) = charge_phase(
        m.charge,
        m.charge_timer,
        pointer,
        input.press_began,
        input.held,
        input.delta,
    );
    let moved = launch_phase(m.bullets, charge, target, input.released).map_values(
        |b: Bullet| advance(b),
    );
    let kept = moved.filter(|b: Bullet| visible(input.viewport, b));
    let fired: nat = if input.released && charge is Some { 1 } else { 0 };
    let culled: nat = (moved.len() - kept.len()) as nat;
    SimModel {
        target,
        charge: if input.released { None } else { charge },
        charge_timer: timer,
        bullets: kept,
        count: m.count + fired - culled,
        adds: m.adds + fired,
        deletes: m.deletes + culled,
    }
}

/// The state after running the frames `inputs` in order from `m`.
pub open spec fn run_model(m: SimModel, inputs: Seq<FrameInput>) -> SimModel
    decreases inputs.len(),
{
    if inputs.len() == 0 {
        m
    } else {
        frame_model(run_model(m, inputs.drop_last()), inputs.last())
    }
}

/// After any sequence of frames from the start, the count equals the add
/// events counted minus the delete events counted, and equals the number of
/// projectiles in flight.
pub proof fn counter_consistency(start: Point, inputs: Seq<FrameInput>)
    ensures
        run_model(initial_model(start), inputs).count == run_model(initial_model(start), inputs).adds
            - run_model(initial_model(start), inputs).deletes,
        run_model(initial_model(start), inputs).count == run_model(
            initial_model(start),
            inputs,
        ).bullets.len(),
    decreases inputs.len(),
{
    if inputs.len() > 0 {
        counter_consistency(start, inputs.drop_last());
        let m = run_model(initial_model(start), inputs.drop_last());
        let input = inputs.last();
        let pointer = input.pointer_world();
        let target = target_phase(m.target, pointer);
        let (charge, timer) = charge_phase(
            m.charge,
            m.charge_timer,
            pointer,
            input.press_began,
            input.held,
            input.delta,
        );
        let moved = launch_phase(m.bullets, charge, target, input.released).map_values(
            |b: Bullet| advance(b),
        );
        let vis = |b: Bullet| visible(input.viewport, b);
        moved.lemma_filter_len(vis);
    }
}

/// The whole simulation state.
pub struct Simulation {
    pub target: Point,
    pub charge: Option<Charge>,
    pub charge_timer: TimerGate,
    pub bullets: Vec<Bullet>,
    /// Events of the current frame, not yet counted.
    pub events: Vec<BulletEvent>,
    /// Projectiles in flight, as counted from events.
    pub count: usize,
    /// Add events counted so far.
    pub adds: Ghost<nat>,
    /// Delete events counted so far.
    pub deletes: Ghost<nat>,
}

impl Simulation {
    pub open spec fn model(&self) -> SimModel {
        SimModel {
            target: self.target,
            charge: self.charge,
            charge_timer: self.charge_timer,
            bullets: self.bullets@,
            count: self.count as int,
            adds: self.adds@,
            deletes: self.deletes@,
        }
    }

    /// Holds between the phases of a frame: the count and the pending
    /// events together account for every projectile in flight.
    pub open spec fn consistent(&self) -> bool {
        &&& fine_bounded(self.target)
        &&& self.charge matches Some(c) ==> c.pos.bounded()
        &&& self.charge_timer.wf()
        &&& self.charge_timer.interval == CHARGE_INTERVAL
        &&& forall|i: int| 0 <= i < self.bullets@.len() ==> bullet_wf(#[trigger] self.bullets@[i])
        &&& self.count + net(self.events@) == self.bullets@.len()
        &&& self.count == self.adds@ - self.deletes@
    }

    /// Holds between frames: no event is pending.
    pub open spec fn wf(&self) -> bool {
        &&& self.consistent()
        &&& self.events@.len() == 0
    }

    /// A simulation with the target at `target` (whole units), nothing charged
    /// and nothing in flight.
    pub fn new(target: Point) -> (s: Simulation)
        requires
            target.bounded(),
        ensures
            s.wf(),
            s.model() == initial_model(target),
    {
        proof {
            lemma_to_fine_bounded(target);
        }
        Simulation {
            target: Point { x: target.x * DIR_ONE, y: target.y * DIR_ONE },
            charge: None,
            charge_timer: TimerGate::new(CHARGE_INTERVAL),
            bullets: Vec::new(),
            events: Vec::new(),
            count: 0,
            adds: Ghost(0),
            deletes: Ghost(0),
        }
    }

    /// Pursuit phase: the target steps toward the pointer (whole units), if
    /// there is one.
    pub fn pursue_pointer(&mut self, pointer: Option<Point>)
        requires
            old(self).consistent(),
            pointer matches Some(p) ==> p.bounded(),
        ensures
            final(self).consistent(),
            final(self).target == target_phase(old(self).target, pointer),
            *final(self) == (Simulation { target: final(self).target, ..*old(self) }),
    {
        if let Some(p) = pointer {
            proof {
                lemma_to_fine_bounded(p);
            }
            let fine = Point { x: p.x * DIR_ONE, y: p.y * DIR_ONE };
            self.target = pursue(self.target, fine);
        }
    }

    /// Charge phase: grow the charge, or start one.
    pub fn update_charge(&mut self, pointer: Option<Point>, press_began: bool, held: bool, delta: u64)
        requires
            old(self).consistent(),
            pointer matches Some(p) ==> p.bounded(),
        ensures
            final(self).consistent(),
            (final(self).charge, final(self).charge_timer) == charge_phase(
                old(self).charge,
                old(self).charge_timer,
                pointer,
                press_began,
                held,
                delta,
            ),
            *final(self) == (Simulation {
                charge: final(self).charge,
                charge_timer: final(self).charge_timer,
                ..*old(self)
            }),
    {
        match self.charge {
            Some(c) => {
                if held {
                    let done = self.charge_timer.tick(delta);
                    if done && c.growth < u64::MAX {
                        self.charge = Some(Charge { pos: c.pos, growth: c.growth + 1 });
                    }
                }
            },
            None => {
                if let Some(p) = pointer {
                    if press_began {
                        self.charge = Some(Charge { pos: p, growth: 0 });
                        self.charge_timer.reset();
                    }
                }
            },
        }
    }

    /// Launch phase: on release, the charge becomes a projectile in flight
    /// aimed at the target, and an add event is emitted.
    pub fn launch(&mut self, released: bool)
        requires
            old(self).consistent(),
        ensures
            final(self).consistent(),
            final(self).bullets@ == launch_phase(
                old(self).bullets@,
                old(self).charge,
                old(self).target,
                released,
            ),
            released && old(self).charge is Some ==> final(self).charge is None
                && final(self).events@ == old(self).events@.push(BulletEvent::Add),
            !(released && old(self).charge is Some) ==> *final(self) == *old(self),
            final(self).target == old(self).target,
            final(self).charge_timer == old(self).charge_timer,
            final(self).count == old(self).count,
            final(self).adds == old(self).adds,
            final(self).deletes == old(self).deletes,
    {
        if released {
            if let Some(c) = self.charge {
                proof {
                    lemma_to_fine_bounded(c.pos);
                }
                let from = Point { x: c.pos.x * DIR_ONE, y: c.pos.y * DIR_ONE };
                let dir = launch_direction(from, self.target);
                let ghost before = self.bullets@;
                self.bullets.push(Bullet { x: c.pos.x * DIR_ONE, y: c.pos.y * DIR_ONE, speed: SPEED, dir });
                proof {
                    assert forall|i: int| 0 <= i < self.bullets@.len() implies bullet_wf(
                        #[trigger] self.bullets@[i],
                    ) by {
                        if i < before.len() {
                            assert(self.bullets@[i] == before[i]);
                        }
                    }
                    crate::events::lemma_push_event(self.events@, BulletEvent::Add);
                }
                self.events.push(BulletEvent::Add);
                self.charge = None;
            }
        }
    }

    /// Movement phase: every projectile in flight advances by one frame.
    pub fn move_bullets(&mut self)
        requires
            old(self).consistent(),
        ensures
            final(self).consistent(),
            final(self).bullets@ == old(self).bullets@.map_values(|b: Bullet| advance(b)),
            final(self).target == old(self).target,
            final(self).charge == old(self).charge,
            final(self).charge_timer == old(self).charge_timer,
            final(self).events == old(self).events,
            final(self).count == old(self).count,
            final(self).adds == old(self).adds,
            final(self).deletes == old(self).deletes,
    {
        let mut moved: Vec<Bullet> = Vec::new();
        let mut i: usize = 0;
        while i < self.bullets.len()
            invariant
                i <= self.bullets@.len(),
                forall|j: int| 0 <= j < self.bullets@.len() ==> bullet_wf(#[trigger] self.bullets@[j]),
                moved@ == self.bullets@.take(i as int).map_values(|b: Bullet| advance(b)),
            decreases self.bullets@.len() - i,
        {
            let b = advance_bullet(&self.bullets[i]);
            moved.push(b);
            i = i + 1;
            assert(moved@ =~= self.bullets@.take(i as int).map_values(|b: Bullet| advance(b)));
        }
        assert(self.bullets@.take(i as int) =~= self.bullets@);
        self.bullets = moved;
    }

    /// Culling phase: projectiles that are not visible in `vp` leave flight,
    /// each with a delete event, in the order they were held.
    pub fn cull(&mut self, vp: &Viewport)
        requires
            old(self).consistent(),
            vp.wf(),
        ensures
            final(self).consistent(),
            final(self).bullets@ == old(self).bullets@.filter(|b: Bullet| visible(*vp, b)),
            final(self).events@ == old(self).events@ + deletes(
                (old(self).bullets@.len() - final(self).bullets@.len()) as nat,
            ),
            final(self).target == old(self).target,
            final(self).charge == old(self).charge,
            final(self).charge_timer == old(self).charge_timer,
            final(self).count == old(self).count,
            final(self).adds == old(self).adds,
            final(self).deletes == old(self).deletes,
    {
        let ghost ev0 = self.events@;
        let ghost v: Viewport = *vp;
        let ghost pred = |b: Bullet| visible(v, b);
        let ghost old_b = self.bullets@;
        let mut kept: Vec<Bullet> = Vec::new();
        let mut i: usize = 0;
        proof {
            assert(self.events@ =~= ev0 + deletes(0));
            assert(self.bullets@.take(0) =~= Seq::<Bullet>::empty());
        }
        while i < self.bullets.len()
            invariant
                i <= self.bullets@.len(),
                self.bullets@ == old_b,
                self.target == old(self).target,
                self.charge == old(self).charge,
                self.charge_timer == old(self).charge_timer,
                self.count == old(self).count,
                self.adds == old(self).adds,
                self.deletes == old(self).deletes,
                old(self).consistent(),
                v == *vp,
                pred == (|b: Bullet| visible(v, b)),
                forall|j: int| 0 <= j < self.bullets@.len() ==> bullet_wf(#[trigger] self.bullets@[j]),
                kept@ == self.bullets@.take(i as int).filter(pred),
                kept@.len() <= i,
                forall|j: int| 0 <= j < kept@.len() ==> bullet_wf(#[trigger] kept@[j]),
                self.events@ == ev0 + deletes((i - kept@.len()) as nat),
                vp.wf(),
            decreases self.bullets@.len() - i,
        {
            let b = self.bullets[i];
            proof {
                assert(self.bullets@.take(i as int + 1) =~= self.bullets@.take(i as int).push(b));
                self.bullets@.take(i as int).lemma_filter_push(b, pred);
                assert(pred(b) == visible(v, b));
            }
            if is_visible(vp, &b) {
                kept.push(b);
            } else {
                let ghost k = (i - kept@.len()) as nat;
                self.events.push(BulletEvent::Delete);
                assert(self.events@ =~= ev0 + deletes(k + 1));
            }
            i = i + 1;
        }
        proof {
            assert(self.bullets@.take(i as int) =~= self.bullets@);
            let k = (i - kept@.len()) as nat;
            crate::events::lemma_append_deletes(ev0, k);
            assert(pred =~= (|b: Bullet| visible(*vp, b)));
        }
        self.bullets = kept;
    }

    /// Counter phase: the pending events are counted, in order, and cleared.
    pub fn count_events(&mut self)
        requires
            old(self).consistent(),
        ensures
            final(self).wf(),
            final(self).count == old(self).count + net(old(self).events@),
            final(self).adds@ == old(self).adds@ + num_adds(old(self).events@),
            final(self).deletes@ == old(self).deletes@ + num_deletes(old(self).events@),
            final(self).bullets == old(self).bullets,
            final(self).target == old(self).target,
            final(self).charge == old(self).charge,
            final(self).charge_timer == old(self).charge_timer,
    {
        // the count after the batch is the number in flight, a `Vec` length,
        // so it fits in `usize`
        let in_flight: usize = self.bullets.len();
        assert(self.count + net(self.events@) == in_flight);
        self.count = apply_events(self.count, &self.events);
        self.adds = Ghost(self.adds@ + num_adds(self.events@));
        self.deletes = Ghost(self.deletes@ + num_deletes(self.events@));
        self.events = Vec::new();
    }

    /// One frame: pursuit, charge, launch, movement, culling, then counting.
    pub fn frame(&mut self, input: &FrameInput)
        requires
            old(self).wf(),
            input.wf(),
        ensures
            final(self).wf(),
            final(self).model() == frame_model(old(self).model(), *input),
    {
        let pointer = match input.pointer {
            Some(p) => Some(input.viewport.screen_to_world(p)),
            None => None,
        };
        self.pursue_pointer(pointer);
        self.update_charge(pointer, input.press_began, input.held, input.delta);
        self.launch(input.released);
        let ghost launched_events = self.events@;
        proof {
            if self.events@.len() == 0 {
                assert(num_adds(self.events@) == 0 && num_deletes(self.events@) == 0);
            } else {
                assert(self.events@ =~= Seq::<BulletEvent>::empty().push(BulletEvent::Add));
                crate::events::lemma_push_event(Seq::empty(), BulletEvent::Add);
            }
        }
        self.move_bullets();
        let ghost moved = self.bullets@;
        self.cull(&input.viewport);
        proof {
            crate::events::lemma_append_deletes(
                launched_events,
                (moved.len() - self.bullets@.len()) as nat,
            );
            moved.lemma_filter_len(|b: Bullet| visible(input.viewport, b));
        }
        self.count_events();
    }
}

/// Between frames the count equals the add events counted minus the delete
/// events counted, and equals the number of projectiles in flight. `new`
/// establishes this state and `frame` keeps it, so it holds after any
/// sequence of frames.
pub proof fn counter_matches_population(s: &Simulation)
    requires
        s.wf(),
    ensures
        s.count == s.adds@ - s.deletes@,
        s.count == s.bullets@.len(),
{
}

} // verus!
