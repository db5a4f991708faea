//! What a frame leaves on the screen: ripples, flashes, marks on the ground.
//!
//! None of it decides anything else, none of it draws a random number, and
//! all of it is bounded.

use vstd::prelude::*;

use crate::event::Event;
use crate::frame::{Fireball, FireballKind, Frame, Record, Shock, ShockKind};
use crate::pieces::Tank;
use crate::ranking::{in_order, lemma_pushed, ranked, ranking_sorts, sort_ranked, Ranked};
use crate::scalar::{Point, Scalar};

verus! {

/// The newest `max` of a list.
pub open spec fn newest<T>(s: Seq<T>, max: int) -> Seq<T> {
    if s.len() <= max {
        s
    } else {
        s.skip(s.len() - max)
    }
}

/// Append to a capped list; the oldest go first.
pub fn keep_newest<T: Copy>(list: &mut Vec<T>, more: &Vec<T>, max: usize)
    ensures
        final(list)@ == newest(old(list)@ + more@, max as int),
{
    let mut n: usize = 0;
    assert(list@ =~= old(list)@ + more@.take(0));
    while n < more.len()
        invariant
            n <= more@.len(),
            list@ == old(list)@ + more@.take(n as int),
        decreases more@.len() - n,
    {
        list.push(more[n]);
        n += 1;
        assert(list@ =~= old(list)@ + more@.take(n as int));
    }
    assert(more@.take(n as int) =~= more@);
    if list.len() > max {
        let excess: usize = list.len() - max;
        let ghost all = list@;
        let mut kept: Vec<T> = Vec::new();
        let mut k: usize = excess;
        while k < list.len()
            invariant
                excess <= k <= list@.len(),
                list@ == all,
                kept@ == all.subrange(excess as int, k as int),
            decreases list@.len() - k,
        {
            kept.push(list[k]);
            k += 1;
            assert(kept@ =~= all.subrange(excess as int, k as int));
        }
        assert(kept@ =~= all.skip(excess as int));
        *list = kept;
    }
}

/// Stage one more mark on a capped list.
pub fn push_decal<T: Copy>(list: &mut Vec<T>, mark: T, max: usize)
    ensures
        final(list)@ == newest(old(list)@.push(mark), max as int),
{
    let mut one: Vec<T> = Vec::new();
    one.push(mark);
    assert(old(list)@ + one@ =~= old(list)@.push(mark));
    keep_newest(list, &one, max);
}

/// A ripple or a flash that is playing.
#[derive(Clone, Copy, Debug, PartialEq, Eq, Structural)]
pub struct Shockwave {
    pub at: Point,
    pub strength: Scalar,
    /// Seconds since it started.
    pub time: Scalar,
    /// Strength faded by age.
    pub remaining: Scalar,
}

impl Ranked for Shockwave {
    open spec fn ahead(self, other: Shockwave) -> bool {
        other.remaining.total_rank() < self.remaining.total_rank()
    }

    proof fn ranks(a: Shockwave, b: Shockwave, c: Shockwave) {
    }

    fn is_ahead(&self, other: &Shockwave) -> (r: bool) {
        other.remaining.total_key() < self.remaining.total_key()
    }
}

/// The ripples that may play at once: all of them while they fit, the hardest
/// `max` once they do not.
pub open spec fn hardest(s: Seq<Shockwave>, max: int) -> Seq<Shockwave> {
    if s.len() <= max {
        s
    } else {
        ranked(s).take(max)
    }
}

/// Append ripples to those playing. The weakest go first, not the oldest: a
/// cascade's little pops arrive after the explosion that set them off.
pub fn keep_hardest(list: &mut Vec<Shockwave>, more: &Vec<Shockwave>, max: usize)
    ensures
        final(list)@ == hardest(old(list)@ + more@, max as int),
{
    let mut n: usize = 0;
    assert(list@ =~= old(list)@ + more@.take(0));
    while n < more.len()
        invariant
            n <= more@.len(),
            list@ == old(list)@ + more@.take(n as int),
        decreases more@.len() - n,
    {
        list.push(more[n]);
        n += 1;
        assert(list@ =~= old(list)@ + more@.take(n as int));
    }
    assert(more@.take(n as int) =~= more@);
    if list.len() > max {
        let mut sorted: Vec<Shockwave> = sort_ranked(list);
        proof {
            ranking_sorts(list@);
        }
        sorted.truncate(max);
        assert(sorted@ =~= ranked(list@).take(max as int));
        *list = sorted;
    }
}

/// Never more ripples play than there is room for, and none of those that were
/// let go had more punch left than one that stayed.
pub proof fn the_hardest_ripples_stay(s: Seq<Shockwave>, max: int, kept: int, gone: int)
    requires
        0 <= kept < max <= gone < s.len(),
    ensures
        hardest(s, max).len() == max,
        hardest(s, max)[kept] == ranked(s)[kept],
        ranked(s).to_multiset() == s.to_multiset(),
        ranked(s)[gone].remaining.total_rank() <= hardest(s, max)[kept].remaining.total_rank(),
{
    ranking_sorts(s);
    assert(in_order(ranked(s)));
    assert(!ranked(s)[gone].ahead(ranked(s)[kept]));
}

/// The first `n` of a list that are still playing after ageing.
pub open spec fn still_playing(
    s: Seq<Shockwave>,
    times: Seq<Scalar>,
    remaining: Seq<Scalar>,
    duration: Scalar,
    n: int,
) -> Seq<Shockwave>
    decreases n,
{
    if n <= 0 {
        Seq::empty()
    } else {
        let before = still_playing(s, times, remaining, duration, n - 1);
        if times[n - 1].below(duration) {
            before.push(
                Shockwave { time: times[n - 1], remaining: remaining[n - 1], ..s[n - 1] },
            )
        } else {
            before
        }
    }
}

/// Age a list of ripples or flashes and drop the ones that have run their
/// time.
pub fn age_effects(
    list: &mut Vec<Shockwave>,
    times: &Vec<Scalar>,
    remaining: &Vec<Scalar>,
    duration: Scalar,
)
    requires
        times@.len() == old(list)@.len(),
        remaining@.len() == old(list)@.len(),
    ensures
        final(list)@ == still_playing(
            old(list)@,
            times@,
            remaining@,
            duration,
            old(list)@.len() as int,
        ),
{
    let mut out: Vec<Shockwave> = Vec::new();
    let mut n: usize = 0;
    while n < list.len()
        invariant
            n <= list@.len(),
            list@ == old(list)@,
            times@.len() == list@.len(),
            remaining@.len() == list@.len(),
            out@ == still_playing(list@, times@, remaining@, duration, n as int),
        decreases list@.len() - n,
    {
        if times[n].lt(duration) {
            out.push(Shockwave { time: times[n], remaining: remaining[n], ..list[n] });
        }
        n += 1;
    }
    *list = out;
}

/// The whole-screen flash a kill or a barrel opens with.
#[derive(Clone, Copy, Debug, PartialEq, Eq, Structural)]
pub struct ScreenFlash {
    /// Seconds since it started, while it plays.
    pub age: Option<Scalar>,
    /// Seconds until another may start.
    pub cooldown: Scalar,
}

impl ScreenFlash {
    /// Nothing flashes and anything may.
    #[verifier::allow_in_spec]
    pub fn idle() -> ScreenFlash
        returns
            (ScreenFlash { age: None, cooldown: Scalar { bits: 0 } }),
    {
        ScreenFlash { age: None, cooldown: Scalar { bits: 0 } }
    }

    /// The flash once one more was asked for.
    pub open spec fn flashed(self, gap: Scalar) -> ScreenFlash {
        if Scalar::zero().below(self.cooldown) {
            self
        } else {
            ScreenFlash { age: Some(Scalar::zero()), cooldown: gap }
        }
    }

    /// Start a flash unless one played within the gap: a barrel chain or a
    /// multi-kill is one flash, not a strobe.
    pub fn flash_screen(&mut self, gap: Scalar)
        ensures
            *final(self) == old(self).flashed(gap),
    {
        if self.cooldown.positive() {
            return;
        }
        self.age = Some(Scalar::zero());
        self.cooldown = gap;
    }

    /// A frame goes by: the flash reaches `aged` and is over after `seconds`.
    pub fn tick(&mut self, aged: Scalar, seconds: Scalar, cooled: Scalar)
        ensures
            final(self).cooldown == cooled,
            final(self).age == (if old(self).age is Some && !seconds.at_most(aged) {
                Some(aged)
            } else {
                None
            }),
    {
        if self.age.is_some() {
            self.age = if seconds.le(aged) {
                None
            } else {
                Some(aged)
            };
        }
        self.cooldown = cooled;
    }
}

/// Two flashes asked for within the gap are one: the second changes nothing.
pub proof fn flashes_keep_their_distance(flash: ScreenFlash, gap: Scalar)
    requires
        Scalar::zero().below(gap),
    ensures
        flash.flashed(gap).flashed(gap) == flash.flashed(gap),
{
}

/// How old each ripple or flash of a list is by now, and what is left of it.
pub open spec fn ages_read<A: Fn(Shockwave) -> (Scalar, Scalar)>(
    age: A,
    list: Seq<Shockwave>,
    times: Seq<Scalar>,
    remaining: Seq<Scalar>,
) -> bool {
    &&& times.len() == list.len()
    &&& remaining.len() == list.len()
    &&& forall|k: int|
        0 <= k < list.len() ==> call_ensures(
            age,
            (#[trigger] list[k],),
            (times[k], remaining[k]),
        )
}

/// A list once it has aged: whatever has run its time is gone.
pub open spec fn aged<A: Fn(Shockwave) -> (Scalar, Scalar)>(
    age: A,
    duration: Scalar,
    before: Seq<Shockwave>,
    after: Seq<Shockwave>,
) -> bool {
    exists|times: Seq<Scalar>, remaining: Seq<Scalar>|
        {
            &&& #[trigger] ages_read(age, before, times, remaining)
            &&& after == still_playing(before, times, remaining, duration, before.len() as int)
        }
}

/// Age a list by what `age` says of each of its entries.
pub fn age_list<A: Fn(Shockwave) -> (Scalar, Scalar)>(
    list: &mut Vec<Shockwave>,
    age: &A,
    duration: Scalar,
)
    requires
        forall|s: Shockwave| call_requires(*age, (s,)),
    ensures
        aged(*age, duration, old(list)@, final(list)@),
{
    let mut times: Vec<Scalar> = Vec::new();
    let mut remaining: Vec<Scalar> = Vec::new();
    let mut n: usize = 0;
    while n < list.len()
        invariant
            n <= list@.len(),
            times@.len() == n,
            remaining@.len() == n,
            forall|s: Shockwave| call_requires(*age, (s,)),
            forall|k: int|
                0 <= k < n ==> call_ensures(
                    *age,
                    (#[trigger] list@[k],),
                    (times@[k], remaining@[k]),
                ),
        decreases list@.len() - n,
    {
        let (time, left): (Scalar, Scalar) = age(list[n]);
        times.push(time);
        remaining.push(left);
        n += 1;
    }
    assert(ages_read(*age, list@, times@, remaining@));
    age_effects(list, &times, &remaining, duration);
}

/// The opening mission banner.
#[derive(Clone, Copy, Debug, PartialEq, Eq, Structural)]
pub struct Banner {
    /// Seconds the world stays frozen for.
    pub timer: Scalar,
    /// Seconds of fade-out left.
    pub fade: Scalar,
}

/// How long the banner takes to fade out: six tenths of a second.
#[verifier::allow_in_spec]
pub fn intro_fade_seconds() -> Scalar
    returns
        (Scalar { bits: 0x3f19999a }),
{
    Scalar { bits: 0x3f19999a }
}

impl Banner {
    /// The world is frozen behind the banner.
    pub open spec fn frozen(self) -> bool {
        Scalar::zero().below(self.timer)
    }

    pub fn is_up(&self) -> (r: bool)
        ensures
            r == self.frozen(),
    {
        self.timer.positive()
    }

    /// A frame of the banner. While it is up it counts down to `left`, or ends
    /// outright when skipped, and hands the fade its seconds the moment it runs
    /// out; once it is gone it fades to `faded`.
    pub fn tick(&mut self, skip: bool, left: Scalar, faded: Scalar)
        ensures
            *final(self) == ({
                let timer = if skip {
                    Scalar::zero()
                } else {
                    left
                };
                if !old(self).frozen() {
                    Banner { fade: faded, ..*old(self) }
                } else if timer.at_most(Scalar::zero()) {
                    Banner { timer, fade: intro_fade_seconds() }
                } else {
                    Banner { timer, ..*old(self) }
                }
            }),
    {
        if self.timer.positive() {
            self.timer = if skip {
                Scalar::zero()
            } else {
                left
            };
            if self.timer.le(Scalar::zero()) {
                self.fade = intro_fade_seconds();
            }
        } else {
            self.fade = faded;
        }
    }
}

/// A tread mark.
#[derive(Clone, Copy, Debug, PartialEq, Eq, Structural)]
pub struct TrackMark {
    pub at: Point,
    /// Burnt into the ground; never fades.
    pub scorched: bool,
}

/// How many marks from the `i`-th on are in reach.
pub open spec fn in_reach_from(distances: Seq<Scalar>, reach: Scalar, i: int) -> nat
    decreases distances.len() - i,
{
    if i < 0 || i >= distances.len() {
        0
    } else {
        in_reach_from(distances, reach, i + 1) + (if distances[i].at_most(reach) {
            1nat
        } else {
            0
        })
    }
}

/// A mark after a wreck burns the last few near it into the ground: it is
/// burnt if it is in reach and fewer than `marks` newer ones are.
pub open spec fn scorched_mark(
    tracks: Seq<TrackMark>,
    distances: Seq<Scalar>,
    reach: Scalar,
    marks: int,
    i: int,
) -> TrackMark {
    if distances[i].at_most(reach) && in_reach_from(distances, reach, i + 1) < marks {
        TrackMark { scorched: true, ..tracks[i] }
    } else {
        tracks[i]
    }
}

proof fn lemma_reach_shrinks(distances: Seq<Scalar>, reach: Scalar, i: int, j: int)
    requires
        0 <= i <= j <= distances.len(),
    ensures
        in_reach_from(distances, reach, j) <= in_reach_from(distances, reach, i),
    decreases j - i,
{
    if i < j {
        lemma_reach_shrinks(distances, reach, i + 1, j);
    }
}

/// Burn a wreck's last few tread marks into the ground, from the newest back,
/// stopping once enough are burnt.
pub fn scorch_tracks(
    tracks: &mut Vec<TrackMark>,
    distances: &Vec<Scalar>,
    reach: Scalar,
    marks: i32,
)
    requires
        distances@.len() == old(tracks)@.len(),
    ensures
        final(tracks)@ == Seq::new(
            old(tracks)@.len(),
            |i: int| scorched_mark(old(tracks)@, distances@, reach, marks as int, i),
        ),
{
    let ghost before = tracks@;
    let mut left: i32 = if marks > 0 {
        marks
    } else {
        0
    };
    let mut i: usize = tracks.len();
    while i > 0 && left > 0
        invariant
            i <= before.len(),
            tracks@.len() == before.len(),
            distances@.len() == before.len(),
            0 <= left,
            marks > 0 ==> left + in_reach_from(distances@, reach, i as int) == marks,
            marks <= 0 ==> left == 0,
            forall|k: int| 0 <= k < i ==> tracks@[k] == before[k],
            forall|k: int|
                i <= k < before.len() ==> tracks@[k] == scorched_mark(
                    before,
                    distances@,
                    reach,
                    marks as int,
                    k,
                ),
        decreases i,
    {
        i -= 1;
        if distances[i].le(reach) {
            let mark: TrackMark = tracks[i];
            tracks.set(i, TrackMark { scorched: true, ..mark });
            left -= 1;
        }
    }
    proof {
        assert forall|k: int| 0 <= k < i implies tracks@[k] == scorched_mark(
            before,
            distances@,
            reach,
            marks as int,
            k,
        ) by {
            lemma_reach_shrinks(distances@, reach, k + 1, i as int);
        }
        assert(tracks@ =~= Seq::new(
            before.len(),
            |k: int| scorched_mark(before, distances@, reach, marks as int, k),
        ));
    }
}

/// What a tank's tracks do on a frame that moved it `moved`.
#[derive(Clone, Copy, Debug, PartialEq, Eq, Structural)]
pub enum TrackStep {
    /// A disabled or wrecked hull leaves everything as it is.
    Nothing,
    /// It stood still: the treads go back to their first frame.
    Idle,
    /// The treads turn, but water takes no mark and the count starts over.
    Wade,
    /// The treads turn and press marks.
    Mark,
}

/// What a tank's tracks do: a wrecked or disabled hull does nothing, one that
/// stood still idles, and one that moved wades or presses marks.
pub open spec fn track_step(tank: Tank, moved: Scalar, disabled_at: Scalar, dry: bool) -> TrackStep {
    if tank.wreck || disabled_at.at_most(tank.damage) {
        TrackStep::Nothing
    } else if moved.at_most(Scalar::zero()) {
        TrackStep::Idle
    } else if !dry {
        TrackStep::Wade
    } else {
        TrackStep::Mark
    }
}

/// How far a tank's treads have turned.
#[derive(Clone, Copy, Debug, PartialEq, Eq, Structural)]
pub struct Treads {
    /// The tread frame shown.
    pub frame: u32,
    /// How far the hull has moved since that frame came up.
    pub turned: Scalar,
    /// How far it has moved since its last mark.
    pub track_accum: Scalar,
    /// How many marks it has pressed.
    pub marks: u32,
}

/// What a frame's movement comes to, in the host's arithmetic.
#[derive(Debug)]
pub struct Stride {
    pub moved: Scalar,
    /// How often the treads step on, and what is left over.
    pub turns: u32,
    pub turned: Scalar,
    /// Where marks are pressed, in the order they are, and what is left over.
    pub presses: Vec<Point>,
    pub track_accum: Scalar,
}

/// A tread mark just pressed.
pub open spec fn fresh_mark(at: Point) -> TrackMark {
    TrackMark { at, scorched: false }
}

/// The treads after a step, of `frames` in all.
pub open spec fn trodden(t: Treads, step: TrackStep, s: Stride, frames: u32) -> Treads {
    let turned = Treads {
        frame: ((t.frame + s.turns) % frames as int) as u32,
        turned: s.turned,
        ..t
    };
    match step {
        TrackStep::Nothing => t,
        TrackStep::Idle => Treads { frame: 0, ..t },
        TrackStep::Wade => Treads { track_accum: Scalar::zero(), ..turned },
        TrackStep::Mark => Treads {
            track_accum: s.track_accum,
            marks: (t.marks + s.presses@.len()) as u32,
            ..turned
        },
    }
}

/// A tank's tracks over a frame. Only a hull on dry ground presses marks, one
/// for each spacing it covered, behind those already there; water takes no
/// mark and starts the count over.
pub fn lay_tracks(
    tracks: &mut Vec<TrackMark>,
    tank: &Tank,
    treads: Treads,
    stride: &Stride,
    disabled_at: Scalar,
    dry: bool,
    frames: u32,
) -> (r: (TrackStep, Treads))
    requires
        frames > 0,
        treads.frame + stride.turns <= u32::MAX,
        treads.marks + stride.presses@.len() <= u32::MAX,
    ensures
        r.0 == track_step(*tank, stride.moved, disabled_at, dry),
        r.1 == trodden(treads, r.0, *stride, frames),
        final(tracks)@ == (if r.0 is Mark {
            old(tracks)@ + stride.presses@.map_values(|at: Point| fresh_mark(at))
        } else {
            old(tracks)@
        }),
{
    if tank.wreck || disabled_at.le(tank.damage) {
        return (TrackStep::Nothing, treads);
    }
    if stride.moved.le(Scalar::zero()) {
        return (TrackStep::Idle, Treads { frame: 0, ..treads });
    }
    let turned: Treads = Treads {
        frame: (treads.frame + stride.turns) % frames,
        turned: stride.turned,
        ..treads
    };
    if !dry {
        return (TrackStep::Wade, Treads { track_accum: Scalar::zero(), ..turned });
    }
    let ghost marks = stride.presses@.map_values(|at: Point| fresh_mark(at));
    let mut n: usize = 0;
    assert(marks.take(0) =~= Seq::<TrackMark>::empty());
    assert(tracks@ =~= old(tracks)@ + marks.take(0));
    while n < stride.presses.len()
        invariant
            n <= stride.presses@.len(),
            marks == stride.presses@.map_values(|at: Point| fresh_mark(at)),
            tracks@ == old(tracks)@ + marks.take(n as int),
        decreases stride.presses@.len() - n,
    {
        tracks.push(TrackMark { at: stride.presses[n], scorched: false });
        n += 1;
        assert(tracks@ =~= old(tracks)@ + marks.take(n as int));
    }
    assert(marks.take(n as int) =~= marks);
    let pressed: Treads = Treads {
        track_accum: stride.track_accum,
        marks: treads.marks + stride.presses.len() as u32,
        ..turned
    };
    (TrackStep::Mark, pressed)
}

/// A wreck's ammunition waiting to go off.
#[derive(Clone, Copy, Debug, PartialEq, Eq, Structural)]
pub struct Cookoff {
    pub at: Point,
    /// Seconds left.
    pub left: Scalar,
}

/// The first `n` queued pops that are still waiting.
pub open spec fn waiting(queue: Seq<Cookoff>, lefts: Seq<Scalar>, n: int) -> Seq<Cookoff>
    decreases n,
{
    if n <= 0 {
        Seq::empty()
    } else if Scalar::zero().below(lefts[n - 1]) {
        waiting(queue, lefts, n - 1).push(Cookoff { left: lefts[n - 1], ..queue[n - 1] })
    } else {
        waiting(queue, lefts, n - 1)
    }
}

/// What the first `n` queued pops record: a small fireball, a faint ripple and
/// an event each for
/// those that are due. A pop hurts nobody, so nothing else is recorded.
pub open spec fn popped(f: Record, queue: Seq<Cookoff>, lefts: Seq<Scalar>, n: int) -> Record
    decreases n,
{
    if n <= 0 {
        f
    } else {
        let f = popped(f, queue, lefts, n - 1);
        if Scalar::zero().below(lefts[n - 1]) {
            f
        } else {
            let at = queue[n - 1].at;
            f.with_fireball(at, FireballKind::CookOff).with_shock(
                at,
                ShockKind::CookOff,
            ).with_event(Event::CookOff { x: at.x, y: at.y })
        }
    }
}

/// Count the queued pops down to `lefts` and set off the ones that are due.
pub fn tick_cookoffs(queue: &mut Vec<Cookoff>, lefts: &Vec<Scalar>, f: &mut Frame)
    requires
        lefts@.len() == old(queue)@.len(),
    ensures
        final(queue)@ == waiting(old(queue)@, lefts@, old(queue)@.len() as int),
        final(f)@ == popped(old(f)@, old(queue)@, lefts@, old(queue)@.len() as int),
{
    let mut left: Vec<Cookoff> = Vec::new();
    let mut n: usize = 0;
    while n < queue.len()
        invariant
            n <= queue@.len(),
            queue@ == old(queue)@,
            lefts@.len() == queue@.len(),
            left@ == waiting(queue@, lefts@, n as int),
            f@ == popped(old(f)@, queue@, lefts@, n as int),
        decreases queue@.len() - n,
    {
        let pop: Cookoff = queue[n];
        if lefts[n].positive() {
            left.push(Cookoff { left: lefts[n], ..pop });
        } else {
            f.fireball(pop.at, FireballKind::CookOff);
            f.shock(pop.at, ShockKind::CookOff);
            f.record(Event::CookOff { x: pop.at.x, y: pop.at.y });
        }
        n += 1;
    }
    *queue = left;
}

/// A cook-off stays local: it kills nobody and sets no barrel off.
pub proof fn a_cook_off_hurts_nobody(f: Record, queue: Seq<Cookoff>, lefts: Seq<Scalar>, n: int)
    ensures
        popped(f, queue, lefts, n).kills == f.kills,
        popped(f, queue, lefts, n).pending_blasts == f.pending_blasts,
        popped(f, queue, lefts, n).rubble == f.rubble,
    decreases n,
{
    if n > 0 {
        a_cook_off_hurts_nobody(f, queue, lefts, n - 1);
    }
}

/// A capped list keeps its newest entries, in order, as many as there is room
/// for.
pub proof fn a_capped_list_keeps_its_newest<T>(s: Seq<T>, max: int)
    requires
        max >= 0,
    ensures
        newest(s, max).len() == (if s.len() <= max {
            s.len() as int
        } else {
            max
        }),
        forall|k: int|
            0 <= k < newest(s, max).len() ==> #[trigger] newest(s, max)[k] == s[s.len()
                - newest(s, max).len() + k],
{
}

/// A ripple or flash plays on, aged, as long as it has not run its time, and is
/// dropped once it has.
pub proof fn an_effect_plays_until_its_time_is_up(
    s: Seq<Shockwave>,
    times: Seq<Scalar>,
    remaining: Seq<Scalar>,
    duration: Scalar,
    n: int,
    w: Shockwave,
)
    requires
        0 <= n <= s.len(),
    ensures
        still_playing(s, times, remaining, duration, n).contains(w) <==> exists|k: int|
            {
                &&& 0 <= k < n && times[k].below(duration)
                &&& w.at == (#[trigger] s[k]).at && w.strength == s[k].strength
                &&& w.time == times[k] && w.remaining == remaining[k]
            },
        forall|a: Shockwave, b: Shockwave| #[trigger]
            a.ahead(b) <==> a.remaining.total_rank() > b.remaining.total_rank(),
    decreases n,
{
    if n > 0 {
        an_effect_plays_until_its_time_is_up(s, times, remaining, duration, n - 1, w);
        lemma_pushed(
            still_playing(s, times, remaining, duration, n - 1),
            Shockwave { time: times[n - 1], remaining: remaining[n - 1], ..s[n - 1] },
            w,
        );
    }
}

/// A flash starts from nothing unless one played within the gap, and then the
/// gap runs anew. The world is frozen while the banner has time left.
pub proof fn a_flash_starts_once_the_gap_is_over(flash: ScreenFlash, gap: Scalar, banner: Banner)
    ensures
        Scalar::zero().below(flash.cooldown) ==> flash.flashed(gap) == flash,
        flash.cooldown.at_most(Scalar::zero()) ==> flash.flashed(gap).age == Some(Scalar::zero())
            && flash.flashed(gap).cooldown == gap,
        banner.frozen() <==> Scalar::zero().below(banner.timer),
{
}

proof fn lemma_in_reach(distances: Seq<Scalar>, reach: Scalar, i: int)
    requires
        0 <= i <= distances.len(),
        forall|j: int| i <= j < distances.len() ==> !(#[trigger] distances[j]).at_most(reach),
    ensures
        in_reach_from(distances, reach, i) == 0,
    decreases distances.len() - i,
{
    if i < distances.len() {
        lemma_in_reach(distances, reach, i + 1);
    }
}

proof fn lemma_reach_counts(distances: Seq<Scalar>, reach: Scalar, i: int, j: int)
    requires
        0 <= i <= j <= distances.len(),
    ensures
        in_reach_from(distances, reach, j) <= in_reach_from(distances, reach, i),
    decreases j - i,
{
    if i < j {
        lemma_reach_counts(distances, reach, i + 1, j);
    }
}

/// A wreck burns the newest marks in its reach into the ground: the newest one
/// in reach whenever any are burnt, no mark without the newer ones in reach,
/// and nothing out of reach. A mark stays where it is, and one burnt in stays
/// so.
pub proof fn the_newest_marks_in_reach_are_burnt(
    tracks: Seq<TrackMark>,
    distances: Seq<Scalar>,
    reach: Scalar,
    marks: int,
    i: int,
    j: int,
)
    requires
        distances.len() == tracks.len(),
        0 <= i <= j < tracks.len(),
    ensures
        ({
            let older = scorched_mark(tracks, distances, reach, marks, i);
            let newer = scorched_mark(tracks, distances, reach, marks, j);
            &&& older.at == tracks[i].at && (tracks[i].scorched ==> older.scorched)
            &&& !distances[i].at_most(reach) ==> older == tracks[i]
            &&& older.scorched && !tracks[i].scorched && distances[j].at_most(reach)
                ==> newer.scorched
            &&& marks > 0 && distances[j].at_most(reach) && (forall|k: int|
                j < k < distances.len() ==> !(#[trigger] distances[k]).at_most(reach))
                ==> newer.scorched
            &&& marks <= 0 ==> older == tracks[i]
        }),
{
    lemma_reach_counts(distances, reach, i + 1, j + 1);
    if forall|k: int| j < k < distances.len() ==> !(#[trigger] distances[k]).at_most(reach) {
        lemma_in_reach(distances, reach, j + 1);
    }
}

/// A hull that runs and moves over dry ground presses marks, one in water none;
/// one that stands still idles, and a wrecked or disabled one does nothing.
pub proof fn a_moving_hull_presses_marks_on_dry_ground(
    tank: Tank,
    moved: Scalar,
    disabled_at: Scalar,
    dry: bool,
)
    ensures
        ({
            let step = track_step(tank, moved, disabled_at, dry);
            let out = tank.wreck || disabled_at.at_most(tank.damage);
            let still = moved.at_most(Scalar::zero());
            &&& step is Nothing <==> out
            &&& step is Idle <==> !out && still
            &&& step is Wade <==> !out && !still && !dry
            &&& step is Mark <==> !out && !still && dry
        }),
{
}

/// What a step leaves of the treads: a hull that does nothing leaves them, one
/// that stands still shows the first frame, one in water turns them and starts
/// the count over, and one on dry ground turns them and has pressed its marks.
pub proof fn treads_turn_with_the_hull(t: Treads, s: Stride, frames: u32)
    requires
        frames > 0,
        t.frame + s.turns <= u32::MAX,
        t.marks + s.presses@.len() <= u32::MAX,
    ensures
        trodden(t, TrackStep::Nothing, s, frames) == t,
        ({
            let idle = trodden(t, TrackStep::Idle, s, frames);
            &&& idle.frame == 0 && idle.turned == t.turned
            &&& idle.track_accum == t.track_accum && idle.marks == t.marks
        }),
        ({
            let wade = trodden(t, TrackStep::Wade, s, frames);
            &&& wade.frame == (t.frame + s.turns) % frames as int && wade.turned == s.turned
            &&& wade.track_accum == Scalar::zero() && wade.marks == t.marks
        }),
        ({
            let mark = trodden(t, TrackStep::Mark, s, frames);
            &&& mark.frame == (t.frame + s.turns) % frames as int && mark.turned == s.turned
            &&& mark.track_accum == s.track_accum && mark.marks == t.marks + s.presses@.len()
        }),
        forall|at: Point| (#[trigger] fresh_mark(at)).at == at && !fresh_mark(at).scorched,
{
}

/// A queued pop waits, its time counted down, as long as it has any left; and
/// goes off with a small fireball, a faint ripple and an event when it has
/// none.
pub proof fn a_pop_waits_or_goes_off(
    f: Record,
    queue: Seq<Cookoff>,
    lefts: Seq<Scalar>,
    n: int,
    k: int,
)
    requires
        0 <= k < n <= queue.len(),
    ensures
        Scalar::zero().below(lefts[k]) ==> waiting(queue, lefts, n).contains(
            Cookoff { at: queue[k].at, left: lefts[k] },
        ),
        !Scalar::zero().below(lefts[k]) ==> {
            let g = popped(f, queue, lefts, n);
            &&& g.events.contains(Event::CookOff { x: queue[k].at.x, y: queue[k].at.y })
            &&& g.shocks.contains(Shock { at: queue[k].at, kind: ShockKind::CookOff })
            &&& g.fireballs.contains(Fireball { at: queue[k].at, kind: FireballKind::CookOff })
        },
        forall|p: int|
            0 <= p < waiting(queue, lefts, n).len() ==> Scalar::zero().below(
                (#[trigger] waiting(queue, lefts, n)[p]).left,
            ),
    decreases n,
{
    let at = queue[n - 1].at;
    let (before, told) = (waiting(queue, lefts, n - 1), popped(f, queue, lefts, n - 1));
    if n > 1 {
        a_pop_waits_or_goes_off(f, queue, lefts, n - 1, if k < n - 1 {
            k
        } else {
            0
        });
    }
    lemma_pushed(
        before,
        Cookoff { left: lefts[n - 1], ..queue[n - 1] },
        Cookoff { at: queue[k].at, left: lefts[k] },
    );
    lemma_pushed(
        told.events,
        Event::CookOff { x: at.x, y: at.y },
        Event::CookOff { x: queue[k].at.x, y: queue[k].at.y },
    );
    lemma_pushed(
        told.shocks,
        Shock { at, kind: ShockKind::CookOff },
        Shock { at: queue[k].at, kind: ShockKind::CookOff },
    );
    lemma_pushed(
        told.fireballs,
        Fireball { at, kind: FireballKind::CookOff },
        Fireball { at: queue[k].at, kind: FireballKind::CookOff },
    );
}

} // verus!
