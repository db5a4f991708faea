//! How a round ends, and how a frame closes.

use vstd::prelude::*;

use crate::effects::{
    aged, age_list, hardest, keep_hardest, keep_newest, newest, ScreenFlash, Shockwave,
};
use crate::event::{Event, Outcome};
use crate::field::thing;
use crate::frame::Frame;
use crate::game::{Game, Mark, Round, Show};
use crate::kinds::{Mission, SpawnPlan, MAX_SEATS};
use crate::pieces::{Frog, Piece, Tank};
use crate::scalar::Scalar;

verus! {

/// A seat has nobody fighting in it: it is empty, or its tank is a wreck.
pub open spec fn fallen(pieces: Map<u64, Piece>, seat: Option<u64>) -> bool {
    seat matches Some(entity) ==> (thing::<Tank>(pieces, entity) matches Some(t) ==> t.wreck)
}

/// Every player's tank is a wreck. A seat on its way back in through a gate is
/// alive and keeps the round going.
pub open spec fn players_dead(pieces: Map<u64, Piece>, seats: Seq<Option<u64>>) -> bool {
    forall|i: int| 0 <= i < MAX_SEATS ==> fallen(pieces, #[trigger] seats[i])
}

/// A frog there is has died.
pub open spec fn frog_dead(pieces: Map<u64, Piece>, frog: Option<u64>) -> bool {
    frog matches Some(entity) && (thing::<Frog>(pieces, entity) matches Some(f) && f.dead)
}

/// Every enemy on the field is a wreck.
pub open spec fn enemies_wrecked(pieces: Map<u64, Piece>) -> bool {
    forall|id: u64|
        (#[trigger] thing::<Tank>(pieces, id)) matches Some(t) ==> (t.mind is Some ==> t.wreck)
}

/// A band round that placed nobody: there is nothing to win by wrecking.
pub open spec fn sandbox(round: Round) -> bool {
    round.spawn_plan is Band && round.band_enemy_count == 0
}

/// No enemy is still to come.
pub open spec fn all_arrived(round: Round, waves_finished: bool) -> bool {
    round.spawn_plan is Band || waves_finished
}

/// The round is lost.
pub open spec fn is_lost(round: Round, pieces: Map<u64, Piece>) -> bool {
    players_dead(pieces, round.seats@) || frog_dead(pieces, round.frog)
}

/// The mission's goal is reached.
pub open spec fn goal_reached(round: Round, pieces: Map<u64, Piece>, waves_finished: bool) -> bool {
    match round.mission {
        Mission::Hunt => frog_dead(pieces, round.enemy_frog),
        Mission::Protect | Mission::Destroy => !sandbox(round) && all_arrived(round, waves_finished)
            && enemies_wrecked(pieces),
    }
}

/// How the round ends this frame, if it does.
pub open spec fn ending(round: Round, pieces: Map<u64, Piece>, waves_finished: bool) -> Option<
    Outcome,
> {
    if is_lost(round, pieces) {
        Some(Outcome::Lost)
    } else if goal_reached(round, pieces, waves_finished) {
        Some(Outcome::Won)
    } else {
        None
    }
}

/// Losing comes before winning when both happen on one frame.
pub proof fn losing_beats_winning(round: Round, pieces: Map<u64, Piece>, waves_finished: bool)
    requires
        is_lost(round, pieces),
    ensures
        ending(round, pieces, waves_finished) == Some(Outcome::Lost),
{
}

/// A sandbox is never won by wrecking.
pub proof fn a_sandbox_is_never_won(round: Round, pieces: Map<u64, Piece>, waves_finished: bool)
    requires
        sandbox(round),
        round.mission != Mission::Hunt,
    ensures
        ending(round, pieces, waves_finished) != Some(Outcome::Won),
{
}

/// A round goes on while one player's tank still runs and its frog lives.
pub proof fn one_tank_keeps_the_round_going(
    round: Round,
    pieces: Map<u64, Piece>,
    waves_finished: bool,
    seat: int,
)
    requires
        0 <= seat < MAX_SEATS,
        !fallen(pieces, round.seats@[seat]),
        !frog_dead(pieces, round.frog),
    ensures
        ending(round, pieces, waves_finished) != Some(Outcome::Lost),
{
}

impl Game {
    fn seats_fallen(&self) -> (r: bool)
        ensures
            r == players_dead(self.field@, self.round.seats@),
    {
        let mut i: usize = 0;
        while i < MAX_SEATS
            invariant
                i <= MAX_SEATS,
                forall|k: int|
                    0 <= k < i ==> fallen(self.field@, #[trigger] self.round.seats@[k]),
            decreases MAX_SEATS - i,
        {
            if let Some(entity) = self.round.seats[i] {
                let tank: Option<Tank> = self.field.get(entity);
                if let Some(t) = tank {
                    if !t.wreck {
                        assert(!fallen(self.field@, self.round.seats@[i as int]));
                        return false;
                    }
                }
            }
            i += 1;
        }
        true
    }

    fn frog_died(&self, frog: Option<u64>) -> (r: bool)
        ensures
            r == frog_dead(self.field@, frog),
    {
        match frog {
            Some(entity) => {
                let frog: Option<Frog> = self.field.get(entity);
                match frog {
                    Some(f) => f.dead,
                    None => false,
                }
            },
            None => false,
        }
    }

    /// Whether every enemy on the field is a wreck.
    pub fn all_enemies_wrecked(&self) -> (r: bool)
        ensures
            r == enemies_wrecked(self.field@),
    {
        let ghost running = |t: Tank| t.mind is Some && !t.wreck;
        let test = |t: Tank| -> (b: bool)
            ensures
                b == (t.mind is Some && !t.wreck),
        { t.mind.is_some() && !t.wreck };
        let left = self.field.select(Ghost(running), test);
        proof {
            if left@.len() > 0 {
                assert(thing::<Tank>(self.field@, left@[0].0) == Some(left@[0].1));
                assert(running(left@[0].1));
            } else {
                assert forall|id: u64| #[trigger] thing::<Tank>(self.field@, id) is Some implies (
                thing::<Tank>(self.field@, id)->0.mind is None || thing::<Tank>(
                    self.field@,
                    id,
                )->0.wreck) by {
                    let t = thing::<Tank>(self.field@, id)->0;
                    assert(!running(t));
                }
            }
        }
        left.len() == 0
    }

    /// End the round if this frame ends it. `waves_finished` says whether
    /// every wave has rolled in, which only a wave round asks.
    pub fn check_round_end(&mut self, f: &mut Frame, waves_finished: bool, restart_delay: Scalar)
        ensures
            final(self).keeps_surroundings(old(self)),
            final(self).field == old(self).field,
            final(self).events == old(self).events,
            match ending(old(self).round, old(self).field@, waves_finished) {
                Some(outcome) => final(self).round == (Round {
                    outcome,
                    restart_timer: restart_delay,
                    ..old(self).round
                }) && final(f)@ == old(f)@.with_event(Event::RoundEnded { outcome }),
                None => final(self).round == old(self).round && final(f)@ == old(f)@,
            },
            (old(self).round.frog matches Some(e) && old(self).field@.contains_key(e)
                && old(self).field@[e] is Frog && old(self).field@[e]->Frog_0.dead) ==> {
                &&& final(self).round.outcome == Outcome::Lost
                &&& final(self).round.restart_timer == restart_delay
                &&& final(f)@.events == old(f)@.events.push(
                    Event::RoundEnded { outcome: Outcome::Lost },
                )
            },
            (forall|i: int|
                #![trigger old(self).round.seats@[i]]
                0 <= i < 8 && old(self).round.seats@[i] is Some ==> {
                    let e = old(self).round.seats@[i]->0;
                    &&& old(self).field@.contains_key(e)
                    &&& old(self).field@[e] is Tank
                    &&& old(self).field@[e]->Tank_0.wreck
                }) ==> {
                &&& final(self).round.outcome == Outcome::Lost
                &&& final(self).round.restart_timer == restart_delay
                &&& final(f)@.events == old(f)@.events.push(
                    Event::RoundEnded { outcome: Outcome::Lost },
                )
            },
    {
        proof {
            if forall|i: int|
                #![trigger self.round.seats@[i]]
                0 <= i < 8 && self.round.seats@[i] is Some ==> {
                    let e = self.round.seats@[i]->0;
                    &&& self.field@.contains_key(e)
                    &&& self.field@[e] is Tank
                    &&& self.field@[e]->Tank_0.wreck
                } {
                a_round_without_a_running_seat_is_lost(self.round, self.field@, waves_finished);
            }
        }
        if self.seats_fallen() || self.frog_died(self.round.frog) {
            self.end_round(f, Outcome::Lost, restart_delay);
            return;
        }
        let band: bool = match self.round.spawn_plan {
            SpawnPlan::Band { .. } => true,
            SpawnPlan::Waves => false,
        };
        let sandbox: bool = band && self.round.band_enemy_count == 0;
        let won: bool = match self.round.mission {
            Mission::Hunt => self.frog_died(self.round.enemy_frog),
            Mission::Protect | Mission::Destroy => !sandbox && (band || waves_finished)
                && self.all_enemies_wrecked(),
        };
        if won {
            self.end_round(f, Outcome::Won, restart_delay);
        }
    }

    fn end_round(&mut self, f: &mut Frame, outcome: Outcome, restart_delay: Scalar)
        ensures
            final(self).keeps_surroundings(old(self)),
            final(self).field == old(self).field,
            final(self).events == old(self).events,
            final(self).round == (Round {
                outcome,
                restart_timer: restart_delay,
                ..old(self).round
            }),
            final(f)@ == old(f)@.with_event(Event::RoundEnded { outcome }),
    {
        self.round.outcome = outcome;
        self.round.restart_timer = restart_delay;
        f.record(Event::RoundEnded { outcome });
    }

    /// The end screen's countdown reaches `left`; returns whether a new round
    /// is due.
    pub fn restart_countdown(&mut self, left: Scalar) -> (due: bool)
        ensures
            final(self).keeps_surroundings(old(self)),
            final(self).field == old(self).field,
            final(self).events == old(self).events,
            final(self).round == (Round { restart_timer: left, ..old(self).round }),
            due == left.at_most(Scalar::zero()),
    {
        self.round.restart_timer = left;
        left.le(Scalar::zero())
    }
}

/// What a frame adds to the screen.
pub struct FrameMarks {
    pub shocks: Vec<Shockwave>,
    pub muzzle_flashes: Vec<Shockwave>,
    pub impact_flashes: Vec<Shockwave>,
    pub scorches: Vec<Mark>,
    pub decals: Vec<Mark>,
}

/// How much of each the screen holds.
#[derive(Clone, Copy, Debug, PartialEq, Eq, Structural)]
pub struct Limits {
    pub shocks: usize,
    pub scorches: usize,
    pub decals: usize,
}

fn extend<T: Copy>(list: &mut Vec<T>, more: &Vec<T>)
    ensures
        final(list)@ == old(list)@ + more@,
{
    let mut n: usize = 0;
    assert(list@ =~= old(list)@ + more@.take(0));
    while n < more.len()
        invariant
            n <= more@.len(),
            list@ == old(list)@ + more@.take(n as int),
        decreases more@.len() - n,
    {
        list.push(more[n]);
        n += 1;
        assert(list@ =~= old(list)@ + more@.take(n as int));
    }
    assert(more@.take(n as int) =~= more@);
}

impl Game {
    /// Close a frame: what it recorded becomes readable, what it shows joins
    /// the screen. Burn marks and rubble keep the newest, ripples the hardest.
    pub fn finish_frame(&mut self, f: &Frame, marks: &FrameMarks, limits: &Limits)
        ensures
            final(self).round == old(self).round,
            final(self).field == old(self).field,
            final(self).pack == old(self).pack,
            final(self).ground == old(self).ground,
            final(self).debug_kills == old(self).debug_kills,
            final(self).events@ == old(self).events@ + f@.events,
            final(self).show.muzzle_flashes@ == old(self).show.muzzle_flashes@
                + marks.muzzle_flashes@,
            final(self).show.impact_flashes@ == old(self).show.impact_flashes@
                + marks.impact_flashes@,
            final(self).show.scorches@ == newest(
                old(self).show.scorches@ + marks.scorches@,
                limits.scorches as int,
            ),
            final(self).show.decals@ == newest(
                old(self).show.decals@ + marks.decals@,
                limits.decals as int,
            ),
            final(self).show.shocks@ == hardest(
                old(self).show.shocks@ + marks.shocks@,
                limits.shocks as int,
            ),
            final(self).show.tracks == old(self).show.tracks,
            final(self).show.cookoffs == old(self).show.cookoffs,
    {
        extend(&mut self.show.muzzle_flashes, &marks.muzzle_flashes);
        extend(&mut self.show.impact_flashes, &marks.impact_flashes);
        keep_newest(&mut self.show.scorches, &marks.scorches, limits.scorches);
        keep_newest(&mut self.show.decals, &marks.decals, limits.decals);
        keep_hardest(&mut self.show.shocks, &marks.shocks, limits.shocks);
        extend(&mut self.events, &f.events);
    }
}

/// What the screen's effects last, and where the whole-screen flash has got
/// to, in the host's numbers.
#[derive(Clone, Copy, Debug, PartialEq, Eq, Structural)]
pub struct Durations {
    pub shocks: Scalar,
    pub muzzle_flashes: Scalar,
    pub impact_flashes: Scalar,
    pub flash: Scalar,
    /// How old the whole-screen flash is by now, and its cooldown.
    pub flash_age: Scalar,
    pub flash_cooldown: Scalar,
}

impl Game {
    /// Age what is on the screen: ripples and flashes end when their time is
    /// up, the whole-screen flash with them.
    pub fn tick_effects<A: Fn(Shockwave) -> (Scalar, Scalar)>(&mut self, durations: &Durations, age: &A)
        requires
            forall|s: Shockwave| call_requires(*age, (s,)),
        ensures
            aged(
                *age,
                durations.shocks,
                old(self).show.shocks@,
                final(self).show.shocks@,
            ),
            aged(
                *age,
                durations.muzzle_flashes,
                old(self).show.muzzle_flashes@,
                final(self).show.muzzle_flashes@,
            ),
            aged(
                *age,
                durations.impact_flashes,
                old(self).show.impact_flashes@,
                final(self).show.impact_flashes@,
            ),
            final(self).round.flash == (ScreenFlash {
                age: if old(self).round.flash.age is Some && !durations.flash.at_most(
                    durations.flash_age,
                ) {
                    Some(durations.flash_age)
                } else {
                    None
                },
                cooldown: durations.flash_cooldown,
            }),
            *final(self) == (Game {
                round: Round { flash: final(self).round.flash, ..old(self).round },
                show: Show {
                    shocks: final(self).show.shocks,
                    muzzle_flashes: final(self).show.muzzle_flashes,
                    impact_flashes: final(self).show.impact_flashes,
                    ..old(self).show
                },
                ..*old(self)
            }),
    {
        age_list(&mut self.show.shocks, age, durations.shocks);
        age_list(&mut self.show.muzzle_flashes, age, durations.muzzle_flashes);
        age_list(&mut self.show.impact_flashes, age, durations.impact_flashes);
        self.round.flash.tick(durations.flash_age, durations.flash, durations.flash_cooldown);
    }
}

impl Game {
    /// Nobody else is coming: a band is there from the start, and waves are
    /// over once the last has come.
    pub fn spawn_plan_finished(&self, waves_finished: bool) -> (r: bool)
        ensures
            r == (self.round.spawn_plan is Waves ==> waves_finished),
    {
        match self.round.spawn_plan {
            SpawnPlan::Band { .. } => true,
            SpawnPlan::Waves => waves_finished,
        }
    }
}

/// A round whose frog has died is lost, whatever the mission, whoever still
/// drives and whatever else happened on the frame.
pub proof fn a_dead_frog_loses_the_round(
    round: Round,
    pieces: Map<u64, Piece>,
    waves_finished: bool,
    frog: u64,
)
    requires
        round.frog == Some(frog),
        pieces.contains_key(frog),
        pieces[frog] is Frog,
        pieces[frog]->Frog_0.dead,
    ensures
        ending(round, pieces, waves_finished) == Some(Outcome::Lost),
{
}

/// A round in which every seat is empty or sits in a wreck is lost, whatever
/// the mission.
pub proof fn a_round_without_a_running_seat_is_lost(
    round: Round,
    pieces: Map<u64, Piece>,
    waves_finished: bool,
)
    requires
        forall|i: int|
            #![trigger round.seats@[i]]
            0 <= i < 8 && round.seats@[i] is Some ==> pieces.contains_key(round.seats@[i]->0)
                && pieces[round.seats@[i]->0] is Tank && pieces[round.seats@[i]->0]->Tank_0.wreck,
    ensures
        ending(round, pieces, waves_finished) == Some(Outcome::Lost),
{
    assert forall|i: int| 0 <= i < MAX_SEATS implies fallen(pieces, #[trigger] round.seats@[i]) by {
    }
}

/// A round is lost for no other reason: while some seat's tank runs and the
/// frog, where there is one, is alive, it is not.
pub proof fn a_running_seat_and_a_living_frog_are_not_lost(
    round: Round,
    pieces: Map<u64, Piece>,
    waves_finished: bool,
    seat: int,
)
    requires
        0 <= seat < 8,
        round.seats@[seat] is Some,
        pieces.contains_key(round.seats@[seat]->0),
        pieces[round.seats@[seat]->0] is Tank,
        !pieces[round.seats@[seat]->0]->Tank_0.wreck,
        round.frog matches Some(e) ==> pieces.contains_key(e) && pieces[e] is Frog
            && !pieces[e]->Frog_0.dead,
    ensures
        ending(round, pieces, waves_finished) != Some(Outcome::Lost),
        // What is left is the mission's goal.
        round.mission is Hunt ==> (ending(round, pieces, waves_finished) == Some(Outcome::Won)
            <==> (round.enemy_frog matches Some(e) && pieces.contains_key(e) && pieces[e] is Frog
            && pieces[e]->Frog_0.dead)),
        !(round.mission is Hunt) ==> (ending(round, pieces, waves_finished) == Some(Outcome::Won)
            <==> (forall|id: u64|
            #![trigger pieces[id]]
            pieces.contains_key(id) && pieces[id] is Tank && pieces[id]->Tank_0.mind is Some
                ==> pieces[id]->Tank_0.wreck) && (match round.spawn_plan {
            SpawnPlan::Band { .. } => round.band_enemy_count != 0,
            SpawnPlan::Waves => waves_finished,
        })),
{
    assert(!fallen(pieces, round.seats@[seat]));
    let all = forall|id: u64|
        #![trigger pieces[id]]
        pieces.contains_key(id) && pieces[id] is Tank && pieces[id]->Tank_0.mind is Some
            ==> pieces[id]->Tank_0.wreck;
    if all {
        assert forall|id: u64|
            (#[trigger] thing::<Tank>(pieces, id)) is Some implies (thing::<Tank>(
            pieces,
            id,
        )->0.mind is None || thing::<Tank>(pieces, id)->0.wreck) by {
            assert(pieces[id] is Tank);
        }
    }
    if enemies_wrecked(pieces) {
        assert forall|id: u64|
            #![trigger pieces[id]]
            pieces.contains_key(id) && pieces[id] is Tank && pieces[id]->Tank_0.mind is Some implies
            pieces[id]->Tank_0.wreck by {
            assert(thing::<Tank>(pieces, id) == Some(pieces[id]->Tank_0));
        }
    }
}

} // verus!
