//! What each enemy is told before it thinks, and what becomes of what it
//! wants: the commander sees every intent before any tank moves.
//!
//! The host traces the lines and the routes; the mind itself is its own.

use vstd::prelude::*;

use crate::command::{
    covers, kept, obeys_all, standing, walked, CommandCtx, Commander, Skipped, UnitView,
};
use crate::comms::{claims_held, lanes_left, Order};
use crate::enemies::{
    fights_what, fought, frog_target, hunter_gives_up, target_of, PlayerView, Quarry,
};
use crate::engage::{EngageReport, EngageSlot};
use crate::game::Game;
use crate::kinds::{Intent, Role};
use crate::pieces::Mind;
use crate::perception::{home_of, live_frog};
use crate::ranking::{ranked, sort_ranked, Ranked};
use crate::scalar::{Point, Scalar};

verus! {

/// What the host traced for one enemy.
#[derive(Clone, Copy, Debug, PartialEq, Eq, Structural)]
pub struct Traced {
    /// A route to the frog's own cell exists.
    pub direct_route: bool,
    /// The frog is within attack range.
    pub in_range: bool,
    /// A shot would reach the frog: only iron or another frog stops it.
    pub clear_fire: bool,
    /// Nothing blocks sight of the player.
    pub clear_sight: bool,
}

/// What one enemy is told.
#[derive(Clone, Copy, Debug, PartialEq, Eq, Structural)]
pub struct Brief {
    /// The seat it fights.
    pub player: usize,
    /// What it goes for.
    pub target: Point,
    /// The frog, if that is what it goes for.
    pub hunting: Option<u64>,
    /// The frog its mind is on.
    pub frog_target: Option<Point>,
    /// Where its engagement slot sends it.
    pub engage_target: Option<Point>,
    /// The player is lost in the grass.
    pub player_hidden: bool,
    pub player_line_of_sight: bool,
    /// It may shoot at what it goes for.
    pub line_of_sight: bool,
}

/// A hunter that holds no slot, has no route and cannot shoot from where it
/// stands has no way at the frog this frame.
pub open spec fn gives_up(report: &EngageReport, entity: u64, traced: Traced) -> bool {
    let (slot, target) = match report.entry(entity) {
        Some(t) => (t.slot, t.target),
        None => (None, None),
    };
    slot is None && target is None && !traced.direct_route && !(traced.in_range
        && traced.clear_fire)
}

/// What one enemy is told. A player in tall grass is lost, not merely hard to
/// hit, except to a tank it just shot; a hunter with no way at the frog fights
/// the player like everyone else.
pub open spec fn briefed(
    report: &EngageReport,
    views: Seq<PlayerView>,
    quarry: Option<Quarry>,
    home: Option<Point>,
    entity: u64,
    mind: Mind,
    traced: Traced,
) -> Brief {
    let seat = fought(mind.target_player, views.len() as int);
    let player = views[seat];
    let (first, frog) = fights_what(mind.role, quarry, player.position);
    let hunting = if frog is Some && gives_up(report, entity, traced) {
        None
    } else {
        frog
    };
    let target = if hunting is Some {
        first
    } else {
        player.position
    };
    let hidden = player.concealed && !mind.hit_alerted;
    let sight = !hidden && traced.clear_sight;
    Brief {
        player: seat as usize,
        target,
        hunting,
        frog_target: match mind.role {
            Role::Hunter => if hunting is Some {
                Some(target)
            } else {
                None
            },
            Role::Guard => home,
            Role::Player => None,
        },
        engage_target: match report.entry(entity) {
            Some(t) => t.target,
            None => None,
        },
        player_hidden: hidden,
        player_line_of_sight: sight,
        line_of_sight: if hunting is Some {
            traced.clear_fire
        } else {
            sight
        },
    }
}

/// See [`briefed`].
pub fn brief_for(
    report: &EngageReport,
    views: &Vec<PlayerView>,
    quarry: Option<Quarry>,
    home: Option<Point>,
    entity: u64,
    mind: Mind,
    traced: Traced,
) -> (brief: Brief)
    requires
        0 < views@.len() <= 8,
    ensures
        brief == briefed(report, views@, quarry, home, entity, mind, traced),
{
    let seat: usize = if (mind.target_player as usize) < views.len() {
        mind.target_player as usize
    } else {
        views.len() - 1
    };
    let player: PlayerView = views[seat];
    let (first, frog): (Point, Option<u64>) = target_of(mind.role, quarry, player.position);
    let slot: Option<EngageSlot> = report.slot_of(entity);
    let engage_target: Option<Point> = report.target(entity);
    let no_slot: bool = slot.is_none() && engage_target.is_none();
    let can_shoot: bool = traced.in_range && traced.clear_fire;
    let mut target: Point = first;
    let mut hunting: Option<u64> = frog;
    if frog.is_some() && hunter_gives_up(no_slot, traced.direct_route, can_shoot) {
        target = player.position;
        hunting = None;
    }
    let on_frog: Option<Point> = if hunting.is_some() {
        Some(target)
    } else {
        None
    };
    let player_hidden: bool = player.concealed && !mind.hit_alerted;
    let player_line_of_sight: bool = !player_hidden && traced.clear_sight;
    Brief {
        player: seat,
        target,
        hunting,
        frog_target: frog_target(mind.role, on_frog, home),
        engage_target,
        player_hidden,
        player_line_of_sight,
        line_of_sight: if hunting.is_some() {
            traced.clear_fire
        } else {
            player_line_of_sight
        },
    }
}

impl Game {
    /// What an enemy is told before it thinks.
    pub fn brief(&self, views: &Vec<PlayerView>, entity: u64, mind: Mind, traced: Traced) -> (brief:
        Brief)
        requires
            0 < views@.len() <= 8,
        ensures
            brief == briefed(
                &self.pack.report,
                views@,
                live_frog(self.field@, self.round.frog),
                home_of(self.field@, self.round.enemy_frog),
                entity,
                mind,
                traced,
            ),
    {
        let quarry: Option<Quarry> = self.quarry();
        let home: Option<Point> = self.home();
        brief_for(&self.pack.report, views, quarry, home, entity, mind, traced)
    }
}

/// Cover hides: an enemy fighting a player in the grass has no line of sight
/// to it, whatever the host traced, unless that player just shot it.
pub proof fn cover_hides_until_it_is_used(
    report: &EngageReport,
    views: Seq<PlayerView>,
    quarry: Option<Quarry>,
    home: Option<Point>,
    entity: u64,
    mind: Mind,
    traced: Traced,
)
    requires
        views[fought(mind.target_player, views.len() as int)].concealed,
    ensures
        ({
            let brief = briefed(report, views, quarry, home, entity, mind, traced);
            &&& !mind.hit_alerted ==> !brief.player_line_of_sight
            &&& !mind.hit_alerted && brief.hunting is None ==> !brief.line_of_sight
            &&& mind.hit_alerted ==> brief.player_line_of_sight == traced.clear_sight
        }),
{
}

/// Only a hunter ever goes for the frog, and only while it lives and there is
/// a way at it; everyone else goes for the player it fights.
pub proof fn only_a_hunter_goes_for_the_frog(
    report: &EngageReport,
    views: Seq<PlayerView>,
    quarry: Option<Quarry>,
    home: Option<Point>,
    entity: u64,
    mind: Mind,
    traced: Traced,
)
    ensures
        ({
            let brief = briefed(report, views, quarry, home, entity, mind, traced);
            let player = views[fought(mind.target_player, views.len() as int)];
            &&& brief.hunting is Some <==> mind.role == Role::Hunter && quarry is Some
                && !gives_up(report, entity, traced)
            &&& brief.hunting matches Some(frog) ==> frog == (quarry->0).frog && brief.target == (
            quarry->0).position
            &&& brief.hunting is None ==> brief.target == player.position
        }),
{
}

impl Ranked for UnitView {
    /// By round slot.
    open spec fn ahead(self, other: UnitView) -> bool {
        self.slot < other.slot
    }

    proof fn ranks(a: UnitView, b: UnitView, c: UnitView) {
    }

    fn is_ahead(&self, other: &UnitView) -> (r: bool) {
        self.slot < other.slot
    }
}

/// The units in the order the commander plans them: by round slot. The order
/// they thought in is left to the caller, whose rolls depend on it.
pub fn planning_order(units: &Vec<UnitView>) -> (sorted: Vec<UnitView>)
    ensures
        sorted@ == ranked(units@),
{
    sort_ranked(units)
}

/// The commander has planned the frame: it forgets its orders while it is off,
/// else it walks the units in turn and lets its knowledge age.
pub open spec fn commanded(
    before: Commander,
    units: Seq<UnitView>,
    ctx: &CommandCtx,
    after: Commander,
) -> bool {
    &&& after.on() == ctx.enabled
    &&& !ctx.enabled ==> {
        &&& after.issued() == Map::<usize, Seq<Order>>::empty()
        &&& after.skips() == Skipped::none()
        &&& after.yields() == before.yields()
        &&& after.known() == before.known()
    }
    &&& ctx.enabled ==> {
        let end = walked(before.start(), units, ctx);
        let (was, now) = (before.known(), after.known());
        &&& after.issued() == end.orders
        &&& after.skips() == end.skipped
        &&& after.yields() == kept(end.yielding, end.ordered)
        &&& now.lanes@ == lanes_left(was.lanes@, ctx.lane_ttls@, was.lanes@.len() as int)
        &&& now.claims@ == claims_held(was.claims@, ctx.claim_helds@)
        &&& now.spotted == was.spotted
        &&& now.threat == was.threat
        &&& now.morale == was.morale
    }
}

impl Game {
    /// The rank of the engagement slot an enemy holds, if it holds one: what
    /// the commander's right of way goes by.
    pub fn ring_rank(&self, entity: u64) -> (rank: Option<u8>)
        ensures
            rank == (match self.pack.report.entry(entity) {
                Some(t) => match t.slot {
                    Some(slot) => Some(slot.rank),
                    None => None,
                },
                None => None,
            }),
    {
        match self.pack.report.slot_of(entity) {
            Some(slot) => Some(slot.rank),
            None => None,
        }
    }

    /// Let the commander plan the frame. `units` comes from
    /// [`planning_order`], and `ctx` is measured in that order.
    pub fn command_pass(&mut self, units: &Vec<UnitView>, ctx: &CommandCtx)
        requires
            old(self).wf(),
            covers(ctx, units@.len() as int),
            ctx.lane_ttls@.len() == old(self).pack.commander.known().lanes@.len(),
            ctx.claim_helds@.len() == old(self).pack.commander.known().claims@.len(),
        ensures
            final(self).wf(),
            commanded(old(self).pack.commander, units@, ctx, final(self).pack.commander),
            final(self).pack == (crate::game::Pack {
                commander: final(self).pack.commander,
                ..old(self).pack
            }),
            final(self).round == old(self).round,
            final(self).field == old(self).field,
            final(self).ground == old(self).ground,
            final(self).show == old(self).show,
            final(self).events == old(self).events,
            final(self).debug_kills == old(self).debug_kills,
    {
        self.pack.commander.plan(units, ctx);
    }

    /// An intent once the orders standing for its tank have been obeyed.
    pub fn obeyed<F: Fn(Scalar, Scalar) -> Scalar>(
        &self,
        slot: usize,
        intent: Intent,
        ease: &F,
    ) -> (after: Intent)
        requires
            forall|slow: Scalar, by: Scalar| #[trigger] call_requires(*ease, (slow, by)),
        ensures
            obeys_all(
                *ease,
                standing(self.pack.commander.issued(), slot),
                standing(self.pack.commander.issued(), slot).len() as int,
                intent,
                after,
            ),
    {
        self.pack.commander.apply(slot, intent, ease)
    }
}

/// A hunter keeps at the frog as long as it holds a slot, is sent somewhere,
/// has a route, or can shoot from where it stands; with none of these it has no
/// way at it.
pub proof fn a_hunter_with_a_way_keeps_at_the_frog(
    report: &EngageReport,
    entity: u64,
    traced: Traced,
)
    ensures
        traced.direct_route ==> !gives_up(report, entity, traced),
        traced.in_range && traced.clear_fire ==> !gives_up(report, entity, traced),
        report.entry(entity) matches Some(t) ==> (t.slot is Some || t.target is Some ==> !gives_up(
            report,
            entity,
            traced,
        )),
        !traced.direct_route && !(traced.in_range && traced.clear_fire) && (match report.entry(
            entity,
        ) {
            Some(t) => t.slot is None && t.target is None,
            None => true,
        }) ==> gives_up(report, entity, traced),
{
}

/// What an enemy is told of the player it fights, of the frog and of its line
/// of fire: a hunter at the frog is told the frog's place and whether a shot
/// would reach it; everyone else the player's place and whether it is seen, and
/// a player in the grass is not, except by one it just shot. A guard's mind is
/// on its own frog, a hunter's on the one it hunts.
pub proof fn an_enemy_is_told_what_it_fights(
    report: &EngageReport,
    views: Seq<PlayerView>,
    quarry: Option<Quarry>,
    home: Option<Point>,
    entity: u64,
    mind: Mind,
    traced: Traced,
)
    requires
        0 < views.len() <= 8,
    ensures
        ({
            let b = briefed(report, views, quarry, home, entity, mind, traced);
            let player = views[b.player as int];
            &&& mind.target_player < views.len() ==> b.player == mind.target_player
            &&& mind.target_player >= views.len() ==> b.player == views.len() - 1
            &&& b.player_hidden <==> player.concealed && !mind.hit_alerted
            &&& b.player_line_of_sight <==> traced.clear_sight && (!player.concealed
                || mind.hit_alerted)
            &&& b.hunting is Some ==> b.line_of_sight == traced.clear_fire
            &&& b.hunting is None ==> b.line_of_sight == b.player_line_of_sight && b.target
                == player.position
            &&& mind.role is Hunter && traced.direct_route ==> (match quarry {
                Some(q) => b.hunting == Some(q.frog) && b.target == q.position && b.frog_target
                    == Some(q.position),
                None => b.hunting is None && b.frog_target is None,
            })
            &&& mind.role is Hunter && quarry is Some && traced.in_range && traced.clear_fire
                ==> b.hunting is Some && b.line_of_sight
            &&& mind.role is Hunter && !traced.direct_route && !traced.in_range && report.entry(
                entity,
            ) is None ==> b.hunting is None && b.frog_target is None
            &&& mind.role is Guard ==> b.hunting is None && b.frog_target == home
            &&& mind.role is Player ==> b.hunting is None && b.frog_target is None
            &&& report.entry(entity) matches Some(t) ==> b.engage_target == t.target
            &&& report.entry(entity) is None ==> b.engage_target is None
        }),
{
}

/// The commander plans the units by round slot, the lowest first.
pub proof fn units_are_planned_by_round_slot(a: UnitView, b: UnitView)
    ensures
        a.ahead(b) <==> a.slot < b.slot,
{
}

} // verus!
