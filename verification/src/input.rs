//! One step's player input: the entire interface between a round and wherever
//! input comes from.

use vstd::prelude::*;

use crate::kinds::{Intent, MAX_SEATS};

verus! {

/// One raw command per seat, plus the one-shot toggles.
#[derive(Clone, Copy, Debug)]
pub struct Input {
    /// Seat 0 is player 1, seat 1 player 2, and so on. `fire` is whether the
    /// fire key is held this step.
    pub seats: [Intent; 8],
    pub pause_pressed: bool,
    pub restart_pressed: bool,
    pub toggle_shadows_pressed: bool,
    pub cycle_overlays_pressed: bool,
}

impl Input {
    /// No toggle is pressed.
    pub open spec fn no_presses(&self) -> bool {
        !self.pause_pressed && !self.restart_pressed && !self.toggle_shadows_pressed
            && !self.cycle_overlays_pressed
    }

    /// Seat 0 driven, every other seat idle, no toggles.
    pub fn single(intent: Intent) -> (input: Input)
        ensures
            input.no_presses(),
            input.seats@[0] == intent,
            forall|i: int| 1 <= i < MAX_SEATS ==> #[trigger] input.seats@[i] == Intent::idle(),
    {
        let mut input: Input = Input::default();
        input.seats[0] = intent;
        input
    }

    /// Seats 0 and 1 driven, no toggles.
    pub fn two(player1: Intent, player2: Intent) -> (input: Input)
        ensures
            input.no_presses(),
            input.seats@[0] == player1,
            input.seats@[1] == player2,
            forall|i: int| 2 <= i < MAX_SEATS ==> #[trigger] input.seats@[i] == Intent::idle(),
    {
        let mut input: Input = Input::single(player1);
        input.seats[1] = player2;
        input
    }

    /// A seat's command; a seat past the last reads as no input.
    pub open spec fn command(&self, index: int) -> Intent {
        if 0 <= index < MAX_SEATS {
            self.seats@[index]
        } else {
            Intent::idle()
        }
    }

    /// Seat `index`'s command; a seat past the last reads as no input.
    pub fn seat(&self, index: usize) -> (intent: Intent)
        ensures
            intent == self.command(index as int),
    {
        if index < MAX_SEATS {
            self.seats[index]
        } else {
            Intent::idle()
        }
    }

    /// This input with its presses spent.
    pub open spec fn spent(self) -> Input {
        Input {
            pause_pressed: false,
            restart_pressed: false,
            toggle_shadows_pressed: false,
            cycle_overlays_pressed: false,
            ..self
        }
    }

    /// This input for the second and later steps of one rendered frame: what
    /// is held stays held, the one-shot presses are spent by the first step.
    pub fn held_only(self) -> (input: Input)
        ensures
            input == self.spent(),
            input.no_presses(),
    {
        let mut input: Input = self;
        input.pause_pressed = false;
        input.restart_pressed = false;
        input.toggle_shadows_pressed = false;
        input.cycle_overlays_pressed = false;
        input
    }

    /// `input` is this input with `pending`'s presses folded in.
    pub open spec fn folds(self, pending: Input, input: Input) -> bool {
        &&& forall|i: int|
            0 <= i < MAX_SEATS ==> #[trigger] input.seats@[i] == (Intent {
                fire: self.seats@[i].fire || pending.seats@[i].fire,
                ..self.seats@[i]
            })
        &&& input.pause_pressed == (self.pause_pressed || pending.pause_pressed)
        &&& input.restart_pressed == (self.restart_pressed || pending.restart_pressed)
        &&& input.toggle_shadows_pressed == (self.toggle_shadows_pressed
            || pending.toggle_shadows_pressed)
        &&& input.cycle_overlays_pressed == (self.cycle_overlays_pressed
            || pending.cycle_overlays_pressed)
    }

    /// This input with `pending`'s presses folded in: every seat's `fire` and
    /// every toggle is either input's, so a tap that lands between two steps
    /// still counts. Directions are this input's alone.
    pub fn or_presses(self, pending: Input) -> (input: Input)
        ensures
            self.folds(pending, input),
    {
        let mut input: Input = self;
        let mut i: usize = 0;
        while i < MAX_SEATS
            invariant
                i <= MAX_SEATS,
                forall|k: int|
                    0 <= k < i ==> #[trigger] input.seats@[k] == (Intent {
                        fire: self.seats@[k].fire || pending.seats@[k].fire,
                        ..self.seats@[k]
                    }),
                forall|k: int| i <= k < MAX_SEATS ==> #[trigger] input.seats@[k] == self.seats@[k],
                input.pause_pressed == self.pause_pressed,
                input.restart_pressed == self.restart_pressed,
                input.toggle_shadows_pressed == self.toggle_shadows_pressed,
                input.cycle_overlays_pressed == self.cycle_overlays_pressed,
            decreases MAX_SEATS - i,
        {
            let mut seat: Intent = input.seats[i];
            seat.fire = seat.fire || pending.seats[i].fire;
            input.seats[i] = seat;
            i += 1;
        }
        input.pause_pressed = input.pause_pressed || pending.pause_pressed;
        input.restart_pressed = input.restart_pressed || pending.restart_pressed;
        input.toggle_shadows_pressed = input.toggle_shadows_pressed
            || pending.toggle_shadows_pressed;
        input.cycle_overlays_pressed = input.cycle_overlays_pressed
            || pending.cycle_overlays_pressed;
        input
    }

    /// Some of the first `n` seats moves or fires.
    pub open spec fn stirs(&self, n: int) -> bool {
        exists|i: int|
            0 <= i < n && i < MAX_SEATS && ((#[trigger] self.seats@[i]).move_dir is Some
                || self.seats@[i].fire)
    }

    /// Whether some of the first `n` seats moves or fires, which ends the
    /// opening banner early.
    pub fn skips_intro(&self, n: usize) -> (r: bool)
        requires
            n <= MAX_SEATS,
        ensures
            r == self.stirs(n as int),
    {
        let mut i: usize = 0;
        while i < n
            invariant
                i <= n <= MAX_SEATS,
                forall|k: int|
                    0 <= k < i ==> (#[trigger] self.seats@[k]).move_dir is None
                        && !self.seats@[k].fire,
            decreases n - i,
        {
            if self.seats[i].move_dir.is_some() || self.seats[i].fire {
                return true;
            }
            i += 1;
        }
        false
    }
}

impl Default for Input {
    fn default() -> (input: Input)
        ensures
            input.no_presses(),
            forall|i: int| 0 <= i < MAX_SEATS ==> #[trigger] input.seats@[i] == Intent::idle(),
    {
        let idle: Intent = Intent::idle();
        Input {
            seats: [idle, idle, idle, idle, idle, idle, idle, idle],
            pause_pressed: false,
            restart_pressed: false,
            toggle_shadows_pressed: false,
            cycle_overlays_pressed: false,
        }
    }
}

/// Spending the presses twice is spending them once, and leaves every seat's
/// command as it was.
pub proof fn presses_are_spent_once(input: Input)
    ensures
        input.spent().spent() == input.spent(),
        input.spent().seats == input.seats,
{
}

/// Folding presses in never changes a direction, never drops a press, and
/// folding in an input without presses or held fire changes nothing.
pub proof fn folding_keeps_directions_and_presses(now: Input, pending: Input, input: Input)
    requires
        now.folds(pending, input),
    ensures
        forall|i: int|
            0 <= i < MAX_SEATS ==> (#[trigger] input.seats@[i]).move_dir == now.seats@[i].move_dir
                && input.seats@[i].face == now.seats@[i].face && (now.seats@[i].fire
                ==> input.seats@[i].fire) && (pending.seats@[i].fire ==> input.seats@[i].fire),
        now.pause_pressed || pending.pause_pressed ==> input.pause_pressed,
        now.restart_pressed || pending.restart_pressed ==> input.restart_pressed,
        (pending.no_presses() && forall|i: int|
            0 <= i < MAX_SEATS ==> !(#[trigger] pending.seats@[i]).fire) ==> input.seats@
            == now.seats@ && input.pause_pressed == now.pause_pressed && input.restart_pressed
            == now.restart_pressed && input.toggle_shadows_pressed == now.toggle_shadows_pressed
            && input.cycle_overlays_pressed == now.cycle_overlays_pressed,
{
    if pending.no_presses() && forall|i: int|
        0 <= i < MAX_SEATS ==> !(#[trigger] pending.seats@[i]).fire {
        assert(input.seats@ =~= now.seats@);
    }
}

/// How many seats a round holds, one to the most.
#[derive(Clone, Copy, Debug, PartialEq, Eq, Structural)]
pub struct PlayerCount {
    seats: u8,
}

impl PlayerCount {
    /// The number of seats.
    pub closed spec fn seated(self) -> int {
        self.seats as int
    }

    #[verifier::type_invariant]
    spec fn in_range(self) -> bool {
        1 <= self.seats <= MAX_SEATS
    }

    /// A single-player round.
    pub fn one() -> (r: PlayerCount)
        ensures
            r.seated() == 1,
    {
        PlayerCount { seats: 1 }
    }

    /// The two-player couch round.
    pub fn two() -> (r: PlayerCount)
        ensures
            r.seated() == 2,
    {
        PlayerCount { seats: 2 }
    }

    /// Every seat there is.
    pub fn max() -> (r: PlayerCount)
        ensures
            r.seated() == MAX_SEATS,
    {
        PlayerCount { seats: 8 }
    }

    /// How many seats hold a tank this round.
    pub fn count(self) -> (n: usize)
        ensures
            n == self.seated(),
            1 <= n <= MAX_SEATS,
    {
        proof {
            use_type_invariant(&self);
        }
        self.seats as usize
    }

    /// `n` seats, or none outside one to the most.
    pub fn from_count(n: usize) -> (r: Option<PlayerCount>)
        ensures
            1 <= n <= MAX_SEATS ==> (r matches Some(c) && c.seated() == n),
            !(1 <= n <= MAX_SEATS) ==> r is None,
    {
        if 1 <= n && n <= MAX_SEATS {
            Some(PlayerCount { seats: n as u8 })
        } else {
            None
        }
    }
}

impl Default for PlayerCount {
    fn default() -> (r: PlayerCount)
        ensures
            r.seated() == 1,
    {
        PlayerCount::one()
    }
}

/// A seat's command is what was entered for it, and one past the last seat
/// neither drives, turns nor fires; spending the presses leaves what is held.
pub proof fn a_seat_past_the_last_does_nothing(input: Input, index: int)
    ensures
        0 <= index < 8 ==> input.command(index) == input.seats@[index],
        index < 0 || index >= 8 ==> input.command(index).move_dir is None && input.command(
            index,
        ).face is None && !input.command(index).fire,
        !input.spent().pause_pressed && !input.spent().restart_pressed,
        !input.spent().toggle_shadows_pressed && !input.spent().cycle_overlays_pressed,
        input.no_presses() <==> !input.pause_pressed && !input.restart_pressed
            && !input.toggle_shadows_pressed && !input.cycle_overlays_pressed,
{
}

/// An input stirs when some seat of the round drives or fires.
pub proof fn an_input_stirs_when_someone_acts(input: Input, n: int, i: int)
    requires
        0 <= i < n <= 8,
    ensures
        input.seats@[i].move_dir is Some || input.seats@[i].fire ==> input.stirs(n),
        (forall|k: int|
            0 <= k < n ==> (#[trigger] input.seats@[k]).move_dir is None && !input.seats@[k].fire)
            ==> !input.stirs(n),
{
}

} // verus!
