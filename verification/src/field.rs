//! The battlefield's entity store.
//!
//! Entities live in a [`hecs::World`]. An entity is named by its bit pattern,
//! a plain `u64`, which stays good until the entity is despawned. The store
//! hands its entities out in no particular order, so nothing that breaks a
//! tie may depend on the order of a walk.

use vstd::prelude::*;

use crate::pieces::{Frog, Missile, Pickup, Piece, Shot, Tank, Tile};

verus! {

/// The entity store, opaque here.
#[verifier::external_type_specification]
#[verifier::external_body]
pub struct ExWorld(hecs::World);

/// What a store holds: each entity with a piece, under its bit pattern.
pub uninterp spec fn contents(world: hecs::World) -> Map<u64, Piece>;

/// Nothing at all.
pub open spec fn no_pieces() -> Map<u64, Piece> {
    Map::empty()
}

/// An empty store, by `hecs::World::new`.
#[verifier::external_body]
fn world_new() -> (world: hecs::World)
    ensures
        contents(world) == no_pieces(),
{
    hecs::World::new()
}

/// One more entity, by `hecs::World::spawn`, which gives it an identity no
/// living entity has and leaves the others alone. It panics once 2^32
/// entities are alive at a time; the store holds nothing but pieces.
#[verifier::external_body]
fn world_spawn(world: &mut hecs::World, piece: Piece) -> (id: u64)
    requires
        contents(*old(world)).dom().finite(),
        contents(*old(world)).dom().len() < u32::MAX,
    ensures
        !contents(*old(world)).contains_key(id),
        contents(*final(world)) == contents(*old(world)).insert(id, piece),
{
    world.spawn((piece,)).to_bits().get()
}

/// One entity gone, by `hecs::World::despawn`; an identity that names no
/// living entity leaves the store as it was.
#[verifier::external_body]
fn world_despawn(world: &mut hecs::World, id: u64)
    ensures
        contents(*final(world)) == contents(*old(world)).remove(id),
{
    if let Some(entity) = hecs::Entity::from_bits(id) {
        world.despawn(entity).ok();
    }
}

/// One entity's piece, by `hecs::World::get`.
#[verifier::external_body]
fn world_get(world: &hecs::World, id: u64) -> (piece: Option<Piece>)
    ensures
        piece == (if contents(*world).contains_key(id) {
            Some(contents(*world)[id])
        } else {
            None
        }),
{
    let entity = hecs::Entity::from_bits(id)?;
    world.get::<&Piece>(entity).ok().map(|piece| *piece)
}

/// Another piece in place of an entity's own, through `hecs::World::get` of a
/// mutable reference. The other entities are left alone.
#[verifier::external_body]
fn world_put(world: &mut hecs::World, id: u64, piece: Piece)
    requires
        contents(*old(world)).contains_key(id),
    ensures
        contents(*final(world)) == contents(*old(world)).insert(id, piece),
{
    if let Some(entity) = hecs::Entity::from_bits(id) {
        if let Ok(mut place) = world.get::<&mut Piece>(entity) {
            *place = piece;
        }
    }
}

/// Every entity with its piece, each once, by `hecs::World::query`. The order
/// is the store's own and nothing is said of it.
#[verifier::external_body]
fn world_all(world: &hecs::World) -> (all: Vec<(u64, Piece)>)
    ensures
        forall|i: int, j: int|
            0 <= i < j < all@.len() ==> (#[trigger] all@[i]).0 != (#[trigger] all@[j]).0,
        forall|i: int|
            0 <= i < all@.len() ==> contents(*world).contains_key((#[trigger] all@[i]).0)
                && contents(*world)[all@[i].0] == all@[i].1,
        contents(*world).dom() == all@.map_values(|entry: (u64, Piece)| entry.0).to_set(),
{
    let mut query = world.query::<(hecs::Entity, &Piece)>();
    query.iter().map(|(entity, piece)| (entity.to_bits().get(), *piece)).collect()
}

/// A kind of piece.
pub trait Kind: Copy {
    /// The piece as this kind, if it is one.
    spec fn of(piece: Piece) -> Option<Self>;

    /// This thing as a piece.
    spec fn as_piece(self) -> Piece;

    proof fn round_trip(piece: Piece, thing: Self)
        ensures
            Self::of(thing.as_piece()) == Some(thing),
            Self::of(piece) matches Some(t) ==> t.as_piece() == piece,
    ;

    fn from_piece(piece: Piece) -> (thing: Option<Self>)
        ensures
            thing == Self::of(piece),
    ;

    fn into_piece(self) -> (piece: Piece)
        ensures
            piece == self.as_piece(),
    ;
}

impl Kind for Tank {
    open spec fn of(piece: Piece) -> Option<Tank> {
        match piece {
            Piece::Tank(thing) => Some(thing),
            _ => None,
        }
    }

    open spec fn as_piece(self) -> Piece {
        Piece::Tank(self)
    }

    proof fn round_trip(piece: Piece, thing: Tank) {
    }

    fn from_piece(piece: Piece) -> (thing: Option<Tank>) {
        match piece {
            Piece::Tank(thing) => Some(thing),
            _ => None,
        }
    }

    fn into_piece(self) -> (piece: Piece) {
        Piece::Tank(self)
    }
}

impl Kind for Frog {
    open spec fn of(piece: Piece) -> Option<Frog> {
        match piece {
            Piece::Frog(thing) => Some(thing),
            _ => None,
        }
    }

    open spec fn as_piece(self) -> Piece {
        Piece::Frog(self)
    }

    proof fn round_trip(piece: Piece, thing: Frog) {
    }

    fn from_piece(piece: Piece) -> (thing: Option<Frog>) {
        match piece {
            Piece::Frog(thing) => Some(thing),
            _ => None,
        }
    }

    fn into_piece(self) -> (piece: Piece) {
        Piece::Frog(self)
    }
}

impl Kind for Tile {
    open spec fn of(piece: Piece) -> Option<Tile> {
        match piece {
            Piece::Tile(thing) => Some(thing),
            _ => None,
        }
    }

    open spec fn as_piece(self) -> Piece {
        Piece::Tile(self)
    }

    proof fn round_trip(piece: Piece, thing: Tile) {
    }

    fn from_piece(piece: Piece) -> (thing: Option<Tile>) {
        match piece {
            Piece::Tile(thing) => Some(thing),
            _ => None,
        }
    }

    fn into_piece(self) -> (piece: Piece) {
        Piece::Tile(self)
    }
}

impl Kind for Pickup {
    open spec fn of(piece: Piece) -> Option<Pickup> {
        match piece {
            Piece::Pickup(thing) => Some(thing),
            _ => None,
        }
    }

    open spec fn as_piece(self) -> Piece {
        Piece::Pickup(self)
    }

    proof fn round_trip(piece: Piece, thing: Pickup) {
    }

    fn from_piece(piece: Piece) -> (thing: Option<Pickup>) {
        match piece {
            Piece::Pickup(thing) => Some(thing),
            _ => None,
        }
    }

    fn into_piece(self) -> (piece: Piece) {
        Piece::Pickup(self)
    }
}

impl Kind for Shot {
    open spec fn of(piece: Piece) -> Option<Shot> {
        match piece {
            Piece::Shot(thing) => Some(thing),
            _ => None,
        }
    }

    open spec fn as_piece(self) -> Piece {
        Piece::Shot(self)
    }

    proof fn round_trip(piece: Piece, thing: Shot) {
    }

    fn from_piece(piece: Piece) -> (thing: Option<Shot>) {
        match piece {
            Piece::Shot(thing) => Some(thing),
            _ => None,
        }
    }

    fn into_piece(self) -> (piece: Piece) {
        Piece::Shot(self)
    }
}

impl Kind for Missile {
    open spec fn of(piece: Piece) -> Option<Missile> {
        match piece {
            Piece::Missile(thing) => Some(thing),
            _ => None,
        }
    }

    open spec fn as_piece(self) -> Piece {
        Piece::Missile(self)
    }

    proof fn round_trip(piece: Piece, thing: Missile) {
    }

    fn from_piece(piece: Piece) -> (thing: Option<Missile>) {
        match piece {
            Piece::Missile(thing) => Some(thing),
            _ => None,
        }
    }

    fn into_piece(self) -> (piece: Piece) {
        Piece::Missile(self)
    }
}

/// What an entity is, as a kind of piece.
pub open spec fn thing<T: Kind>(pieces: Map<u64, Piece>, id: u64) -> Option<T> {
    if pieces.contains_key(id) {
        T::of(pieces[id])
    } else {
        None
    }
}

/// A list holds every thing of a kind, each once.
pub open spec fn lists<T: Kind>(pieces: Map<u64, Piece>, all: Seq<(u64, T)>) -> bool {
    &&& forall|i: int, j: int|
        0 <= i < j < all.len() ==> (#[trigger] all[i]).0 != (#[trigger] all[j]).0
    &&& forall|i: int|
        0 <= i < all.len() ==> thing::<T>(pieces, (#[trigger] all[i]).0) == Some(all[i].1)
    &&& forall|id: u64| #[trigger]
        thing::<T>(pieces, id) is Some ==> exists|i: int|
            0 <= i < all.len() && (#[trigger] all[i]).0 == id
}

/// A list holds every thing of a kind that a test keeps, each once.
pub open spec fn selects<T: Kind>(
    pieces: Map<u64, Piece>,
    keep: spec_fn(T) -> bool,
    some: Seq<(u64, T)>,
) -> bool {
    &&& forall|i: int, j: int|
        0 <= i < j < some.len() ==> (#[trigger] some[i]).0 != (#[trigger] some[j]).0
    &&& forall|i: int|
        0 <= i < some.len() ==> thing::<T>(pieces, (#[trigger] some[i]).0) == Some(some[i].1)
            && keep(some[i].1)
    &&& forall|id: u64|
        (#[trigger] thing::<T>(pieces, id)) matches Some(t) && keep(t) ==> exists|i: int|
            0 <= i < some.len() && (#[trigger] some[i]).0 == id
}

/// The battlefield's entities.
pub struct Field {
    world: hecs::World,
}

impl View for Field {
    type V = Map<u64, Piece>;

    closed spec fn view(&self) -> Map<u64, Piece> {
        contents(self.world)
    }
}

impl Field {
    /// Finitely many entities.
    pub open spec fn wf(&self) -> bool {
        self@.dom().finite()
    }

    /// Room for one more entity.
    pub open spec fn has_room(&self) -> bool {
        self@.dom().len() < u32::MAX
    }

    /// An empty field.
    pub fn new() -> (field: Field)
        ensures
            field.wf(),
            field@ == no_pieces(),
    {
        Field { world: world_new() }
    }

    /// Put a new thing on the field and name it.
    pub fn spawn<T: Kind>(&mut self, thing: T) -> (id: u64)
        requires
            old(self).wf(),
            old(self).has_room(),
        ensures
            final(self).wf(),
            !old(self)@.contains_key(id),
            final(self)@ == old(self)@.insert(id, thing.as_piece()),
    {
        world_spawn(&mut self.world, thing.into_piece())
    }

    /// Take an entity off the field; nothing happens if it is not there.
    pub fn despawn(&mut self, id: u64)
        requires
            old(self).wf(),
        ensures
            final(self).wf(),
            final(self)@ == old(self)@.remove(id),
    {
        world_despawn(&mut self.world, id);
    }

    /// An entity as a kind of thing, if it is one.
    pub fn get<T: Kind>(&self, id: u64) -> (r: Option<T>)
        ensures
            r == thing::<T>(self@, id),
    {
        match world_get(&self.world, id) {
            Some(piece) => T::from_piece(piece),
            None => None,
        }
    }

    /// Change an entity.
    pub fn put<T: Kind>(&mut self, id: u64, thing: T)
        requires
            old(self).wf(),
            old(self)@.contains_key(id),
        ensures
            final(self).wf(),
            final(self)@ == old(self)@.insert(id, thing.as_piece()),
    {
        world_put(&mut self.world, id, thing.into_piece());
    }

    /// Everything of one kind, in no particular order.
    pub fn all<T: Kind>(&self) -> (all: Vec<(u64, T)>)
        ensures
            lists::<T>(self@, all@),
    {
        let pieces: Vec<(u64, Piece)> = world_all(&self.world);
        let mut out: Vec<(u64, T)> = Vec::new();
        let ghost ids = pieces@.map_values(|entry: (u64, Piece)| entry.0);
        let mut n: usize = 0;
        while n < pieces.len()
            invariant
                n <= pieces@.len(),
                forall|i: int, j: int|
                    0 <= i < j < pieces@.len() ==> (#[trigger] pieces@[i]).0 != (
                    #[trigger] pieces@[j]).0,
                forall|i: int|
                    0 <= i < pieces@.len() ==> self@.contains_key((#[trigger] pieces@[i]).0)
                        && self@[pieces@[i].0] == pieces@[i].1,
                forall|i: int, j: int|
                    0 <= i < j < out@.len() ==> (#[trigger] out@[i]).0 != (#[trigger] out@[j]).0,
                forall|i: int|
                    0 <= i < out@.len() ==> thing::<T>(self@, (#[trigger] out@[i]).0) == Some(
                        out@[i].1,
                    ),
                forall|i: int|
                    0 <= i < out@.len() ==> exists|m: int|
                        0 <= m < n && (#[trigger] pieces@[m]).0 == (#[trigger] out@[i]).0,
                forall|m: int|
                    0 <= m < n && thing::<T>(self@, (#[trigger] pieces@[m]).0) is Some ==> exists|
                        i: int,
                    |
                        0 <= i < out@.len() && (#[trigger] out@[i]).0 == pieces@[m].0,
            decreases pieces@.len() - n,
        {
            let ghost before = out@;
            let (id, piece) = pieces[n];
            if let Some(t) = T::from_piece(piece) {
                out.push((id, t));
                assert(out@[before.len() as int].0 == id);
            }
            assert forall|i: int| 0 <= i < out@.len() implies exists|m: int|
                0 <= m < n + 1 && (#[trigger] pieces@[m]).0 == (#[trigger] out@[i]).0 by {
                if i < before.len() {
                    assert(before[i] == out@[i]);
                    let m = choose|m: int| 0 <= m < n && (#[trigger] pieces@[m]).0 == before[i].0;
                    assert(pieces@[m].0 == out@[i].0);
                } else {
                    assert(pieces@[n as int].0 == out@[i].0);
                }
            }
            assert forall|m: int|
                0 <= m < n + 1 && thing::<T>(self@, (#[trigger] pieces@[m]).0) is Some implies exists|
                i: int,
            |
                0 <= i < out@.len() && (#[trigger] out@[i]).0 == pieces@[m].0 by {
                if m < n {
                    let i = choose|i: int|
                        0 <= i < before.len() && (#[trigger] before[i]).0 == pieces@[m].0;
                    assert(out@[i].0 == pieces@[m].0);
                } else {
                    assert(out@[before.len() as int].0 == pieces@[m].0);
                }
            }
            n += 1;
        }
        assert forall|id: u64| #[trigger] thing::<T>(self@, id) is Some implies exists|i: int|
            0 <= i < out@.len() && (#[trigger] out@[i]).0 == id by {
            assert(self@.dom().contains(id));
            assert(ids.contains(id));
            let m = choose|m: int| 0 <= m < ids.len() && ids[m] == id;
            assert(pieces@[m].0 == id);
        }
        out
    }

    /// Everything of one kind that `test` keeps, in no particular order.
    pub(crate) fn select<T: Kind, F: Fn(T) -> bool>(
        &self,
        Ghost(keep): Ghost<spec_fn(T) -> bool>,
        test: F,
    ) -> (some: Vec<(u64, T)>)
        requires
            forall|t: T| call_requires(test, (t,)),
            forall|t: T, b: bool| call_ensures(test, (t,), b) ==> b == keep(t),
        ensures
            selects::<T>(self@, keep, some@),
    {
        let all: Vec<(u64, T)> = self.all();
        let mut some: Vec<(u64, T)> = Vec::new();
        let mut n: usize = 0;
        while n < all.len()
            invariant
                n <= all@.len(),
                lists::<T>(self@, all@),
                forall|t: T| call_requires(test, (t,)),
                forall|t: T, b: bool| call_ensures(test, (t,), b) ==> b == keep(t),
                forall|i: int, j: int|
                    0 <= i < j < some@.len() ==> (#[trigger] some@[i]).0 != (#[trigger] some@[j]).0,
                forall|i: int|
                    0 <= i < some@.len() ==> thing::<T>(self@, (#[trigger] some@[i]).0) == Some(
                        some@[i].1,
                    ) && keep(some@[i].1),
                forall|i: int|
                    0 <= i < some@.len() ==> exists|m: int|
                        0 <= m < n && (#[trigger] all@[m]).0 == (#[trigger] some@[i]).0,
                forall|m: int|
                    0 <= m < n && keep((#[trigger] all@[m]).1) ==> exists|i: int|
                        0 <= i < some@.len() && (#[trigger] some@[i]).0 == all@[m].0,
            decreases all@.len() - n,
        {
            let ghost before = some@;
            let (id, t) = all[n];
            assert(thing::<T>(self@, all@[n as int].0) == Some(all@[n as int].1));
            let kept: bool = test(t);
            if kept {
                some.push((id, t));
                assert(some@[before.len() as int].0 == id);
            }
            assert forall|i: int| 0 <= i < some@.len() implies exists|m: int|
                0 <= m < n + 1 && (#[trigger] all@[m]).0 == (#[trigger] some@[i]).0 by {
                if i < before.len() {
                    assert(before[i] == some@[i]);
                    let m = choose|m: int| 0 <= m < n && (#[trigger] all@[m]).0 == before[i].0;
                    assert(all@[m].0 == some@[i].0);
                } else {
                    assert(all@[n as int].0 == some@[i].0);
                }
            }
            assert forall|m: int| 0 <= m < n + 1 && keep((#[trigger] all@[m]).1) implies exists|
                i: int,
            |
                0 <= i < some@.len() && (#[trigger] some@[i]).0 == all@[m].0 by {
                if m < n {
                    let i = choose|i: int|
                        0 <= i < before.len() && (#[trigger] before[i]).0 == all@[m].0;
                    assert(some@[i].0 == all@[m].0);
                } else {
                    assert(some@[before.len() as int].0 == all@[m].0);
                }
            }
            n += 1;
        }
        assert forall|id: u64|
            (#[trigger] thing::<T>(self@, id)) is Some && keep(
                thing::<T>(self@, id)->0,
            ) implies exists|i: int| 0 <= i < some@.len() && (#[trigger] some@[i]).0 == id by {
            let m = choose|m: int| 0 <= m < all@.len() && (#[trigger] all@[m]).0 == id;
            assert(keep(all@[m].1));
        }
        some
    }
}

} // verus!
