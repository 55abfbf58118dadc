use vstd::prelude::*;

use crate::coord::Coord;
use crate::inventory::{
    ids_unique, with_quantity, Inventory, InventoryItem, ItemView, RoomInventory, StubView,
};
use crate::level::{catalog_item, room_at, ItemDatabase, Level, Room, RoomItem};
use crate::text::str_eq;

verus! {

/// The whole progress of a game: position, debug flag, the player's items
/// and the items lying in every room.
#[derive(Debug)]
pub struct SaveState {
    /// The current room coordinate.
    pub coord: Coord,
    /// Whether debug output is on.
    pub debug: bool,
    /// The player's inventory.
    pub inventory: Inventory,
    /// The inventory of every room, keyed by the room's coordinate.
    pub room_inventories: Vec<(Coord, RoomInventory)>,
}

/// The value of a session state.
pub struct SaveStateView {
    pub coord: Coord,
    pub debug: bool,
    pub inventory: Seq<ItemView>,
    pub room_inventories: Seq<(Coord, Seq<(StubView, ItemView)>)>,
}

impl View for SaveState {
    type V = SaveStateView;

    open spec fn view(&self) -> SaveStateView {
        SaveStateView {
            coord: self.coord,
            debug: self.debug,
            inventory: self.inventory@,
            room_inventories: self.room_inventories@.map_values(
                |e: (Coord, RoomInventory)| (e.0, e.1@),
            ),
        }
    }
}

/// The catalog template with id `id`, which must exist.
pub open spec fn template(db: ItemDatabase, id: Seq<char>) -> ItemView {
    catalog_item(db.items@, id).unwrap()@
}

/// A room inventory entry seeded from `stub`: the template with the stub's
/// quantity.
pub open spec fn placed(db: ItemDatabase, stub: RoomItem) -> (StubView, ItemView) {
    (stub@, with_quantity(template(db, stub.id@), stub.quantity))
}

/// The inventory a room starts with.
pub open spec fn initial_room(db: ItemDatabase, room: Room) -> Seq<(StubView, ItemView)> {
    room.items@.map_values(|s: RoomItem| placed(db, s))
}

/// The items the player starts with: the sword, then the gold.
pub open spec fn starting_items(db: ItemDatabase) -> Seq<ItemView> {
    seq![template(db, "sword"@), template(db, "gold"@)]
}

/// The state a new game starts in.
pub open spec fn initial_state(db: ItemDatabase, level: Level) -> SaveStateView {
    SaveStateView {
        coord: level.entry,
        debug: false,
        inventory: starting_items(db),
        room_inventories: level.rooms@.map_values(|r: Room| (r.coord, initial_room(db, r))),
    }
}

/// Every id that seeding a new game looks up is in the catalog.
pub open spec fn seeds_resolve(db: ItemDatabase, level: Level) -> bool {
    &&& catalog_item(db.items@, "sword"@) is Some
    &&& catalog_item(db.items@, "gold"@) is Some
    &&& forall|i: int, j: int|
        0 <= i < level.rooms@.len() && 0 <= j < level.rooms@[i].items@.len() ==> catalog_item(
            db.items@,
            (#[trigger] level.rooms@[i].items@[j]).id@,
        ) is Some
}

/// No two rooms share a coordinate.
pub open spec fn room_coords_unique(level: Level) -> bool {
    forall|i: int, j: int|
        0 <= i < j < level.rooms@.len() ==> (#[trigger] level.rooms@[i]).coord != (#[trigger] level.rooms@[j]).coord
}

/// Some room inventory of `s` is keyed `c`.
pub open spec fn has_slot(s: Seq<(Coord, Seq<(StubView, ItemView)>)>, c: Coord) -> bool {
    exists|i: int| 0 <= i < s.len() && (#[trigger] s[i]).0 == c
}

/// The position of the room inventory keyed `c`.
pub open spec fn slot_of(s: Seq<(Coord, Seq<(StubView, ItemView)>)>, c: Coord) -> int {
    choose|i: int| 0 <= i < s.len() && (#[trigger] s[i]).0 == c
}

/// A state view is consistent with `level`: one entry per player item id,
/// the position is a room, and the room inventories are keyed by the
/// coordinates of the rooms, each once.
pub open spec fn state_fits(v: SaveStateView, level: Level) -> bool {
    &&& ids_unique(v.inventory)
    &&& room_at(level.rooms@, v.coord) is Some
    &&& forall|i: int, j: int|
        0 <= i < j < v.room_inventories.len() ==> (#[trigger] v.room_inventories[i]).0 != (#[trigger] v.room_inventories[j]).0
    &&& forall|i: int|
        0 <= i < v.room_inventories.len() ==> room_at(level.rooms@, (#[trigger] v.room_inventories[i]).0) is Some
    &&& forall|i: int|
        0 <= i < level.rooms@.len() ==> has_slot(v.room_inventories, (#[trigger] level.rooms@[i]).coord)
}

impl SaveState {
    /// The state is consistent with `level`: one entry per player item id,
    /// the position is a room, and the room inventories are keyed by
    /// distinct room coordinates.
    pub open spec fn wf(&self, level: Level) -> bool {
        state_fits(self@, level)
    }

    /// Checks that a state, fresh or restored from storage, is consistent
    /// with `level`.
    pub fn fits(&self, level: &Level) -> (r: bool)
        ensures
            r == self.wf(*level),
    {
        let items = &self.inventory.items;
        let mut i: usize = 0;
        while i < items.len()
            invariant
                i <= items@.len(),
                *items == self.inventory.items,
                forall|a: int, b: int| 0 <= a < b < items@.len() && a < i ==> (#[trigger] self@.inventory[a]).id != (#[trigger] self@.inventory[b]).id,
            decreases items@.len() - i,
        {
            let mut j: usize = i + 1;
            while j < items.len()
                invariant
                    i < j <= items@.len(),
                    i < items@.len(),
                    *items == self.inventory.items,
                    forall|a: int, b: int| 0 <= a < b < items@.len() && a < i ==> (#[trigger] self@.inventory[a]).id != (#[trigger] self@.inventory[b]).id,
                    forall|b: int| i < b < j ==> self@.inventory[i as int].id != (#[trigger] self@.inventory[b]).id,
                decreases items@.len() - j,
            {
                assert(self@.inventory[i as int] == items@[i as int]@);
                assert(self@.inventory[j as int] == items@[j as int]@);
                if str_eq(items[i].id.as_str(), items[j].id.as_str()) {
                    assert(self@.inventory.len() == items@.len());
                    assert(self@.inventory[i as int].id == self@.inventory[j as int].id);
                    return false;
                }
                j += 1;
            }
            i += 1;
        }
        if level.get_room(&self.coord).is_none() {
            return false;
        }
        let slots = &self.room_inventories;
        let mut i: usize = 0;
        while i < slots.len()
            invariant
                i <= slots@.len(),
                *slots == self.room_inventories,
                forall|a: int, b: int| 0 <= a < b < slots@.len() && a < i ==> (#[trigger] self@.room_inventories[a]).0 != (#[trigger] self@.room_inventories[b]).0,
                forall|a: int| 0 <= a < i ==> room_at(level.rooms@, (#[trigger] self@.room_inventories[a]).0) is Some,
            decreases slots@.len() - i,
        {
            assert(self@.room_inventories[i as int].0 == slots@[i as int].0);
            if level.get_room(&slots[i].0).is_none() {
                assert(room_at(level.rooms@, self@.room_inventories[i as int].0) is None);
                assert(self@.room_inventories.len() == slots@.len());
                assert(!self.wf(*level));
                return false;
            }
            let mut j: usize = i + 1;
            while j < slots.len()
                invariant
                    i < j <= slots@.len(),
                    i < slots@.len(),
                    *slots == self.room_inventories,
                    forall|a: int, b: int| 0 <= a < b < slots@.len() && a < i ==> (#[trigger] self@.room_inventories[a]).0 != (#[trigger] self@.room_inventories[b]).0,
                    forall|b: int| i < b < j ==> self@.room_inventories[i as int].0 != (#[trigger] self@.room_inventories[b]).0,
                decreases slots@.len() - j,
            {
                assert(self@.room_inventories[j as int].0 == slots@[j as int].0);
                assert(self@.room_inventories[i as int].0 == slots@[i as int].0);
                if slots[i].0 == slots[j].0 {
                    assert(self@.room_inventories.len() == slots@.len());
                    assert(self@.room_inventories[i as int].0 == self@.room_inventories[j as int].0);
                    return false;
                }
                j += 1;
            }
            i += 1;
        }
        let mut i: usize = 0;
        while i < level.rooms.len()
            invariant
                i <= level.rooms@.len(),
                *slots == self.room_inventories,
                forall|a: int| 0 <= a < i ==> has_slot(self@.room_inventories, (#[trigger] level.rooms@[a]).coord),
            decreases level.rooms@.len() - i,
        {
            let c = level.rooms[i].coord;
            let mut j: usize = 0;
            let mut found = false;
            while j < slots.len() && !found
                invariant
                    j <= slots@.len(),
                    *slots == self.room_inventories,
                    found ==> has_slot(self@.room_inventories, c),
                    !found ==> forall|b: int| 0 <= b < j ==> (#[trigger] self@.room_inventories[b]).0 != c,
                decreases slots@.len() - j,
            {
                assert(self@.room_inventories[j as int].0 == slots@[j as int].0);
                if slots[j].0 == c {
                    found = true;
                }
                j += 1;
            }
            if !found {
                return false;
            }
            i += 1;
        }
        true
    }

    /// The state of a new game: at the level's entry, debug off, the player
    /// holding the sword and the gold of the catalog, and every room holding
    /// its placed items, each a catalog template with the placed quantity.
    pub fn initialize(item_db: &ItemDatabase, level: &Level) -> (r: SaveState)
        requires
            seeds_resolve(*item_db, *level),
        ensures
            r@ == initial_state(*item_db, *level),
    {
        let sword = item_db.get("sword").clone();
        let gold = item_db.get("gold").clone();
        let mut items: Vec<InventoryItem> = Vec::new();
        items.push(sword);
        items.push(gold);
        let inventory = Inventory { items };
        assert(inventory@ =~= starting_items(*item_db));
        let mut room_inventories: Vec<(Coord, RoomInventory)> = Vec::new();
        let mut i: usize = 0;
        while i < level.rooms.len()
            invariant
                seeds_resolve(*item_db, *level),
                i <= level.rooms@.len(),
                room_inventories@.len() == i,
                forall|k: int|
                    0 <= k < i ==> (#[trigger] room_inventories@[k]).0 == level.rooms@[k].coord
                        && room_inventories@[k].1@ == initial_room(*item_db, level.rooms@[k]),
            decreases level.rooms@.len() - i,
        {
            let room = &level.rooms[i];
            let mut stock: Vec<(RoomItem, InventoryItem)> = Vec::new();
            let mut j: usize = 0;
            while j < room.items.len()
                invariant
                    seeds_resolve(*item_db, *level),
                    i < level.rooms@.len(),
                    *room == level.rooms@[i as int],
                    j <= room.items@.len(),
                    stock@.len() == j,
                    forall|k: int|
                        0 <= k < j ==> (#[trigger] stock@[k]).0@ == room.items@[k]@ && stock@[k].1@
                            == placed(*item_db, room.items@[k]).1,
                decreases room.items@.len() - j,
            {
                let stub = room.items[j].clone();
                assert(catalog_item(item_db.items@, level.rooms@[i as int].items@[j as int].id@) is Some);
                let mut it = item_db.get(stub.id.as_str()).clone();
                it.quantity = stub.quantity;
                stock.push((stub, it));
                j += 1;
            }
            let inv = RoomInventory { inventory: stock };
            assert(inv@ =~= initial_room(*item_db, *room));
            room_inventories.push((room.coord, inv));
            i += 1;
        }
        let r = SaveState { coord: level.entry, debug: false, inventory, room_inventories };
        assert(r@.room_inventories =~= initial_state(*item_db, *level).room_inventories);
        r
    }

    /// The position of the current room's inventory.
    pub fn room_slot(&self) -> (r: usize)
        requires
            has_slot(self@.room_inventories, self.coord),
            forall|i: int, j: int|
                0 <= i < j < self@.room_inventories.len() ==> (#[trigger] self@.room_inventories[i]).0 != (#[trigger] self@.room_inventories[j]).0,
        ensures
            r == slot_of(self@.room_inventories, self.coord),
            r < self.room_inventories@.len(),
            self.room_inventories@[r as int].0 == self.coord,
    {
        let ghost k = slot_of(self@.room_inventories, self.coord);
        let mut i: usize = 0;
        while i < self.room_inventories.len()
            invariant
                k == slot_of(self@.room_inventories, self.coord),
                i <= self.room_inventories@.len(),
                forall|m: int| 0 <= m < i ==> (#[trigger] self.room_inventories@[m]).0 != self.coord,
                forall|a: int, b: int|
                    0 <= a < b < self@.room_inventories.len() ==> (#[trigger] self@.room_inventories[a]).0 != (#[trigger] self@.room_inventories[b]).0,
                0 <= k < self@.room_inventories.len() && self@.room_inventories[k].0 == self.coord,
            decreases self.room_inventories@.len() - i,
        {
            assert(self@.room_inventories[i as int].0 == self.room_inventories@[i as int].0);
            if self.room_inventories[i].0 == self.coord {
                assert(i as int == k) by {
                    if (i as int) < k {
                        assert(self@.room_inventories[i as int].0 != self@.room_inventories[k].0);
                    }
                    assert(self@.room_inventories[k].0 == self.room_inventories@[k].0);
                }
                return i;
            }
            i += 1;
        }
        assert(self@.room_inventories[k].0 == self.room_inventories@[k].0);
        0
    }

    /// The inventory of the room the player is in.
    pub fn room_inventory_mut(&mut self) -> (r: &mut RoomInventory)
        requires
            has_slot(old(self)@.room_inventories, old(self).coord),
            forall|i: int, j: int|
                0 <= i < j < old(self)@.room_inventories.len() ==> (#[trigger] old(self)@.room_inventories[i]).0 != (#[trigger] old(self)@.room_inventories[j]).0,
        ensures
            0 <= slot_of(old(self)@.room_inventories, old(self).coord) < old(self)@.room_inventories.len(),
            *r == old(self).room_inventories@[slot_of(old(self)@.room_inventories, old(self).coord)].1,
            final(self).room_inventories@ == old(self).room_inventories@.update(
                slot_of(old(self)@.room_inventories, old(self).coord),
                (old(self).coord, *final(r)),
            ),
            final(self).coord == old(self).coord,
            final(self).debug == old(self).debug,
            final(self).inventory == old(self).inventory,
    {
        let k = self.room_slot();
        &mut self.room_inventories[k].1
    }
}

/// Seeding is deterministic: two states that both start a new game on the
/// same level and catalog are equal.
pub proof fn lemma_initialize_deterministic(db: ItemDatabase, level: Level, a: SaveState, b: SaveState)
    requires
        a@ == initial_state(db, level),
        b@ == initial_state(db, level),
    ensures
        a@ == b@,
        a@.coord == level.entry,
        !a@.debug,
{
}

/// A room found by coordinate is one of the rooms, at that coordinate.
pub proof fn lemma_room_at_index(rooms: Seq<Room>, c: Coord)
    ensures
        room_at(rooms, c) matches Some(r) ==> exists|i: int| 0 <= i < rooms.len() && #[trigger] rooms[i] == r && r.coord == c,
    decreases rooms.len(),
{
    if rooms.len() > 0 && rooms[0].coord != c {
        lemma_room_at_index(rooms.drop_first(), c);
        if let Some(r) = room_at(rooms, c) {
            let i = choose|i: int| 0 <= i < rooms.drop_first().len() && #[trigger] rooms.drop_first()[i] == r && r.coord == c;
            assert(rooms[i + 1] == rooms.drop_first()[i]);
        }
    }
}

} // verus!
