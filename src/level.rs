use vstd::prelude::*;
use vstd::string::*;

use crate::coord::Coord;
use crate::inventory::InventoryItem;
use crate::text::{contains_target, has_target, str_eq};

verus! {

/// The verbs that room and region actions respond to.
#[derive(Clone, Copy, Debug, PartialEq, Eq, Structural)]
pub enum Verb {
    Help,
    Look,
    Talk,
}

/// A scripted response: `value` answers `verb` aimed at any of `targets`.
#[derive(Debug)]
pub struct Action {
    pub verb: Verb,
    pub targets: Vec<String>,
    pub value: String,
}

/// A named group of actions shared by every room that lists it.
#[derive(Debug)]
pub struct Region {
    pub actions: Vec<Action>,
}

/// An item that an NPC sells, by catalog id, with its price.
#[derive(Debug)]
pub struct SaleItem {
    pub id: String,
    pub cost: usize,
}

/// A non-player character: read-only template data.
#[derive(Debug)]
pub struct NPC {
    pub name: String,
    pub description: String,
    pub targets: Vec<String>,
    pub talk: String,
    pub items: Vec<SaleItem>,
}

/// Placement of an item in a room when a session starts: the catalog id, the
/// placed quantity, and optional overrides of the name, the aliases and the
/// text shown on pickup.
#[derive(Debug)]
pub struct RoomItem {
    pub id: String,
    pub quantity: usize,
    pub name: Option<String>,
    pub targets: Vec<String>,
    pub pickup: Option<String>,
}

/// A room, identified by its coordinate.
#[derive(Debug)]
pub struct Room {
    pub title: String,
    pub coord: Coord,
    pub description: String,
    pub actions: Option<Vec<Action>>,
    pub items: Vec<RoomItem>,
    pub npcs: Vec<String>,
    pub regions: Vec<String>,
}

/// The world: one character grid per layer, the rooms, the entry coordinate,
/// and the NPC and region tables keyed by id.
#[derive(Debug)]
pub struct Level {
    pub maps: Vec<Vec<String>>,
    pub rooms: Vec<Room>,
    pub entry: Coord,
    pub npcs: Vec<(String, NPC)>,
    pub regions: Vec<(String, Region)>,
}

/// The item catalog: the template of every item type.
#[derive(Debug)]
pub struct ItemDatabase {
    pub items: Vec<InventoryItem>,
}

/// The value stored under the first key `id` of a keyed table.
pub open spec fn lookup<T>(entries: Seq<(String, T)>, id: Seq<char>) -> Option<T>
    decreases entries.len(),
{
    if entries.len() == 0 {
        None
    } else if entries[0].0@ == id {
        Some(entries[0].1)
    } else {
        lookup(entries.drop_first(), id)
    }
}

/// The first room of `rooms` at coordinate `c`.
pub open spec fn room_at(rooms: Seq<Room>, c: Coord) -> Option<Room>
    decreases rooms.len(),
{
    if rooms.len() == 0 {
        None
    } else if rooms[0].coord == c {
        Some(rooms[0])
    } else {
        room_at(rooms.drop_first(), c)
    }
}

/// The first catalog template with id `id`.
pub open spec fn catalog_item(items: Seq<InventoryItem>, id: Seq<char>) -> Option<InventoryItem>
    decreases items.len(),
{
    if items.len() == 0 {
        None
    } else if items[0].id@ == id {
        Some(items[0])
    } else {
        catalog_item(items.drop_first(), id)
    }
}

/// Whether `a` answers `verb` aimed at `t`.
pub open spec fn action_matches(a: Action, verb: Verb, t: Seq<char>) -> bool {
    a.verb == verb && has_target(a.targets@, t)
}

/// The first action of `actions` that answers `verb` aimed at `t`.
pub open spec fn first_action(actions: Seq<Action>, verb: Verb, t: Seq<char>) -> Option<Action>
    decreases actions.len(),
{
    if actions.len() == 0 {
        None
    } else if action_matches(actions[0], verb, t) {
        Some(actions[0])
    } else {
        first_action(actions.drop_first(), verb, t)
    }
}

/// The actions a room defines itself.
pub open spec fn own_actions(room: Room) -> Seq<Action> {
    match room.actions {
        Some(a) => a@,
        None => Seq::empty(),
    }
}

/// The first match among the regions `ids`, searched in order.
pub open spec fn region_action(level: Level, ids: Seq<String>, verb: Verb, t: Seq<char>) -> Option<
    Action,
>
    decreases ids.len(),
{
    if ids.len() == 0 {
        None
    } else {
        let here = match lookup(level.regions@, ids[0]@) {
            Some(region) => first_action(region.actions@, verb, t),
            None => None,
        };
        if here is Some {
            here
        } else {
            region_action(level, ids.drop_first(), verb, t)
        }
    }
}

/// The action that answers `verb` aimed at `t` in `room`: the room's own
/// actions first, then its regions in the order the room lists them.
pub open spec fn room_action(room: Room, level: Level, verb: Verb, t: Seq<char>) -> Option<Action> {
    let own = first_action(own_actions(room), verb, t);
    if own is Some {
        own
    } else {
        region_action(level, room.regions@, verb, t)
    }
}

/// Every region id that `room` lists is defined in `level`.
pub open spec fn regions_resolve(room: Room, level: Level) -> bool {
    forall|i: int| 0 <= i < room.regions@.len() ==> lookup(level.regions@, (#[trigger] room.regions@[i])@) is Some
}

/// Every NPC id that `room` lists is defined in `level`.
pub open spec fn npcs_resolve(room: Room, level: Level) -> bool {
    forall|i: int| 0 <= i < room.npcs@.len() ==> lookup(level.npcs@, (#[trigger] room.npcs@[i])@) is Some
}

/// The first NPC among `ids` that answers to `t`.
pub open spec fn first_npc(level: Level, ids: Seq<String>, t: Seq<char>) -> Option<NPC>
    decreases ids.len(),
{
    if ids.len() == 0 {
        None
    } else {
        match lookup(level.npcs@, ids[0]@) {
            Some(npc) => if has_target(npc.targets@, t) {
                Some(npc)
            } else {
                first_npc(level, ids.drop_first(), t)
            },
            None => first_npc(level, ids.drop_first(), t),
        }
    }
}

/// The value a borrowed option points at.
pub open spec fn deref_opt<T>(o: Option<&T>) -> Option<T> {
    match o {
        Some(v) => Some(*v),
        None => None,
    }
}

/// Looks up `id` in a keyed table; the first entry with that key wins.
pub fn find_entry<'a, T>(entries: &'a Vec<(String, T)>, id: &str) -> (r: Option<&'a T>)
    ensures
        deref_opt(r) == lookup(entries@, id@),
{
    let mut i: usize = 0;
    assert(entries@.subrange(0, entries@.len() as int) =~= entries@);
    while i < entries.len()
        invariant
            i <= entries@.len(),
            lookup(entries@, id@) == lookup(entries@.subrange(i as int, entries@.len() as int), id@),
        decreases entries@.len() - i,
    {
        let ghost rest = entries@.subrange(i as int, entries@.len() as int);
        assert(rest.drop_first() =~= entries@.subrange(i + 1, entries@.len() as int));
        if str_eq(entries[i].0.as_str(), id) {
            return Some(&entries[i].1);
        }
        i += 1;
    }
    None
}

/// The first action of `actions` that answers `verb` aimed at `target`.
pub fn find_in_actions<'a>(actions: &'a Vec<Action>, verb: Verb, target: &str) -> (r: Option<
    &'a Action,
>)
    ensures
        deref_opt(r) == first_action(actions@, verb, target@),
{
    let mut i: usize = 0;
    assert(actions@.subrange(0, actions@.len() as int) =~= actions@);
    while i < actions.len()
        invariant
            i <= actions@.len(),
            first_action(actions@, verb, target@) == first_action(
                actions@.subrange(i as int, actions@.len() as int),
                verb,
                target@,
            ),
        decreases actions@.len() - i,
    {
        let ghost rest = actions@.subrange(i as int, actions@.len() as int);
        assert(rest.drop_first() =~= actions@.subrange(i + 1, actions@.len() as int));
        let a = &actions[i];
        if a.verb == verb && contains_target(&a.targets, target) {
            return Some(a);
        }
        i += 1;
    }
    None
}

impl Level {
    /// The room at `coord`.
    pub fn get_room(&self, coord: &Coord) -> (r: Option<&Room>)
        ensures
            deref_opt(r) == room_at(self.rooms@, *coord),
    {
        let mut i: usize = 0;
        assert(self.rooms@.subrange(0, self.rooms@.len() as int) =~= self.rooms@);
        while i < self.rooms.len()
            invariant
                i <= self.rooms@.len(),
                room_at(self.rooms@, *coord) == room_at(
                    self.rooms@.subrange(i as int, self.rooms@.len() as int),
                    *coord,
                ),
            decreases self.rooms@.len() - i,
        {
            let ghost rest = self.rooms@.subrange(i as int, self.rooms@.len() as int);
            assert(rest.drop_first() =~= self.rooms@.subrange(i + 1, self.rooms@.len() as int));
            if self.rooms[i].coord == *coord {
                return Some(&self.rooms[i]);
            }
            i += 1;
        }
        None
    }
}

impl Room {
    /// The NPCs present in the room, in the order the room lists them.
    pub fn npcs_iter<'a>(&'a self, level: &'a Level) -> (r: Vec<&'a NPC>)
        requires
            npcs_resolve(*self, *level),
        ensures
            r@.len() == self.npcs@.len(),
            forall|i: int|
                0 <= i < r@.len() ==> lookup(level.npcs@, self.npcs@[i]@) == Some(*(#[trigger] r@[i])),
    {
        let mut r: Vec<&'a NPC> = Vec::new();
        let mut i: usize = 0;
        while i < self.npcs.len()
            invariant
                i <= self.npcs@.len(),
                npcs_resolve(*self, *level),
                r@.len() == i,
                forall|k: int|
                    0 <= k < i ==> lookup(level.npcs@, self.npcs@[k]@) == Some(*(#[trigger] r@[k])),
            decreases self.npcs@.len() - i,
        {
            assert(lookup(level.npcs@, self.npcs@[i as int]@) is Some);
            let npc = find_entry(&level.npcs, self.npcs[i].as_str());
            match npc {
                Some(n) => r.push(n),
                None => {},
            }
            i += 1;
        }
        r
    }

    /// The first NPC in the room that answers to `target`.
    pub fn get_npc<'a>(&'a self, level: &'a Level, target: &String) -> (r: Option<&'a NPC>)
        requires
            npcs_resolve(*self, *level),
        ensures
            deref_opt(r) == first_npc(*level, self.npcs@, target@),
    {
        let mut i: usize = 0;
        assert(self.npcs@.subrange(0, self.npcs@.len() as int) =~= self.npcs@);
        while i < self.npcs.len()
            invariant
                i <= self.npcs@.len(),
                first_npc(*level, self.npcs@, target@) == first_npc(
                    *level,
                    self.npcs@.subrange(i as int, self.npcs@.len() as int),
                    target@,
                ),
            decreases self.npcs@.len() - i,
        {
            let ghost rest = self.npcs@.subrange(i as int, self.npcs@.len() as int);
            assert(rest.drop_first() =~= self.npcs@.subrange(i + 1, self.npcs@.len() as int));
            if let Some(npc) = find_entry(&level.npcs, self.npcs[i].as_str()) {
                if contains_target(&npc.targets, target.as_str()) {
                    return Some(npc);
                }
            }
            i += 1;
        }
        None
    }

    /// The action answering `verb` aimed at `target`: the room's own actions
    /// are searched first, then each of its regions in the listed order (a
    /// region id the level lacks contributes nothing; the content check
    /// reports it before play).
    pub fn find_action<'a>(&'a self, verb: Verb, target: &String, level: &'a Level) -> (r: Option<
        &'a Action,
    >)
        ensures
            deref_opt(r) == room_action(*self, *level, verb, target@),
    {
        if let Some(actions) = &self.actions {
            if let Some(action) = find_in_actions(actions, verb, target.as_str()) {
                return Some(action);
            }
        }
        let mut i: usize = 0;
        assert(self.regions@.subrange(0, self.regions@.len() as int) =~= self.regions@);
        while i < self.regions.len()
            invariant
                i <= self.regions@.len(),
                first_action(own_actions(*self), verb, target@) is None,
                region_action(*level, self.regions@, verb, target@) == region_action(
                    *level,
                    self.regions@.subrange(i as int, self.regions@.len() as int),
                    verb,
                    target@,
                ),
            decreases self.regions@.len() - i,
        {
            let ghost rest = self.regions@.subrange(i as int, self.regions@.len() as int);
            assert(rest.drop_first() =~= self.regions@.subrange(i + 1, self.regions@.len() as int));
            if let Some(region) = find_entry(&level.regions, self.regions[i].as_str()) {
                if let Some(action) = find_in_actions(&region.actions, verb, target.as_str()) {
                    return Some(action);
                }
            }
            i += 1;
        }
        None
    }
}

impl NPC {
    /// The NPC's sale list resolved through the catalog: each template with
    /// its price, in the listed order.
    pub fn items_iter<'a>(&'a self, item_db: &'a ItemDatabase) -> (r: Vec<(&'a InventoryItem, usize)>)
        requires
            sales_resolve(*self, *item_db),
        ensures
            r@.len() == self.items@.len(),
            forall|i: int|
                0 <= i < r@.len() ==> Some(*(#[trigger] r@[i]).0) == catalog_item(
                    item_db.items@,
                    self.items@[i].id@,
                ) && r@[i].1 == self.items@[i].cost,
    {
        let mut r: Vec<(&'a InventoryItem, usize)> = Vec::new();
        let mut i: usize = 0;
        while i < self.items.len()
            invariant
                sales_resolve(*self, *item_db),
                i <= self.items@.len(),
                r@.len() == i,
                forall|k: int|
                    0 <= k < i ==> Some(*(#[trigger] r@[k]).0) == catalog_item(
                        item_db.items@,
                        self.items@[k].id@,
                    ) && r@[k].1 == self.items@[k].cost,
            decreases self.items@.len() - i,
        {
            let sale = &self.items[i];
            let item = item_db.get(sale.id.as_str());
            r.push((item, sale.cost));
            i += 1;
        }
        r
    }
}

/// Every item that `npc` sells is in the catalog.
pub open spec fn sales_resolve(npc: NPC, db: ItemDatabase) -> bool {
    forall|i: int| 0 <= i < npc.items@.len() ==> catalog_item(db.items@, (#[trigger] npc.items@[i]).id@) is Some
}

impl ItemDatabase {
    /// A catalog of the given templates.
    pub fn new(items: Vec<InventoryItem>) -> (r: ItemDatabase)
        ensures
            r.items@ == items@,
    {
        ItemDatabase { items }
    }

    /// The template with the id `id`.
    pub fn get(&self, id: &str) -> (r: &InventoryItem)
        requires
            catalog_item(self.items@, id@) is Some,
        ensures
            catalog_item(self.items@, id@) == Some(*r),
    {
        self.find(id).unwrap()
    }

    /// The template with the id `id`, if the catalog has one.
    pub fn find(&self, id: &str) -> (r: Option<&InventoryItem>)
        ensures
            deref_opt(r) == catalog_item(self.items@, id@),
    {
        let mut i: usize = 0;
        assert(self.items@.subrange(0, self.items@.len() as int) =~= self.items@);
        while i < self.items.len()
            invariant
                i <= self.items@.len(),
                catalog_item(self.items@, id@) == catalog_item(
                    self.items@.subrange(i as int, self.items@.len() as int),
                    id@,
                ),
            decreases self.items@.len() - i,
        {
            let ghost rest = self.items@.subrange(i as int, self.items@.len() as int);
            assert(rest.drop_first() =~= self.items@.subrange(i + 1, self.items@.len() as int));
            if str_eq(self.items[i].id.as_str(), id) {
                return Some(&self.items[i]);
            }
            i += 1;
        }
        None
    }
}

/// A value found in a keyed table is stored in it under that key.
pub proof fn lemma_lookup_index<T>(entries: Seq<(String, T)>, id: Seq<char>)
    ensures
        lookup(entries, id) matches Some(v) ==> exists|i: int|
            0 <= i < entries.len() && (#[trigger] entries[i]).1 == v && entries[i].0@ == id,
    decreases entries.len(),
{
    if entries.len() > 0 && entries[0].0@ != id {
        lemma_lookup_index(entries.drop_first(), id);
        if let Some(v) = lookup(entries, id) {
            let i = choose|i: int|
                0 <= i < entries.drop_first().len() && (#[trigger] entries.drop_first()[i]).1 == v
                    && entries.drop_first()[i].0@ == id;
            assert(entries[i + 1] == entries.drop_first()[i]);
        }
    }
}

/// The NPC found for a target in a room is one the room lists.
pub proof fn lemma_first_npc_listed(level: Level, ids: Seq<String>, t: Seq<char>)
    ensures
        first_npc(level, ids, t) matches Some(npc) ==> exists|i: int|
            0 <= i < ids.len() && lookup(level.npcs@, (#[trigger] ids[i])@) == Some(npc),
    decreases ids.len(),
{
    if ids.len() > 0 {
        lemma_first_npc_listed(level, ids.drop_first(), t);
        if let Some(npc) = first_npc(level, ids, t) {
            if lookup(level.npcs@, ids[0]@) != Some(npc) {
                let i = choose|i: int|
                    0 <= i < ids.drop_first().len() && lookup(level.npcs@, (#[trigger] ids.drop_first()[i])@) == Some(npc);
                assert(ids[i + 1] == ids.drop_first()[i]);
            }
        }
    }
}

/// Some action of `actions` answers `verb` aimed at `t`.
pub open spec fn answers(actions: Seq<Action>, verb: Verb, t: Seq<char>) -> bool {
    exists|i: int| 0 <= i < actions.len() && action_matches(#[trigger] actions[i], verb, t)
}

/// Some region among `ids` has an action answering `verb` aimed at `t`.
pub open spec fn region_answers(level: Level, ids: Seq<String>, verb: Verb, t: Seq<char>) -> bool {
    exists|i: int|
        0 <= i < ids.len() && match lookup(level.regions@, (#[trigger] ids[i])@) {
            Some(region) => answers(region.actions@, verb, t),
            None => false,
        }
}

/// The first match is found exactly when some action answers.
proof fn lemma_first_action_found(actions: Seq<Action>, verb: Verb, t: Seq<char>)
    ensures
        first_action(actions, verb, t) is Some <==> answers(actions, verb, t),
    decreases actions.len(),
{
    if actions.len() > 0 {
        lemma_first_action_found(actions.drop_first(), verb, t);
        if answers(actions, verb, t) && !action_matches(actions[0], verb, t) {
            let i = choose|i: int| 0 <= i < actions.len() && action_matches(#[trigger] actions[i], verb, t);
            assert(actions.drop_first()[i - 1] == actions[i]);
        }
        if answers(actions.drop_first(), verb, t) {
            let i = choose|i: int|
                0 <= i < actions.drop_first().len() && action_matches(#[trigger] actions.drop_first()[i], verb, t);
            assert(actions[i + 1] == actions.drop_first()[i]);
        }
    }
}

/// The search through regions finds an action exactly when some listed
/// region has one.
proof fn lemma_region_action_found(level: Level, ids: Seq<String>, verb: Verb, t: Seq<char>)
    ensures
        region_action(level, ids, verb, t) is Some <==> region_answers(level, ids, verb, t),
    decreases ids.len(),
{
    if ids.len() > 0 {
        lemma_region_action_found(level, ids.drop_first(), verb, t);
        if let Some(region) = lookup(level.regions@, ids[0]@) {
            lemma_first_action_found(region.actions@, verb, t);
        }
        if region_answers(level, ids, verb, t) {
            let i = choose|i: int|
                0 <= i < ids.len() && match lookup(level.regions@, (#[trigger] ids[i])@) {
                    Some(region) => answers(region.actions@, verb, t),
                    None => false,
                };
            if i > 0 {
                assert(ids.drop_first()[i - 1] == ids[i]);
            }
        }
        if region_answers(level, ids.drop_first(), verb, t) {
            let i = choose|i: int|
                0 <= i < ids.drop_first().len() && match lookup(level.regions@, (#[trigger] ids.drop_first()[i])@) {
                    Some(region) => answers(region.actions@, verb, t),
                    None => false,
                };
            assert(ids[i + 1] == ids.drop_first()[i]);
        }
    }
}

/// Action lookup order: when the room's own actions answer, their first
/// match is the result and the regions play no part (any other level gives
/// the same); otherwise an action is found exactly when one of the room's
/// listed regions answers.
pub proof fn lemma_find_action_order(room: Room, level: Level, other: Level, verb: Verb, t: Seq<char>)
    ensures
        answers(own_actions(room), verb, t) ==> room_action(room, level, verb, t) == first_action(
            own_actions(room),
            verb,
            t,
        ) && room_action(room, other, verb, t) == room_action(room, level, verb, t),
        !answers(own_actions(room), verb, t) ==> (room_action(room, level, verb, t) is Some
            <==> region_answers(level, room.regions@, verb, t)),
{
    lemma_first_action_found(own_actions(room), verb, t);
    lemma_region_action_found(level, room.regions@, verb, t);
}

/// A broken reference or duplicate in the world's content.
#[derive(Debug)]
pub enum ContentIssue {
    /// A room lists an NPC id that the NPC table lacks.
    DanglingNpc { room: Coord, id: String },
    /// A room lists a region id that the region table lacks.
    DanglingRegion { room: Coord, id: String },
    /// A room places an item id that the catalog lacks.
    UnknownRoomItem { room: Coord, id: String },
    /// An NPC sells an item id that the catalog lacks.
    UnknownSaleItem { npc: String, id: String },
    /// The catalog lacks an item the player starts with.
    MissingStartingItem(String),
    /// Two rooms share this coordinate.
    DuplicateRoom(Coord),
    /// Two entries of the NPC table share this id.
    DuplicateNpc(String),
    /// Two entries of the region table share this id.
    DuplicateRegion(String),
}

/// Every item that room `room` places is in the catalog.
pub open spec fn stock_resolves(room: Room, db: ItemDatabase) -> bool {
    forall|j: int| 0 <= j < room.items@.len() ==> catalog_item(db.items@, (#[trigger] room.items@[j]).id@) is Some
}

/// No two of the first `n` rooms share a coordinate.
pub open spec fn coords_distinct(rooms: Seq<Room>, n: int) -> bool {
    forall|i: int, j: int| 0 <= i < j < n ==> (#[trigger] rooms[i]).coord != (#[trigger] rooms[j]).coord
}

/// The world's content holds together: every reference resolves, the
/// player's starting items exist, and no two rooms share a coordinate.
pub open spec fn content_ok(level: Level, db: ItemDatabase) -> bool {
    &&& forall|i: int| 0 <= i < level.rooms@.len() ==> npcs_resolve(#[trigger] level.rooms@[i], level)
    &&& forall|i: int| 0 <= i < level.rooms@.len() ==> regions_resolve(#[trigger] level.rooms@[i], level)
    &&& forall|i: int| 0 <= i < level.rooms@.len() ==> stock_resolves(#[trigger] level.rooms@[i], db)
    &&& forall|i: int| 0 <= i < level.npcs@.len() ==> sales_resolve((#[trigger] level.npcs@[i]).1, db)
    &&& catalog_item(db.items@, "sword"@) is Some
    &&& catalog_item(db.items@, "gold"@) is Some
    &&& coords_distinct(level.rooms@, level.rooms@.len() as int)
    &&& keys_distinct(level.npcs@, level.npcs@.len() as int)
    &&& keys_distinct(level.regions@, level.regions@.len() as int)
}

/// No two of the first `n` entries of a keyed table share a key.
pub open spec fn keys_distinct<T>(entries: Seq<(String, T)>, n: int) -> bool {
    forall|a: int, b: int| 0 <= a < b < n ==> (#[trigger] entries[a]).0@ != (#[trigger] entries[b]).0@
}

/// The value of a content issue, with every string as its characters.
pub enum IssueView {
    DanglingNpc { room: Coord, id: Seq<char> },
    DanglingRegion { room: Coord, id: Seq<char> },
    UnknownRoomItem { room: Coord, id: Seq<char> },
    UnknownSaleItem { npc: Seq<char>, id: Seq<char> },
    MissingStartingItem(Seq<char>),
    DuplicateRoom(Coord),
    DuplicateNpc(Seq<char>),
    DuplicateRegion(Seq<char>),
}

impl View for ContentIssue {
    type V = IssueView;

    open spec fn view(&self) -> IssueView {
        match self {
            ContentIssue::DanglingNpc { room, id } => IssueView::DanglingNpc { room: *room, id: id@ },
            ContentIssue::DanglingRegion { room, id } => IssueView::DanglingRegion { room: *room, id: id@ },
            ContentIssue::UnknownRoomItem { room, id } => IssueView::UnknownRoomItem { room: *room, id: id@ },
            ContentIssue::UnknownSaleItem { npc, id } => IssueView::UnknownSaleItem { npc: npc@, id: id@ },
            ContentIssue::MissingStartingItem(id) => IssueView::MissingStartingItem(id@),
            ContentIssue::DuplicateRoom(c) => IssueView::DuplicateRoom(*c),
            ContentIssue::DuplicateNpc(id) => IssueView::DuplicateNpc(id@),
            ContentIssue::DuplicateRegion(id) => IssueView::DuplicateRegion(id@),
        }
    }
}

/// The views of a list of issues.
pub open spec fn issue_views(s: Seq<ContentIssue>) -> Seq<IssueView> {
    s.map_values(|e: ContentIssue| e@)
}

/// Appending an issue appends its view.
proof fn lemma_views_push(s: Seq<ContentIssue>, e: ContentIssue)
    ensures
        issue_views(s.push(e)) == issue_views(s).push(e@),
{
    assert(issue_views(s.push(e)) =~= issue_views(s).push(e@));
}

/// The NPC ids among `ids` that the NPC table lacks, as issues of the room at `c`.
pub open spec fn npc_issues(level: Level, c: Coord, ids: Seq<String>) -> Seq<IssueView>
    decreases ids.len(),
{
    if ids.len() == 0 {
        Seq::empty()
    } else {
        npc_issues(level, c, ids.drop_last()) + if lookup(level.npcs@, ids.last()@) is None {
            seq![IssueView::DanglingNpc { room: c, id: ids.last()@ }]
        } else {
            Seq::empty()
        }
    }
}

/// The region ids among `ids` that the region table lacks, as issues of the
/// room at `c`.
pub open spec fn region_issues(level: Level, c: Coord, ids: Seq<String>) -> Seq<IssueView>
    decreases ids.len(),
{
    if ids.len() == 0 {
        Seq::empty()
    } else {
        region_issues(level, c, ids.drop_last()) + if lookup(level.regions@, ids.last()@) is None {
            seq![IssueView::DanglingRegion { room: c, id: ids.last()@ }]
        } else {
            Seq::empty()
        }
    }
}

/// The placed item ids among `stubs` that the catalog lacks, as issues of
/// the room at `c`.
pub open spec fn stock_issues(db: ItemDatabase, c: Coord, stubs: Seq<RoomItem>) -> Seq<IssueView>
    decreases stubs.len(),
{
    if stubs.len() == 0 {
        Seq::empty()
    } else {
        stock_issues(db, c, stubs.drop_last()) + if catalog_item(db.items@, stubs.last().id@) is None {
            seq![IssueView::UnknownRoomItem { room: c, id: stubs.last().id@ }]
        } else {
            Seq::empty()
        }
    }
}

/// The sold item ids among `sales` that the catalog lacks, as issues of the
/// NPC `name`.
pub open spec fn sale_issues(db: ItemDatabase, name: Seq<char>, sales: Seq<SaleItem>) -> Seq<IssueView>
    decreases sales.len(),
{
    if sales.len() == 0 {
        Seq::empty()
    } else {
        sale_issues(db, name, sales.drop_last()) + if catalog_item(db.items@, sales.last().id@) is None {
            seq![IssueView::UnknownSaleItem { npc: name, id: sales.last().id@ }]
        } else {
            Seq::empty()
        }
    }
}

/// One issue for each of the first `j` rooms that shares room `i`'s coordinate.
pub open spec fn duplicate_issues(rooms: Seq<Room>, i: int, j: int) -> Seq<IssueView>
    decreases j,
{
    if j <= 0 {
        Seq::empty()
    } else {
        duplicate_issues(rooms, i, j - 1) + if rooms[j - 1].coord == rooms[i].coord {
            seq![IssueView::DuplicateRoom(rooms[i].coord)]
        } else {
            Seq::empty()
        }
    }
}

/// The issues of one room: its NPC ids, region ids and placed items.
pub open spec fn room_issues(level: Level, db: ItemDatabase, room: Room) -> Seq<IssueView> {
    npc_issues(level, room.coord, room.npcs@) + region_issues(level, room.coord, room.regions@)
        + stock_issues(db, room.coord, room.items@)
}

/// The issues of the first `n` rooms, each followed by its clashes with the
/// rooms before it.
pub open spec fn rooms_issues(level: Level, db: ItemDatabase, n: int) -> Seq<IssueView>
    decreases n,
{
    if n <= 0 {
        Seq::empty()
    } else {
        rooms_issues(level, db, n - 1) + room_issues(level, db, level.rooms@[n - 1])
            + duplicate_issues(level.rooms@, n - 1, n - 1)
    }
}

/// The issue for a repeated key of the NPC table (`npc`) or of the region
/// table.
pub open spec fn key_issue(npc: bool, id: Seq<char>) -> IssueView {
    if npc {
        IssueView::DuplicateNpc(id)
    } else {
        IssueView::DuplicateRegion(id)
    }
}

/// One issue for each of the first `j` entries that shares entry `i`'s key.
pub open spec fn key_clashes<T>(entries: Seq<(String, T)>, npc: bool, i: int, j: int) -> Seq<IssueView>
    decreases j,
{
    if j <= 0 {
        Seq::empty()
    } else {
        key_clashes(entries, npc, i, j - 1) + if entries[j - 1].0@ == entries[i].0@ {
            seq![key_issue(npc, entries[i].0@)]
        } else {
            Seq::empty()
        }
    }
}

/// The issues of the first `n` entries of the NPC table: unknown sale items,
/// then clashes with the entries before.
pub open spec fn npcs_issues(db: ItemDatabase, npcs: Seq<(String, NPC)>, n: int) -> Seq<IssueView>
    decreases n,
{
    if n <= 0 {
        Seq::empty()
    } else {
        npcs_issues(db, npcs, n - 1) + sale_issues(db, npcs[n - 1].0@, npcs[n - 1].1.items@)
            + key_clashes(npcs, true, n - 1, n - 1)
    }
}

/// The clashes among the first `n` entries of the region table.
pub open spec fn regions_issues(regions: Seq<(String, Region)>, n: int) -> Seq<IssueView>
    decreases n,
{
    if n <= 0 {
        Seq::empty()
    } else {
        regions_issues(regions, n - 1) + key_clashes(regions, false, n - 1, n - 1)
    }
}

/// The starting items that the catalog lacks.
pub open spec fn starting_issues(db: ItemDatabase) -> Seq<IssueView> {
    (if catalog_item(db.items@, "sword"@) is None {
        seq![IssueView::MissingStartingItem("sword"@)]
    } else {
        Seq::empty()
    }) + (if catalog_item(db.items@, "gold"@) is None {
        seq![IssueView::MissingStartingItem("gold"@)]
    } else {
        Seq::empty()
    })
}

/// The full report on `level` and `db`: room by room, then NPC by NPC, then
/// the region table, then the starting items.
pub open spec fn content_issues(level: Level, db: ItemDatabase) -> Seq<IssueView> {
    rooms_issues(level, db, level.rooms@.len() as int) + npcs_issues(db, level.npcs@, level.npcs@.len() as int)
        + regions_issues(level.regions@, level.regions@.len() as int) + starting_issues(db)
}

/// Reports each NPC id, region id and item id of `room` that does not resolve.
fn check_room(level: &Level, db: &ItemDatabase, room: &Room, issues: &mut Vec<ContentIssue>)
    ensures
        issue_views(final(issues)@) == issue_views(old(issues)@) + room_issues(*level, *db, *room),
        final(issues)@.len() == old(issues)@.len() <==> (npcs_resolve(*room, *level) && regions_resolve(
            *room,
            *level,
        ) && stock_resolves(*room, *db)),
{
    let ghost start = issues@;
    let mut i: usize = 0;
    assert(room.npcs@.take(0) =~= Seq::<String>::empty());
    while i < room.npcs.len()
        invariant
            i <= room.npcs@.len(),
            issue_views(issues@) == issue_views(start) + npc_issues(*level, room.coord, room.npcs@.take(i as int)),
            issues@.len() >= start.len(),
            issues@.len() == start.len() <==> forall|k: int| 0 <= k < i ==> lookup(level.npcs@, (#[trigger] room.npcs@[k])@) is Some,
        decreases room.npcs@.len() - i,
    {
        assert(room.npcs@.take(i + 1).drop_last() =~= room.npcs@.take(i as int));
        assert(room.npcs@.take(i + 1).last() == room.npcs@[i as int]);
        let ghost before = issues@;
        if find_entry(&level.npcs, room.npcs[i].as_str()).is_none() {
            let e = ContentIssue::DanglingNpc { room: room.coord, id: room.npcs[i].clone() };
            proof {
                lemma_views_push(before, e);
            }
            issues.push(e);
        }
        assert(issue_views(issues@) =~= issue_views(start) + npc_issues(*level, room.coord, room.npcs@.take(i + 1)));
        i += 1;
    }
    assert(room.npcs@.take(i as int) =~= room.npcs@);
    let ghost after_npcs = issues@;
    let mut i: usize = 0;
    assert(room.regions@.take(0) =~= Seq::<String>::empty());
    while i < room.regions.len()
        invariant
            i <= room.regions@.len(),
            after_npcs.len() >= start.len(),
            issue_views(issues@) == issue_views(after_npcs) + region_issues(*level, room.coord, room.regions@.take(i as int)),
            issues@.len() >= after_npcs.len(),
            issues@.len() == after_npcs.len() <==> forall|k: int| 0 <= k < i ==> lookup(level.regions@, (#[trigger] room.regions@[k])@) is Some,
        decreases room.regions@.len() - i,
    {
        assert(room.regions@.take(i + 1).drop_last() =~= room.regions@.take(i as int));
        assert(room.regions@.take(i + 1).last() == room.regions@[i as int]);
        let ghost before = issues@;
        if find_entry(&level.regions, room.regions[i].as_str()).is_none() {
            let e = ContentIssue::DanglingRegion { room: room.coord, id: room.regions[i].clone() };
            proof {
                lemma_views_push(before, e);
            }
            issues.push(e);
        }
        assert(issue_views(issues@) =~= issue_views(after_npcs) + region_issues(*level, room.coord, room.regions@.take(i + 1)));
        i += 1;
    }
    assert(room.regions@.take(i as int) =~= room.regions@);
    let ghost after_regions = issues@;
    let mut i: usize = 0;
    assert(room.items@.take(0) =~= Seq::<RoomItem>::empty());
    while i < room.items.len()
        invariant
            i <= room.items@.len(),
            after_regions.len() >= after_npcs.len(),
            after_npcs.len() >= start.len(),
            issue_views(issues@) == issue_views(after_regions) + stock_issues(*db, room.coord, room.items@.take(i as int)),
            issues@.len() >= after_regions.len(),
            issues@.len() == after_regions.len() <==> forall|k: int| 0 <= k < i ==> catalog_item(db.items@, (#[trigger] room.items@[k]).id@) is Some,
        decreases room.items@.len() - i,
    {
        assert(room.items@.take(i + 1).drop_last() =~= room.items@.take(i as int));
        assert(room.items@.take(i + 1).last() == room.items@[i as int]);
        let ghost before = issues@;
        if db.find(room.items[i].id.as_str()).is_none() {
            let e = ContentIssue::UnknownRoomItem { room: room.coord, id: room.items[i].id.clone() };
            proof {
                lemma_views_push(before, e);
            }
            issues.push(e);
        }
        assert(issue_views(issues@) =~= issue_views(after_regions) + stock_issues(*db, room.coord, room.items@.take(i + 1)));
        i += 1;
    }
    assert(room.items@.take(i as int) =~= room.items@);
    assert(issue_views(issues@) =~= issue_views(start) + room_issues(*level, *db, *room));
}

/// Reports each sale item of `npc` that the catalog lacks.
fn check_npc(db: &ItemDatabase, name: &String, npc: &NPC, issues: &mut Vec<ContentIssue>)
    ensures
        issue_views(final(issues)@) == issue_views(old(issues)@) + sale_issues(*db, name@, npc.items@),
        final(issues)@.len() == old(issues)@.len() <==> sales_resolve(*npc, *db),
{
    let ghost start = issues@;
    let mut i: usize = 0;
    assert(npc.items@.take(0) =~= Seq::<SaleItem>::empty());
    while i < npc.items.len()
        invariant
            i <= npc.items@.len(),
            issue_views(issues@) == issue_views(start) + sale_issues(*db, name@, npc.items@.take(i as int)),
            issues@.len() >= start.len(),
            issues@.len() == start.len() <==> forall|k: int| 0 <= k < i ==> catalog_item(db.items@, (#[trigger] npc.items@[k]).id@) is Some,
        decreases npc.items@.len() - i,
    {
        assert(npc.items@.take(i + 1).drop_last() =~= npc.items@.take(i as int));
        assert(npc.items@.take(i + 1).last() == npc.items@[i as int]);
        let ghost before = issues@;
        if db.find(npc.items[i].id.as_str()).is_none() {
            let e = ContentIssue::UnknownSaleItem { npc: name.clone(), id: npc.items[i].id.clone() };
            proof {
                lemma_views_push(before, e);
            }
            issues.push(e);
        }
        assert(issue_views(issues@) =~= issue_views(start) + sale_issues(*db, name@, npc.items@.take(i + 1)));
        i += 1;
    }
    assert(npc.items@.take(i as int) =~= npc.items@);
}

/// The first `i + 1` keys are distinct exactly when the first `i` are and
/// key `i` differs from each of them.
proof fn lemma_keys_distinct_step<T>(entries: Seq<(String, T)>, i: int)
    requires
        0 <= i < entries.len(),
    ensures
        keys_distinct(entries, i + 1) <==> (keys_distinct(entries, i) && forall|k: int|
            0 <= k < i ==> (#[trigger] entries[k]).0@ != entries[i].0@),
{
    if keys_distinct(entries, i) && forall|k: int| 0 <= k < i ==> (#[trigger] entries[k]).0@ != entries[i].0@ {
        assert forall|a: int, b: int| 0 <= a < b < i + 1 implies (#[trigger] entries[a]).0@ != (#[trigger] entries[b]).0@ by {
            if b == i {
                assert(entries[a].0@ != entries[i].0@);
            }
        }
    }
    if keys_distinct(entries, i + 1) {
        assert forall|k: int| 0 <= k < i implies (#[trigger] entries[k]).0@ != entries[i].0@ by {
            assert(entries[k].0@ != entries[i].0@);
        }
    }
}

/// Reports each entry before `i` that shares entry `i`'s key.
fn check_key<T>(entries: &Vec<(String, T)>, i: usize, npc: bool, issues: &mut Vec<ContentIssue>)
    requires
        i < entries@.len(),
    ensures
        issue_views(final(issues)@) == issue_views(old(issues)@) + key_clashes(entries@, npc, i as int, i as int),
        final(issues)@.len() >= old(issues)@.len(),
        final(issues)@.len() == old(issues)@.len() <==> forall|k: int| 0 <= k < i ==> (#[trigger] entries@[k]).0@ != entries@[i as int].0@,
{
    let ghost start = issues@;
    let mut j: usize = 0;
    while j < i
        invariant
            j <= i < entries@.len(),
            issue_views(issues@) == issue_views(start) + key_clashes(entries@, npc, i as int, j as int),
            issues@.len() >= start.len(),
            issues@.len() == start.len() <==> forall|k: int| 0 <= k < j ==> (#[trigger] entries@[k]).0@ != entries@[i as int].0@,
        decreases i - j,
    {
        let ghost before = issues@;
        if str_eq(entries[j].0.as_str(), entries[i].0.as_str()) {
            let e = if npc {
                ContentIssue::DuplicateNpc(entries[i].0.clone())
            } else {
                ContentIssue::DuplicateRegion(entries[i].0.clone())
            };
            proof {
                lemma_views_push(before, e);
            }
            issues.push(e);
        }
        assert(issue_views(issues@) =~= issue_views(start) + key_clashes(entries@, npc, i as int, j + 1));
        j += 1;
    }
}

impl Level {
    /// Every inconsistency of the content against itself and the catalog,
    /// room by room, then NPC by NPC, then the starting items: an empty list
    /// exactly when the content holds together.
    pub fn check_content(&self, item_db: &ItemDatabase) -> (r: Vec<ContentIssue>)
        ensures
            issue_views(r@) == content_issues(*self, *item_db),
            r@.len() == 0 <==> content_ok(*self, *item_db),
    {
        let mut issues: Vec<ContentIssue> = Vec::new();
        assert(issue_views(issues@) =~= Seq::<IssueView>::empty());
        let mut i: usize = 0;
        while i < self.rooms.len()
            invariant
                i <= self.rooms@.len(),
                issue_views(issues@) == rooms_issues(*self, *item_db, i as int),
                issues@.len() == 0 <==> (forall|k: int| 0 <= k < i ==> npcs_resolve(#[trigger] self.rooms@[k], *self)
                    && regions_resolve(self.rooms@[k], *self) && stock_resolves(self.rooms@[k], *item_db))
                    && coords_distinct(self.rooms@, i as int),
            decreases self.rooms@.len() - i,
        {
            check_room(self, item_db, &self.rooms[i], &mut issues);
            let mut j: usize = 0;
            let ghost mid = issues@;
            while j < i
                invariant
                    j <= i < self.rooms@.len(),
                    issue_views(issues@) == issue_views(mid) + duplicate_issues(self.rooms@, i as int, j as int),
                    issues@.len() >= mid.len(),
                    issues@.len() == mid.len() <==> forall|k: int| 0 <= k < j ==> (#[trigger] self.rooms@[k]).coord != self.rooms@[i as int].coord,
                decreases i - j,
            {
                let ghost before = issues@;
                if self.rooms[j].coord == self.rooms[i].coord {
                    let e = ContentIssue::DuplicateRoom(self.rooms[i].coord);
                    proof {
                        lemma_views_push(before, e);
                    }
                    issues.push(e);
                }
                assert(issue_views(issues@) =~= issue_views(mid) + duplicate_issues(self.rooms@, i as int, j + 1));
                j += 1;
            }
            proof {
                assert(issue_views(issues@) =~= rooms_issues(*self, *item_db, i + 1));
                if coords_distinct(self.rooms@, i as int) && issues@.len() == mid.len() {
                    assert forall|a: int, b: int| 0 <= a < b < i + 1 implies (#[trigger] self.rooms@[a]).coord != (#[trigger] self.rooms@[b]).coord by {
                        if b == i {
                            assert(self.rooms@[a].coord != self.rooms@[i as int].coord);
                        }
                    }
                }
                if coords_distinct(self.rooms@, i + 1) {
                    assert forall|k: int| 0 <= k < i implies (#[trigger] self.rooms@[k]).coord != self.rooms@[i as int].coord by {
                        assert(self.rooms@[k].coord != self.rooms@[i as int].coord);
                    }
                }
            }
            i += 1;
        }
        let ghost after_rooms = issues@;
        let mut i: usize = 0;
        while i < self.npcs.len()
            invariant
                i <= self.npcs@.len(),
                issue_views(issues@) == issue_views(after_rooms) + npcs_issues(*item_db, self.npcs@, i as int),
                issues@.len() >= after_rooms.len(),
                issues@.len() == after_rooms.len() <==> (forall|k: int| 0 <= k < i ==> sales_resolve((#[trigger] self.npcs@[k]).1, *item_db))
                    && keys_distinct(self.npcs@, i as int),
            decreases self.npcs@.len() - i,
        {
            let ghost before = issues@;
            check_npc(item_db, &self.npcs[i].0, &self.npcs[i].1, &mut issues);
            let ghost mid = issues@;
            check_key(&self.npcs, i, true, &mut issues);
            proof {
                assert(issue_views(issues@) =~= issue_views(after_rooms) + npcs_issues(*item_db, self.npcs@, i + 1));
                lemma_keys_distinct_step(self.npcs@, i as int);
            }
            i += 1;
        }
        let ghost after_npcs = issues@;
        let mut i: usize = 0;
        while i < self.regions.len()
            invariant
                i <= self.regions@.len(),
                issue_views(issues@) == issue_views(after_npcs) + regions_issues(self.regions@, i as int),
                issues@.len() >= after_npcs.len(),
                issues@.len() == after_npcs.len() <==> keys_distinct(self.regions@, i as int),
            decreases self.regions@.len() - i,
        {
            check_key(&self.regions, i, false, &mut issues);
            proof {
                assert(issue_views(issues@) =~= issue_views(after_npcs) + regions_issues(self.regions@, i + 1));
                lemma_keys_distinct_step(self.regions@, i as int);
            }
            i += 1;
        }
        if item_db.find("sword").is_none() {
            let e = ContentIssue::MissingStartingItem(String::from_str("sword"));
            proof {
                lemma_views_push(issues@, e);
            }
            issues.push(e);
        }
        if item_db.find("gold").is_none() {
            let e = ContentIssue::MissingStartingItem(String::from_str("gold"));
            proof {
                lemma_views_push(issues@, e);
            }
            issues.push(e);
        }
        assert(issue_views(issues@) =~= content_issues(*self, *item_db));
        issues
    }
}

} // verus!
