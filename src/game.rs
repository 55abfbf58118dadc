use vstd::prelude::*;
use vstd::string::*;

use crate::command::{debug_quoted, quoted_of, CommandView, ParsedCommand};
use crate::coord::{direction_name, Coord, Direction};
use crate::inventory::{
    shown_name,
    stock_fits, stocked, add_fits, added, display_name, drop_matches, has_id, id_index, ids_unique,
    take_matches, DropResult, ItemView, StubView,
};
use crate::level::{
    catalog_item, content_ok, first_npc, lemma_first_npc_listed, lemma_lookup_index, lookup,
    npcs_resolve, regions_resolve, room_action, room_at, sales_resolve, stock_resolves,
    ContentIssue, ItemDatabase, Level, Room, SaleItem, Verb, NPC,
};
use crate::display::{format_description, formatted};
use crate::map::{
    bad_cell, exits_text, expected_exit, expected_info, missing_room, parse_map, passable, print_exits,
    MapError, RoomMap, RoomMapInfo,
};
use crate::session::{
    has_slot, initial_state, lemma_room_at_index, slot_of, state_fits, template, SaveState,
    SaveStateView,
};
use crate::text::{decimal, decimal_string, opt_chars, str_eq, strs};

verus! {

/// What the presentation layer shows after a command.
#[derive(Debug)]
pub enum Response {
    /// The current room: its title, description, items, exits and, in debug
    /// mode, its coordinate.
    Describe,
    /// A line of free text.
    Text(String),
    /// An NPC's description, and what it sells, one line per item.
    Npc(String, Vec<String>),
    /// The general help text.
    ShowHelp,
    /// The player's inventory, one line per item; no line when it is empty.
    Inventory(Vec<String>),
    /// Save the session and stop.
    Quit,
    /// After confirmation, discard the saved session and start over.
    Restart,
}

/// The value of a response.
pub enum ResponseView {
    Describe,
    Text(Seq<char>),
    Npc(Seq<char>, Seq<Seq<char>>),
    ShowHelp,
    Inventory(Seq<Seq<char>>),
    Quit,
    Restart,
}

impl View for Response {
    type V = ResponseView;

    open spec fn view(&self) -> ResponseView {
        match self {
            Response::Describe => ResponseView::Describe,
            Response::Text(t) => ResponseView::Text(t@),
            Response::Npc(d, lines) => ResponseView::Npc(d@, crate::text::strs(lines@)),
            Response::ShowHelp => ResponseView::ShowHelp,
            Response::Inventory(lines) => ResponseView::Inventory(crate::text::strs(lines@)),
            Response::Quit => ResponseView::Quit,
            Response::Restart => ResponseView::Restart,
        }
    }
}

/// What the presentation layer shows of the current room.
#[derive(Debug)]
pub struct RoomDescription {
    /// The room's title.
    pub title: String,
    /// The room's description, laid out for display.
    pub description: String,
    /// The name of each item lying in the room, in order.
    pub items: Vec<String>,
    /// Whether the room was authored with items, so that a blank line
    /// follows their names.
    pub spaced: bool,
    /// In debug mode, the line giving the room's coordinate.
    pub debug: Option<String>,
    /// The exits line.
    pub exits: String,
}

/// The debug line for `c`: `Coord: [x, y, z]`.
pub open spec fn coord_line(c: Coord) -> Seq<char> {
    "Coord: ["@ + decimal(c.x as nat) + ", "@ + decimal(c.y as nat) + ", "@ + decimal(c.z as nat) + "]"@
}

/// Why a game cannot start.
#[derive(Debug)]
pub enum SetupError {
    /// The content's references do not hold together.
    Content(Vec<ContentIssue>),
    /// The grids are malformed or call for rooms that are not defined.
    Grid(MapError),
    /// The session state does not fit the level.
    BadSave,
    /// The current position is not a passable cell of the grids.
    NotOnMap(Coord),
}

/// The grids hold only known characters and every passable cell has a room.
pub open spec fn map_ok(level: Level) -> bool {
    &&& forall|c: Coord| !bad_cell(level, c)
    &&& forall|c: Coord| !missing_room(level, c)
}

/// The state a game starts from: the saved one, or a new one.
pub open spec fn chosen_state(db: ItemDatabase, level: Level, saved: Option<SaveState>) -> SaveStateView {
    match saved {
        Some(s) => s@,
        None => initial_state(db, level),
    }
}

/// The first item of `p` that `name` designates is at `m`.
pub open spec fn first_drop_at(p: Seq<ItemView>, name: Seq<char>, m: int) -> bool {
    &&& 0 <= m < p.len()
    &&& drop_matches(p[m], name)
    &&& forall|j: int| 0 <= j < m ==> !drop_matches(#[trigger] p[j], name)
}

/// The first entry of `s` that `name` designates is at `m`.
pub open spec fn first_take_at(s: Seq<(StubView, ItemView)>, name: Seq<char>, m: int) -> bool {
    &&& 0 <= m < s.len()
    &&& take_matches(s[m], name)
    &&& forall|j: int| 0 <= j < m ==> !take_matches(#[trigger] s[j], name)
}

/// `v` with the player's items `inv` and the room inventories `rooms`.
pub open spec fn with_items(
    v: SaveStateView,
    inv: Seq<ItemView>,
    rooms: Seq<(Coord, Seq<(StubView, ItemView)>)>,
) -> SaveStateView {
    SaveStateView { coord: v.coord, debug: v.debug, inventory: inv, room_inventories: rooms }
}

/// A running game: the world, the catalog, the session state and the exits
/// of every passable cell.
#[derive(Debug)]
pub struct Game {
    pub level: Level,
    pub item_db: ItemDatabase,
    pub save_state: SaveState,
    pub room_map: RoomMap,
}

impl Game {
    /// The content and grids are valid, the exits are resolved, and the
    /// session state fits the level with the player on a passable cell.
    #[verifier::opaque]
    pub open spec fn wf(&self) -> bool {
        &&& content_ok(self.level, self.item_db)
        &&& map_ok(self.level)
        &&& self.room_map.resolves(self.level)
        &&& self.save_state.wf(self.level)
        &&& passable(self.level, self.save_state.coord)
    }

    /// Starts a game from a saved session state, or from a new one when there
    /// is none. The content is checked first, then the grids, then the state.
    pub fn new(level: Level, item_db: ItemDatabase, saved: Option<SaveState>) -> (r: Result<Game, SetupError>)
        ensures
            match r {
                Ok(g) => {
                    &&& g.wf()
                    &&& g.level == level
                    &&& g.item_db == item_db
                    &&& g.save_state@ == chosen_state(item_db, level, saved)
                },
                Err(SetupError::Content(v)) => !content_ok(level, item_db) && v@.len() > 0,
                Err(SetupError::Grid(_)) => content_ok(level, item_db) && !map_ok(level),
                Err(SetupError::BadSave) => content_ok(level, item_db) && map_ok(level) && !state_fits(
                    chosen_state(item_db, level, saved),
                    level,
                ),
                Err(SetupError::NotOnMap(c)) => {
                    &&& content_ok(level, item_db)
                    &&& map_ok(level)
                    &&& state_fits(chosen_state(item_db, level, saved), level)
                    &&& c == chosen_state(item_db, level, saved).coord
                    &&& !passable(level, c)
                },
            },
    {
        proof {
            reveal(Game::wf);
        }
        let issues = level.check_content(&item_db);
        if issues.len() > 0 {
            return Err(SetupError::Content(issues));
        }
        let room_map = match parse_map(&level) {
            Ok(m) => m,
            Err(e) => {
                proof {
                    match &e {
                        MapError::MissingRooms(v) => {
                            assert(v@.contains(v@[0]));
                            assert(missing_room(level, v@[0]));
                        },
                        MapError::UnknownCharacter(c) => {
                            assert(bad_cell(level, *c));
                        },
                    }
                    assert(!map_ok(level));
                }
                return Err(SetupError::Grid(e));
            },
        };
        let save_state = match saved {
            Some(s) => s,
            None => {
                proof {
                    assert forall|i: int, j: int|
                        0 <= i < level.rooms@.len() && 0 <= j < level.rooms@[i].items@.len() implies crate::level::catalog_item(
                        item_db.items@,
                        (#[trigger] level.rooms@[i].items@[j]).id@,
                    ) is Some by {
                        assert(stock_resolves(level.rooms@[i], item_db));
                    }
                }
                SaveState::initialize(&item_db, &level)
            },
        };
        if !save_state.fits(&level) {
            return Err(SetupError::BadSave);
        }
        if room_map.get(&save_state.coord).is_none() {
            proof {
                if passable(level, save_state.coord) {
                    let i = choose|i: int| 0 <= i < room_map.entries@.len() && (#[trigger] room_map.entries@[i]).0 == save_state.coord;
                    assert(room_map.entries@[i].0 == save_state.coord);
                }
            }
            return Err(SetupError::NotOnMap(save_state.coord));
        }
        Ok(Game { level, item_db, save_state, room_map })
    }

    /// The room the player is in.
    pub fn room(&self) -> (r: &Room)
        requires
            self.wf(),
        ensures
            room_at(self.level.rooms@, self.save_state.coord) == Some(*r),
    {
        proof {
            reveal(Game::wf);
        }
        self.level.get_room(&self.save_state.coord).unwrap()
    }

    /// Everything the presentation layer shows of the current room.
    pub fn describe(&self) -> (r: RoomDescription)
        requires
            self.wf(),
            current_room(*self).description@.len() <= usize::MAX / 16,
        ensures
            r.title@ == current_room(*self).title@,
            r.description@ == formatted(current_room(*self).description@),
            strs(r.items@) == self.save_state@.room_inventories[slot_of(
                self.save_state@.room_inventories,
                self.save_state.coord,
            )].1.map_values(|e: (StubView, ItemView)| shown_name(e)),
            r.spaced == (current_room(*self).items@.len() > 0),
            r.debug is Some <==> self.save_state.debug,
            r.debug matches Some(l) ==> l@ == coord_line(self.save_state.coord),
            r.exits@ == exits_text(expected_info(self.level, self.save_state.coord)),
    {
        proof {
            lemma_wf_facts(*self);
        }
        let room = self.room();
        let k = self.save_state.room_slot();
        let names = self.save_state.room_inventories[k].1.item_names_iter();
        let ghost here = self.save_state@.room_inventories[k as int].1;
        assert(self.save_state.room_inventories@[k as int].1@ == here);
        let mut items: Vec<String> = Vec::new();
        let mut i: usize = 0;
        while i < names.len()
            invariant
                i <= names@.len(),
                names@.len() == here.len(),
                forall|j: int| 0 <= j < names@.len() ==> (#[trigger] names@[j])@ == shown_name(here[j]),
                strs(items@) == here.map_values(|e: (StubView, ItemView)| shown_name(e)).subrange(0, i as int),
            decreases names@.len() - i,
        {
            let ghost before = items@;
            items.push(names[i].to_owned());
            assert(strs(items@) =~= strs(before).push(names@[i as int]@));
            assert(strs(items@) =~= here.map_values(|e: (StubView, ItemView)| shown_name(e)).subrange(0, i + 1));
            i += 1;
        }
        assert(here.map_values(|e: (StubView, ItemView)| shown_name(e)).subrange(0, i as int) =~= here.map_values(|e: (StubView, ItemView)| shown_name(e)));
        let debug = if self.save_state.debug {
            let c = self.save_state.coord;
            let mut l = String::from_str("Coord: [");
            l.append(decimal_string(c.x).as_str());
            l.append(", ");
            l.append(decimal_string(c.y).as_str());
            l.append(", ");
            l.append(decimal_string(c.z).as_str());
            l.append("]");
            Some(l)
        } else {
            None
        };
        RoomDescription {
            title: room.title.clone(),
            description: format_description(room.description.as_str()),
            items,
            spaced: room.items.len() > 0,
            debug,
            exits: print_exits(&self.room_info()),
        }
    }

    /// The exits of the cell the player is on.
    pub fn room_info(&self) -> (r: RoomMapInfo)
        requires
            self.wf(),
        ensures
            r == expected_info(self.level, self.save_state.coord),
    {
        proof {
            reveal(Game::wf);
        }
        let c = self.save_state.coord;
        match self.room_map.get(&c) {
            Some(info) => info,
            None => {
                proof {
                    let i = choose|i: int| 0 <= i < self.room_map.entries@.len() && (#[trigger] self.room_map.entries@[i]).0 == c;
                    assert(self.room_map.entries@[i].0 == c);
                }
                RoomMapInfo { north: None, east: None, south: None, west: None }
            },
        }
    }

    /// Moves one cell in `direction` where the grids have an exit; otherwise
    /// stays and says so.
    pub fn go(&mut self, direction: Direction) -> (r: Response)
        requires
            old(self).wf(),
        ensures
            final(self).wf(),
            moved(*old(self), *final(self), direction, r@),
    {
        proof {
            reveal(Game::wf);
        }
        let info = self.room_info();
        match info.from_direction(&direction) {
            Some(next) => {
                proof {
                    assert(passable(self.level, next));
                    assert(!missing_room(self.level, next));
                }
                self.save_state.coord = next;
                Response::Describe
            },
            None => {
                let mut m = String::from_str("You cannot move ");
                m.append(direction.lowercase_string());
                m.append(".");
                Response::Text(m)
            },
        }
    }

    /// Turns debug output on or off.
    pub fn toggle_debug(&mut self) -> (r: Response)
        requires
            old(self).wf(),
        ensures
            final(self).wf(),
            toggled(*old(self), *final(self), r@),
    {
        proof {
            reveal(Game::wf);
        }
        self.save_state.debug = !self.save_state.debug;
        if self.save_state.debug {
            Response::Text(String::from_str("Debug mode activated."))
        } else {
            Response::Text(String::from_str("Debug mode de-activated."))
        }
    }
}

/// The world, the catalog and the exits are the same in `a` and `b`.
pub open spec fn same_world(a: Game, b: Game) -> bool {
    &&& b.level == a.level
    &&& b.item_db == a.item_db
    &&& b.room_map == a.room_map
}

/// `b` and `r` are what moving from `a` in direction `d` gives: the cell the
/// exit leads to, or no move and a message when there is none.
pub open spec fn moved(a: Game, b: Game, d: Direction, r: ResponseView) -> bool {
    &&& same_world(a, b)
    &&& b.save_state.debug == a.save_state.debug
    &&& b.save_state.inventory == a.save_state.inventory
    &&& b.save_state.room_inventories == a.save_state.room_inventories
    &&& match expected_exit(a.level, a.save_state.coord, d) {
        Some(n) => b.save_state.coord == n && r == ResponseView::Describe,
        None => b.save_state.coord == a.save_state.coord && r == ResponseView::Text(
            "You cannot move "@ + direction_name(d) + "."@,
        ),
    }
}

/// `b` and `r` are what toggling debug output in `a` gives.
pub open spec fn toggled(a: Game, b: Game, r: ResponseView) -> bool {
    &&& same_world(a, b)
    &&& b.save_state.coord == a.save_state.coord
    &&& b.save_state.inventory == a.save_state.inventory
    &&& b.save_state.room_inventories == a.save_state.room_inventories
    &&& b.save_state.debug == !a.save_state.debug
    &&& r == ResponseView::Text(
        if b.save_state.debug {
            "Debug mode activated."@
        } else {
            "Debug mode de-activated."@
        },
    )
}

/// `b` and `r` are what dropping `target` in `a` gives.
pub open spec fn dropped(a: Game, b: Game, target: Seq<char>, r: ResponseView) -> bool {
    &&& same_world(a, b)
    &&& ({
            let v = a.save_state@;
            let k = slot_of(v.room_inventories, v.coord);
            &&& (forall|j: int| 0 <= j < v.inventory.len() ==> !drop_matches(#[trigger] v.inventory[j], target))
                ==> b.save_state@ == v && r == ResponseView::Text(
                "It does not look like you have a "@ + target + "."@,
            )
            &&& forall|m: int|
                #[trigger] first_drop_at(v.inventory, target, m) ==> if v.inventory[m].sticky {
                    b.save_state@ == v && r == ResponseView::Text(
                        "The "@ + target + " appear(s) to be sticking to your hand."@,
                    )
                } else if !stock_fits(v.room_inventories[k].1, v.inventory[m]) {
                    b.save_state@ == v && r == ResponseView::Text(
                        "There is no room here for any more of that."@,
                    )
                } else {
                    b.save_state@ == with_items(
                        v,
                        v.inventory.remove(m),
                        v.room_inventories.update(k, (v.coord, stocked(v.room_inventories[k].1, v.inventory[m]))),
                    ) && r == ResponseView::Text("You dropped the "@ + v.inventory[m].name + "."@)
                }
        })
}

/// `b` and `r` are what taking `target` in `a` gives.
pub open spec fn taken(a: Game, b: Game, target: Seq<char>, r: ResponseView) -> bool {
    &&& same_world(a, b)
    &&& ({
            let v = a.save_state@;
            let k = slot_of(v.room_inventories, v.coord);
            let here = v.room_inventories[k].1;
            &&& (forall|j: int| 0 <= j < here.len() ==> !take_matches(#[trigger] here[j], target))
                ==> b.save_state@ == v && r == ResponseView::Text(
                "You couldn't find a "@ + target + " to take."@,
            )
            &&& forall|m: int|
                #[trigger] first_take_at(here, target, m) ==> if !add_fits(v.inventory, here[m].1) {
                    b.save_state@ == v && r == ResponseView::Text(
                        "You cannot carry any more of that."@,
                    )
                } else {
                    &&& b.save_state@ == with_items(
                        v,
                        added(v.inventory, here[m].1),
                        v.room_inventories.update(k, (v.coord, here.remove(m))),
                    )
                    &&& r == ResponseView::Text(
                        match here[m].0.pickup {
                            Some(p) => p,
                            None => "You place the "@ + target + " in your inventory."@,
                        },
                    )
                }
    })
}

/// The room the player is in.
pub open spec fn current_room(g: Game) -> Room {
    room_at(g.level.rooms@, g.save_state.coord).unwrap()
}

/// `npc` sells the item `id`.
pub open spec fn sells(npc: NPC, id: Seq<char>) -> bool {
    exists|j: int| 0 <= j < npc.items@.len() && (#[trigger] npc.items@[j]).id@ == id
}

/// Some NPC present in `room` sells the item `id`.
pub open spec fn sold_here(level: Level, room: Room, id: Seq<char>) -> bool {
    exists|i: int|
        0 <= i < room.npcs@.len() && match lookup(level.npcs@, (#[trigger] room.npcs@[i])@) {
            Some(npc) => sells(npc, id),
            None => false,
        }
}

/// How an item on sale is listed: its name and price.
pub open spec fn sale_line(name: Seq<char>, cost: usize) -> Seq<char> {
    name + " ("@ + decimal(cost as nat) + " gp)"@
}

/// The listing of what `npc` sells, in order.
pub open spec fn sale_lines(npc: NPC, db: ItemDatabase) -> Seq<Seq<char>> {
    npc.items@.map_values(|s: SaleItem| sale_line(template(db, s.id@).name, s.cost))
}

/// The description of the item `id`: the catalog's, or else that of the
/// player's own item.
pub open spec fn item_description(g: Game, id: Seq<char>) -> Seq<char> {
    match catalog_item(g.item_db.items@, id) {
        Some(t) => t.description@,
        None => g.save_state@.inventory[id_index(g.save_state@.inventory, id)].description,
    }
}

/// What looking at `t` in `g` shows.
pub open spec fn look_response(g: Game, t: Seq<char>) -> ResponseView {
    let room = current_room(g);
    match room_action(room, g.level, Verb::Look, t) {
        Some(a) => ResponseView::Text(a.value@),
        None => match first_npc(g.level, room.npcs@, t) {
            Some(npc) => ResponseView::Npc(npc.description@, sale_lines(npc, g.item_db)),
            None => if sold_here(g.level, room, t) || has_id(g.save_state@.inventory, t) {
                ResponseView::Text(item_description(g, t))
            } else {
                ResponseView::Text("You don't see a "@ + t + "."@)
            },
        },
    }
}

/// What asking for help with `t` in `g` shows.
pub open spec fn help_response(g: Game, t: Seq<char>) -> ResponseView {
    match room_action(current_room(g), g.level, Verb::Help, t) {
        Some(a) => ResponseView::Text(a.value@),
        None => ResponseView::Text("You can't help "@ + t + "."@),
    }
}

/// What talking to `t` in `g` shows.
pub open spec fn talk_response(g: Game, t: Option<Seq<char>>) -> ResponseView {
    match t {
        None => ResponseView::Text("You talk outloud for a bit and feel much better, thank you."@),
        Some(t) => match room_action(current_room(g), g.level, Verb::Talk, t) {
            Some(a) => ResponseView::Text(a.value@),
            None => ResponseView::Text("You can't talk to "@ + quoted_of(t)),
        },
    }
}

/// Restoring is lossless on the library's side: the session state of any
/// well-formed game (which every command keeps well formed), handed back to
/// `Game::new` with the same world and catalog, meets every condition under
/// which `Game::new` succeeds, and it then keeps that state exactly.
pub proof fn lemma_saved_state_restores(g: Game)
    requires
        g.wf(),
    ensures
        content_ok(g.level, g.item_db),
        map_ok(g.level),
        state_fits(chosen_state(g.item_db, g.level, Some(g.save_state)), g.level),
        passable(g.level, chosen_state(g.item_db, g.level, Some(g.save_state)).coord),
{
    reveal(Game::wf);
}

/// What a well-formed game guarantees of its session state.
proof fn lemma_wf_facts(g: Game)
    requires
        g.wf(),
    ensures
        g.save_state.inventory.wf(),
        has_slot(g.save_state@.room_inventories, g.save_state.coord),
        forall|i: int, j: int|
            0 <= i < j < g.save_state@.room_inventories.len() ==> (#[trigger] g.save_state@.room_inventories[i]).0
                != (#[trigger] g.save_state@.room_inventories[j]).0,
{
    reveal(Game::wf);
    lemma_room_at_index(g.level.rooms@, g.save_state.coord);
}

/// A change that keeps the world, the position and the keys of the room
/// inventories, and keeps the player's item ids distinct, keeps a game
/// well formed.
proof fn lemma_keep_wf(a: Game, b: Game)
    requires
        a.wf(),
        b.level == a.level,
        b.item_db == a.item_db,
        b.room_map == a.room_map,
        b.save_state.coord == a.save_state.coord,
        ids_unique(b.save_state@.inventory),
        b.save_state@.room_inventories.len() == a.save_state@.room_inventories.len(),
        forall|i: int|
            0 <= i < a.save_state@.room_inventories.len() ==> (#[trigger] b.save_state@.room_inventories[i]).0
                == a.save_state@.room_inventories[i].0,
    ensures
        b.wf(),
{
    reveal(Game::wf);
    let va = a.save_state@;
    let vb = b.save_state@;
    assert forall|i: int, j: int| 0 <= i < j < vb.room_inventories.len() implies (#[trigger] vb.room_inventories[i]).0 != (#[trigger] vb.room_inventories[j]).0 by {
        assert(vb.room_inventories[i].0 == va.room_inventories[i].0);
        assert(vb.room_inventories[j].0 == va.room_inventories[j].0);
    }
    assert forall|i: int| 0 <= i < vb.room_inventories.len() implies room_at(b.level.rooms@, (#[trigger] vb.room_inventories[i]).0) is Some by {
        assert(vb.room_inventories[i].0 == va.room_inventories[i].0);
    }
    assert forall|i: int| 0 <= i < b.level.rooms@.len() implies has_slot(vb.room_inventories, (#[trigger] b.level.rooms@[i]).coord) by {
        assert(has_slot(va.room_inventories, a.level.rooms@[i].coord));
        let j = choose|j: int| 0 <= j < va.room_inventories.len() && (#[trigger] va.room_inventories[j]).0 == a.level.rooms@[i].coord;
        assert(vb.room_inventories[j].0 == va.room_inventories[j].0);
    }
}

impl Game {
    /// Looks at `target`: an action of the room or its regions, else an NPC
    /// present (with what it sells), else an item an NPC here sells or the
    /// player holds.
    pub fn look(&self, target: &String) -> (r: Response)
        requires
            self.wf(),
        ensures
            r@ == look_response(*self, target@),
    {
        proof {
            self.lemma_room_facts();
        }
        let room = self.room();
        if let Some(a) = room.find_action(Verb::Look, target, &self.level) {
            return Response::Text(a.value.clone());
        }
        if let Some(npc) = room.get_npc(&self.level, target) {
            proof {
                lemma_first_npc_listed(self.level, room.npcs@, target@);
                let i = choose|i: int|
                    0 <= i < room.npcs@.len() && lookup(self.level.npcs@, (#[trigger] room.npcs@[i])@) == Some(*npc);
                lemma_lookup_index(self.level.npcs@, room.npcs@[i]@);
                reveal(Game::wf);
                let j = choose|j: int|
                    0 <= j < self.level.npcs@.len() && (#[trigger] self.level.npcs@[j]).1 == *npc && self.level.npcs@[j].0@ == room.npcs@[i]@;
                assert(sales_resolve(self.level.npcs@[j].1, self.item_db));
            }
            let listing = npc.items_iter(&self.item_db);
            let mut lines: Vec<String> = Vec::new();
            let mut i: usize = 0;
            while i < listing.len()
                invariant
                    i <= listing@.len(),
                    listing@.len() == npc.items@.len(),
                    forall|k: int|
                        0 <= k < listing@.len() ==> Some(*(#[trigger] listing@[k]).0) == catalog_item(
                            self.item_db.items@,
                            npc.items@[k].id@,
                        ) && listing@[k].1 == npc.items@[k].cost,
                    strs(lines@) == sale_lines(*npc, self.item_db).subrange(0, i as int),
                decreases listing@.len() - i,
            {
                let (item, cost) = listing[i];
                let mut line = item.name.clone();
                line.append(" (");
                let c = decimal_string(cost);
                line.append(c.as_str());
                line.append(" gp)");
                assert(line@ == sale_line(template(self.item_db, npc.items@[i as int].id@).name, npc.items@[i as int].cost));
                let ghost before = lines@;
                lines.push(line);
                assert(strs(lines@) =~= strs(before).push(line@));
                assert(sale_lines(*npc, self.item_db)[i as int] == line@);
                assert(strs(lines@) =~= sale_lines(*npc, self.item_db).subrange(0, i + 1));
                i += 1;
            }
            assert(sale_lines(*npc, self.item_db).subrange(0, i as int) =~= sale_lines(*npc, self.item_db));
            return Response::Npc(npc.description.clone(), lines);
        }
        let npcs = room.npcs_iter(&self.level);
        let mut sold = false;
        let mut i: usize = 0;
        while i < npcs.len() && !sold
            invariant
                i <= npcs@.len(),
                npcs@.len() == room.npcs@.len(),
                forall|k: int| 0 <= k < npcs@.len() ==> lookup(self.level.npcs@, room.npcs@[k]@) == Some(*(#[trigger] npcs@[k])),
                sold ==> sold_here(self.level, *room, target@),
                !sold ==> forall|k: int| 0 <= k < i ==> !sells(*(#[trigger] npcs@[k]), target@),
            decreases npcs@.len() - i,
        {
            let npc = npcs[i];
            let mut j: usize = 0;
            while j < npc.items.len() && !sold
                invariant
                    i < npcs@.len(),
                    npcs@.len() == room.npcs@.len(),
                    npc == npcs@[i as int],
                    j <= npc.items@.len(),
                    lookup(self.level.npcs@, room.npcs@[i as int]@) == Some(*npc),
                    sold ==> sold_here(self.level, *room, target@),
                    !sold ==> forall|m: int| 0 <= m < j ==> (#[trigger] npc.items@[m]).id@ != target@,
                decreases npc.items@.len() - j,
            {
                if str_eq(npc.items[j].id.as_str(), target.as_str()) {
                    assert(sells(*npc, target@));
                    assert(lookup(self.level.npcs@, room.npcs@[i as int]@) == Some(*npc));
                    assert(sold_here(self.level, *room, target@));
                    sold = true;
                }
                j += 1;
            }
            i += 1;
        }
        proof {
            if !sold && sold_here(self.level, *room, target@) {
                let k = choose|k: int| 0 <= k < room.npcs@.len() && match lookup(self.level.npcs@, (#[trigger] room.npcs@[k])@) {
                    Some(npc) => sells(npc, target@),
                    None => false,
                };
                assert(!sells(*npcs@[k], target@));
            }
        }
        proof {
            lemma_wf_facts(*self);
        }
        let held = self.save_state.inventory.position_of(target.as_str());
        if sold || held.is_some() {
            match self.item_db.find(target.as_str()) {
                Some(item) => Response::Text(item.description.clone()),
                None => {
                    proof {
                        if held.is_none() {
                            let k = choose|k: int| 0 <= k < room.npcs@.len() && match lookup(self.level.npcs@, (#[trigger] room.npcs@[k])@) {
                                Some(npc) => sells(npc, target@),
                                None => false,
                            };
                            let npc = lookup(self.level.npcs@, room.npcs@[k]@).unwrap();
                            lemma_lookup_index(self.level.npcs@, room.npcs@[k]@);
                            reveal(Game::wf);
                            let j = choose|j: int|
                                0 <= j < self.level.npcs@.len() && (#[trigger] self.level.npcs@[j]).1 == npc && self.level.npcs@[j].0@ == room.npcs@[k]@;
                            assert(sales_resolve(self.level.npcs@[j].1, self.item_db));
                            let m = choose|m: int| 0 <= m < npc.items@.len() && (#[trigger] npc.items@[m]).id@ == target@;
                            assert(catalog_item(self.item_db.items@, npc.items@[m].id@) is Some);
                        }
                    }
                    let k = held.unwrap();
                    assert(self.save_state@.inventory[k as int] == self.save_state.inventory.items@[k as int]@);
                    Response::Text(self.save_state.inventory.items[k].description.clone())
                },
            }
        } else {
            let mut m = String::from_str("You don't see a ");
            m.append(target.as_str());
            m.append(".");
            Response::Text(m)
        }
    }

    /// Asks for help with `target` through the room's or its regions' actions.
    pub fn help(&self, target: &String) -> (r: Response)
        requires
            self.wf(),
        ensures
            r@ == help_response(*self, target@),
    {
        proof {
            self.lemma_room_facts();
        }
        let room = self.room();
        match room.find_action(Verb::Help, target, &self.level) {
            Some(a) => Response::Text(a.value.clone()),
            None => {
                let mut m = String::from_str("You can't help ");
                m.append(target.as_str());
                m.append(".");
                Response::Text(m)
            },
        }
    }

    /// Talks to `target`, or to nobody in particular.
    pub fn talk(&self, target: &Option<String>) -> (r: Response)
        requires
            self.wf(),
        ensures
            r@ == talk_response(*self, opt_chars(*target)),
    {
        proof {
            self.lemma_room_facts();
        }
        match target {
            None => Response::Text(
                String::from_str("You talk outloud for a bit and feel much better, thank you."),
            ),
            Some(t) => {
                let room = self.room();
                match room.find_action(Verb::Talk, t, &self.level) {
                    Some(a) => Response::Text(a.value.clone()),
                    None => {
                        let mut m = String::from_str("You can't talk to ");
                        let q = debug_quoted(t.as_str());
                        m.append(q.as_str());
                        Response::Text(m)
                    },
                }
            },
        }
    }

    /// The current room resolves its NPCs and regions.
    proof fn lemma_room_facts(&self)
        requires
            self.wf(),
        ensures
            room_at(self.level.rooms@, self.save_state.coord) is Some,
            npcs_resolve(current_room(*self), self.level),
            regions_resolve(current_room(*self), self.level),
    {
        reveal(Game::wf);
        lemma_room_at_index(self.level.rooms@, self.save_state.coord);
        let i = choose|i: int| 0 <= i < self.level.rooms@.len() && #[trigger] self.level.rooms@[i] == current_room(*self) && current_room(*self).coord == self.save_state.coord;
        assert(npcs_resolve(self.level.rooms@[i], self.level));
        assert(regions_resolve(self.level.rooms@[i], self.level));
    }

    /// Carries out one command.
    pub fn handle(&mut self, command: ParsedCommand) -> (r: Response)
        requires
            old(self).wf(),
        ensures
            final(self).wf(),
            match command@ {
                CommandView::Look(None) => *final(self) == *old(self) && r@ == ResponseView::Describe,
                CommandView::Look(Some(t)) => *final(self) == *old(self) && r@ == look_response(*old(self), t),
                CommandView::Talk(t) => *final(self) == *old(self) && r@ == talk_response(*old(self), t),
                CommandView::Help(None) => *final(self) == *old(self) && r@ == ResponseView::ShowHelp,
                CommandView::Help(Some(t)) => *final(self) == *old(self) && r@ == help_response(*old(self), t),
                CommandView::Message(m) => *final(self) == *old(self) && r@ == ResponseView::Text(m),
                CommandView::Inventory => *final(self) == *old(self) && r@ == ResponseView::Inventory(
                    old(self).save_state@.inventory.map_values(|it: ItemView| display_name(it)),
                ),
                CommandView::Move(d) => moved(*old(self), *final(self), d, r@),
                CommandView::Drop(t) => dropped(*old(self), *final(self), t, r@),
                CommandView::Take(t) => taken(*old(self), *final(self), t, r@),
                CommandView::Quit => *final(self) == *old(self) && r@ == ResponseView::Quit,
                CommandView::Debug => toggled(*old(self), *final(self), r@),
                CommandView::Restart => *final(self) == *old(self) && r@ == ResponseView::Restart,
            },
    {
        match command {
            ParsedCommand::Look(None) => Response::Describe,
            ParsedCommand::Look(Some(t)) => self.look(&t),
            ParsedCommand::Talk(t) => self.talk(&t),
            ParsedCommand::Help(None) => Response::ShowHelp,
            ParsedCommand::Help(Some(t)) => self.help(&t),
            ParsedCommand::Message(m) => Response::Text(m),
            ParsedCommand::Inventory => Response::Inventory(self.save_state.inventory.display_names()),
            ParsedCommand::Move(d) => self.go(d),
            ParsedCommand::Drop(t) => self.drop(&t),
            ParsedCommand::Take(t) => self.take(&t),
            ParsedCommand::Quit => Response::Quit,
            ParsedCommand::Debug => self.toggle_debug(),
            ParsedCommand::Restart => Response::Restart,
        }
    }

    /// Drops the first item that `target` designates into the current room,
    /// where it joins an entry with the same id; a sticky item stays, and so
    /// does one whose quantity the room's entry could no longer hold.
    pub fn drop(&mut self, target: &String) -> (r: Response)
        requires
            old(self).wf(),
        ensures
            final(self).wf(),
            dropped(*old(self), *final(self), target@, r@),
    {
        let ghost v = self.save_state@;
        let ghost g0 = *self;
        proof {
            lemma_wf_facts(*self);
        }
        let found = self.save_state.inventory.find_item(target.as_str());
        match found {
            None => {
                proof {
                    lemma_keep_wf(g0, *self);
                }
                let mut m = String::from_str("It does not look like you have a ");
                m.append(target.as_str());
                m.append(".");
                Response::Text(m)
            },
            Some(i) => {
                assert(v.inventory[i as int] == self.save_state.inventory.items@[i as int]@);
                assert(first_drop_at(v.inventory, target@, i as int));
                if self.save_state.inventory.items[i].sticky {
                    proof {
                        lemma_keep_wf(g0, *self);
                    }
                    let mut m = String::from_str("The ");
                    m.append(target.as_str());
                    m.append(" appear(s) to be sticking to your hand.");
                    return Response::Text(m);
                }
                let k = self.save_state.room_slot();
                assert(self.save_state.room_inventories@[k as int].1@ == v.room_inventories[k as int].1);
                if !self.save_state.room_inventories[k].1.can_add(&self.save_state.inventory.items[i]) {
                    proof {
                        lemma_keep_wf(g0, *self);
                    }
                    return Response::Text(String::from_str("There is no room here for any more of that."));
                }
                let res = self.save_state.inventory.drop_found(Some(i));
                let it = match res {
                    DropResult::Item(it) => it,
                    _ => {
                        assert(false);
                        return Response::Text(String::new());
                    },
                };
                let mut m = String::from_str("You dropped the ");
                m.append(it.name.as_str());
                m.append(".");
                let ghost item = it@;
                let room = self.save_state.room_inventory_mut();
                room.add_item(it);
                proof {
                    assert(self.save_state@.room_inventories =~= v.room_inventories.update(
                        k as int,
                        (v.coord, stocked(v.room_inventories[k as int].1, item)),
                    ));
                    assert forall|j: int| 0 <= j < v.room_inventories.len() implies (#[trigger] self.save_state@.room_inventories[j]).0 == v.room_inventories[j].0 by {}
                    lemma_keep_wf(g0, *self);
                }
                Response::Text(m)
            },
        }
    }

    /// Takes the first entry that `target` designates from the current room
    /// into the player's inventory, unless its quantity would no longer fit.
    pub fn take(&mut self, target: &String) -> (r: Response)
        requires
            old(self).wf(),
        ensures
            final(self).wf(),
            taken(*old(self), *final(self), target@, r@),
    {
        let ghost v = self.save_state@;
        let ghost g0 = *self;
        proof {
            lemma_wf_facts(*self);
            lemma_keep_wf(g0, *self);
        }
        let k = self.save_state.room_slot();
        let ghost here = v.room_inventories[k as int].1;
        assert(self.save_state.room_inventories@[k as int].1@ == here);
        let found = self.save_state.room_inventories[k].1.find_take(target.as_str());
        match found {
            None => {
                let mut m = String::from_str("You couldn't find a ");
                m.append(target.as_str());
                m.append(" to take.");
                Response::Text(m)
            },
            Some(m) => {
                assert(here[m as int] == crate::inventory::entry_view(self.save_state.room_inventories@[k as int].1.inventory@[m as int]));
                if !self.save_state.inventory.can_add(&self.save_state.room_inventories[k].1.inventory[m].1) {
                    return Response::Text(String::from_str("You cannot carry any more of that."));
                }
                let room = self.save_state.room_inventory_mut();
                let (stub, it) = room.take_at(m);
                proof {
                    assert(self.save_state@.room_inventories =~= v.room_inventories.update(
                        k as int,
                        (v.coord, here.remove(m as int)),
                    ));
                    assert forall|i: int| 0 <= i < v.room_inventories.len() implies (#[trigger] self.save_state@.room_inventories[i]).0 == v.room_inventories[i].0 by {}
                }
                self.save_state.inventory.add_item(it);
                proof {
                    lemma_keep_wf(g0, *self);
                }
                match stub.pickup {
                    Some(p) => Response::Text(p),
                    None => {
                        let mut t = String::from_str("You place the ");
                        t.append(target.as_str());
                        t.append(" in your inventory.");
                        Response::Text(t)
                    },
                }
            },
        }
    }
}

} // verus!
