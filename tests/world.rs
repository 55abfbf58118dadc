use text_adventure::{
    parse_command, parse_map, print_exits, Action, ContentIssue, Coord, Direction, Game,
    InventoryItem, ItemDatabase, ItemVariant, Level, MapError, Region, Response, Room, RoomItem,
    RoomMapInfo, SaleItem, SaveState, SetupError, Verb, NPC,
};

fn c(x: usize, y: usize, z: usize) -> Coord {
    Coord { x, y, z }
}

fn strings(v: &[&str]) -> Vec<String> {
    v.iter().map(|s| s.to_string()).collect()
}

fn room(title: &str, coord: Coord) -> Room {
    Room {
        title: title.to_string(),
        coord,
        description: format!("The {}.", title),
        actions: None,
        items: vec![],
        npcs: vec![],
        regions: vec![],
    }
}

fn action(verb: Verb, targets: &[&str], value: &str) -> Action {
    Action { verb, targets: strings(targets), value: value.to_string() }
}

fn template(id: &str, name: &str, variant: ItemVariant, quantity: usize) -> InventoryItem {
    InventoryItem {
        id: id.to_string(),
        name: name.to_string(),
        targets: strings(&[id]),
        sticky: false,
        variant,
        quantity,
        max_quantity: None,
        description: format!("A fine {}.", id),
    }
}

fn catalog() -> ItemDatabase {
    let mut sword = template("sword", "Sword", ItemVariant::Weapon, 1);
    sword.sticky = true;
    let mut gold = template("gold", "Gold", ItemVariant::Money, 10);
    gold.max_quantity = Some(9999);
    ItemDatabase::new(vec![
        sword,
        gold,
        template("apple", "Apple", ItemVariant::Consumable, 1),
        template("rope", "Rope", ItemVariant::Consumable, 1),
    ])
}

/// Two rooms side by side on layer 0, a market region, a merchant.
fn level() -> Level {
    let mut west = room("Square", c(1, 1, 0));
    west.actions = Some(vec![action(Verb::Look, &["fountain"], "Water splashes.")]);
    west.regions = strings(&["market"]);
    west.npcs = strings(&["mira"]);
    west.items = vec![RoomItem {
        id: "apple".to_string(),
        quantity: 3,
        name: Some("Red apples".to_string()),
        targets: strings(&["apples"]),
        pickup: Some("You fill your pockets with apples.".to_string()),
    }];
    let mut east = room("Stall", c(2, 1, 0));
    east.regions = strings(&["market"]);
    east.items = vec![RoomItem {
        id: "rope".to_string(),
        quantity: 1,
        name: None,
        targets: vec![],
        pickup: None,
    }];
    let market = Region {
        actions: vec![
            action(Verb::Look, &["sign", "fountain"], "The sign reads: MARKET."),
            action(Verb::Help, &["merchant"], "The merchant waves you off."),
        ],
    };
    let mira = NPC {
        name: "Mira".to_string(),
        description: "Mira sells fruit.".to_string(),
        targets: strings(&["mira", "merchant"]),
        talk: "Fresh fruit!".to_string(),
        items: vec![SaleItem { id: "apple".to_string(), cost: 2 }],
    };
    Level {
        maps: vec![strings(&["####", "#..# two rooms", "####"])],
        rooms: vec![west, east],
        entry: c(1, 1, 0),
        npcs: vec![("mira".to_string(), mira)],
        regions: vec![("market".to_string(), market)],
    }
}

fn new_game() -> Game {
    Game::new(level(), catalog(), None).expect("a valid game")
}

fn text(r: Response) -> String {
    match r {
        Response::Text(t) => t,
        other => panic!("unexpected {:?}", other),
    }
}

fn run(g: &mut Game, line: &str) -> Response {
    let cmd = parse_command(line.to_string()).expect("a command");
    g.handle(cmd)
}

#[test]
fn map_adjacency_is_mutual() {
    let lv = Level {
        maps: vec![strings(&["#.#", "...", "#.#"]), strings(&["."])],
        rooms: vec![
            room("n", c(1, 0, 0)),
            room("w", c(0, 1, 0)),
            room("m", c(1, 1, 0)),
            room("e", c(2, 1, 0)),
            room("s", c(1, 2, 0)),
            room("up", c(0, 0, 1)),
        ],
        entry: c(1, 1, 0),
        npcs: vec![],
        regions: vec![],
    };
    let m = parse_map(&lv).expect("a map");
    assert_eq!(m.entries.len(), 6);
    let mid = m.get(&c(1, 1, 0)).expect("middle");
    assert_eq!(
        mid,
        RoomMapInfo {
            north: Some(c(1, 0, 0)),
            east: Some(c(2, 1, 0)),
            south: Some(c(1, 2, 0)),
            west: Some(c(0, 1, 0)),
        }
    );
    let north = m.get(&c(1, 0, 0)).expect("north");
    assert_eq!(north.south, Some(c(1, 1, 0)));
    assert_eq!(north.north, None);
    assert_eq!(north.west, None);
    let up = m.get(&c(0, 0, 1)).expect("upper layer");
    assert_eq!(up, RoomMapInfo { north: None, east: None, south: None, west: None });
    assert!(m.get(&c(0, 0, 0)).is_none());
    for (a, info) in m.entries.iter() {
        for d in [Direction::North, Direction::East, Direction::South, Direction::West] {
            if let Some(b) = info.from_direction(&d) {
                let back = m.get(&b).expect("neighbour").from_direction(&opposite(d));
                assert_eq!(back, Some(*a));
            }
        }
    }
}

fn opposite(d: Direction) -> Direction {
    match d {
        Direction::North => Direction::South,
        Direction::South => Direction::North,
        Direction::East => Direction::West,
        Direction::West => Direction::East,
    }
}

#[test]
fn map_unknown_character_points_at_first() {
    let mut lv = level();
    lv.maps = vec![strings(&["#..", "#x.", "?.."])];
    match parse_map(&lv) {
        Err(MapError::UnknownCharacter(at)) => assert_eq!(at, c(1, 1, 0)),
        other => panic!("unexpected {:?}", other),
    }
}

#[test]
fn map_comment_after_space_is_ignored() {
    let mut lv = level();
    lv.maps = vec![strings(&["#..# x . ?"])];
    lv.rooms = vec![room("a", c(1, 0, 0)), room("b", c(2, 0, 0))];
    let m = parse_map(&lv).expect("a map");
    assert_eq!(m.entries.len(), 2);
}

#[test]
fn map_reports_every_missing_room() {
    let mut lv = level();
    lv.maps = vec![strings(&["...", "-.-"])];
    lv.rooms = vec![room("a", c(1, 0, 0))];
    match parse_map(&lv) {
        Err(MapError::MissingRooms(v)) => {
            assert_eq!(v, vec![c(0, 0, 0), c(2, 0, 0), c(1, 1, 0)]);
        }
        other => panic!("unexpected {:?}", other),
    }
}

#[test]
fn apply_stops_at_the_edge() {
    assert_eq!(c(0, 0, 0).apply(&Direction::North), None);
    assert_eq!(c(0, 0, 0).apply(&Direction::West), None);
    assert_eq!(c(0, 0, 0).apply(&Direction::East), Some(c(1, 0, 0)));
    assert_eq!(c(4, 2, 1).apply(&Direction::North), Some(c(4, 1, 1)));
    assert_eq!(c(4, 2, 1).apply(&Direction::South), Some(c(4, 3, 1)));
    assert_eq!(c(usize::MAX, 0, 0).apply(&Direction::East), None);
    assert_eq!(Direction::West.lowercase_string(), "west");
}

#[test]
fn exits_line() {
    let info = RoomMapInfo { north: Some(c(1, 0, 0)), east: None, south: None, west: Some(c(0, 1, 0)) };
    assert_eq!(print_exits(&info), "Exits: n _ _ w");
}

#[test]
fn find_action_room_first_then_region() {
    let lv = level();
    let square = lv.get_room(&c(1, 1, 0)).expect("square");
    let own = square.find_action(Verb::Look, &"fountain".to_string(), &lv).expect("own action");
    assert_eq!(own.value, "Water splashes.");
    let shared = square.find_action(Verb::Look, &"sign".to_string(), &lv).expect("region action");
    assert_eq!(shared.value, "The sign reads: MARKET.");
    assert!(square.find_action(Verb::Talk, &"sign".to_string(), &lv).is_none());
    assert!(square.find_action(Verb::Look, &"moon".to_string(), &lv).is_none());
    let stall = lv.get_room(&c(2, 1, 0)).expect("stall");
    let f = stall.find_action(Verb::Look, &"fountain".to_string(), &lv).expect("region");
    assert_eq!(f.value, "The sign reads: MARKET.");
}

#[test]
fn npc_lookup_and_sale_listing() {
    let lv = level();
    let db = catalog();
    let square = lv.get_room(&c(1, 1, 0)).expect("square");
    let npc = square.get_npc(&lv, &"merchant".to_string()).expect("mira");
    assert_eq!(npc.name, "Mira");
    assert!(square.get_npc(&lv, &"guard".to_string()).is_none());
    assert_eq!(square.npcs_iter(&lv).len(), 1);
    let sale = npc.items_iter(&db);
    assert_eq!(sale.len(), 1);
    assert_eq!(sale[0].0.name, "Apple");
    assert_eq!(sale[0].1, 2);
    assert_eq!(db.get("gold").quantity, 10);
    assert!(db.find("anvil").is_none());
}

#[test]
fn content_check_collects_every_issue() {
    let mut lv = level();
    lv.rooms[0].npcs.push("ghost".to_string());
    lv.rooms[1].regions.push("harbour".to_string());
    lv.rooms.push(room("Copy", c(2, 1, 0)));
    let issues = lv.check_content(&ItemDatabase::new(vec![]));
    let dangling_npc = issues.iter().any(|i| matches!(i, ContentIssue::DanglingNpc { id, .. } if id == "ghost"));
    let dangling_region = issues.iter().any(|i| matches!(i, ContentIssue::DanglingRegion { id, .. } if id == "harbour"));
    let duplicate = issues.iter().any(|i| matches!(i, ContentIssue::DuplicateRoom(x) if *x == c(2, 1, 0)));
    let no_sword = issues.iter().any(|i| matches!(i, ContentIssue::MissingStartingItem(x) if x == "sword"));
    let no_apple = issues.iter().any(|i| matches!(i, ContentIssue::UnknownSaleItem { id, .. } if id == "apple"));
    assert!(dangling_npc && dangling_region && duplicate && no_sword && no_apple);
    assert!(level().check_content(&catalog()).is_empty());
}

#[test]
fn initialize_is_deterministic() {
    let lv = level();
    let db = catalog();
    let a = SaveState::initialize(&db, &lv);
    let b = SaveState::initialize(&db, &lv);
    assert_eq!(a.coord, c(1, 1, 0));
    assert_eq!(a.coord, b.coord);
    assert!(!a.debug);
    let ids: Vec<&str> = a.inventory.items.iter().map(|i| i.id.as_str()).collect();
    assert_eq!(ids, vec!["sword", "gold"]);
    assert_eq!(a.inventory.items[1].quantity, 10);
    assert_eq!(a.room_inventories.len(), 2);
    assert_eq!(a.room_inventories[0].0, c(1, 1, 0));
    let (stub, apples) = &a.room_inventories[0].1.inventory[0];
    assert_eq!(stub.name.as_deref(), Some("Red apples"));
    assert_eq!(apples.quantity, 3);
    assert_eq!(apples.name, "Apple");
    for (x, y) in a.room_inventories.iter().zip(b.room_inventories.iter()) {
        assert_eq!(x.0, y.0);
        assert_eq!(x.1.inventory.len(), y.1.inventory.len());
    }
    assert!(a.fits(&lv));
}

#[test]
fn setup_errors() {
    let mut lv = level();
    lv.rooms[0].regions.push("nowhere".to_string());
    assert!(matches!(Game::new(lv, catalog(), None), Err(SetupError::Content(_))));
    let mut lv = level();
    lv.maps = vec![strings(&["#..#", "#.##"])];
    assert!(matches!(Game::new(lv, catalog(), None), Err(SetupError::Grid(MapError::MissingRooms(_)))));
    let mut lv = level();
    lv.rooms.push(room("Attic", c(0, 0, 0)));
    lv.entry = c(0, 0, 0);
    assert!(matches!(Game::new(lv, catalog(), None), Err(SetupError::NotOnMap(at)) if at == c(0, 0, 0)));
    let mut lv = level();
    lv.entry = c(7, 7, 0);
    assert!(matches!(Game::new(lv, catalog(), None), Err(SetupError::BadSave)));
}

#[test]
fn moving_and_walls() {
    let mut g = new_game();
    assert!(matches!(run(&mut g, "east"), Response::Describe));
    assert_eq!(g.save_state.coord, c(2, 1, 0));
    assert_eq!(text(run(&mut g, "go north")), "You cannot move north.");
    assert_eq!(g.save_state.coord, c(2, 1, 0));
    assert!(matches!(run(&mut g, "w"), Response::Describe));
    assert_eq!(g.room().title, "Square");
    assert_eq!(g.room_info().east, Some(c(2, 1, 0)));
}

#[test]
fn debug_toggles() {
    let mut g = new_game();
    assert_eq!(text(run(&mut g, "debug")), "Debug mode activated.");
    assert!(g.save_state.debug);
    assert_eq!(text(run(&mut g, "debug")), "Debug mode de-activated.");
}

#[test]
fn look_help_talk() {
    let mut g = new_game();
    assert_eq!(text(run(&mut g, "look at fountain")), "Water splashes.");
    assert_eq!(text(run(&mut g, "look sign")), "The sign reads: MARKET.");
    match run(&mut g, "look at mira") {
        Response::Npc(d, lines) => {
            assert_eq!(d, "Mira sells fruit.");
            assert_eq!(lines, vec!["Apple (2 gp)".to_string()]);
        }
        other => panic!("unexpected {:?}", other),
    }
    assert_eq!(text(run(&mut g, "look apple")), "A fine apple.");
    assert_eq!(text(run(&mut g, "look gold")), "A fine gold.");
    assert_eq!(text(run(&mut g, "look moon")), "You don't see a moon.");
    assert_eq!(text(run(&mut g, "help merchant")), "The merchant waves you off.");
    assert_eq!(text(run(&mut g, "help me")), "You can't help me.");
    assert!(matches!(run(&mut g, "help"), Response::ShowHelp));
    assert_eq!(text(run(&mut g, "talk to mira")), "You can't talk to \"mira\"");
    assert_eq!(text(run(&mut g, "talk")), "You talk outloud for a bit and feel much better, thank you.");
    assert!(matches!(run(&mut g, "look"), Response::Describe));
    assert!(matches!(run(&mut g, "quit"), Response::Quit));
    assert!(matches!(run(&mut g, "restart"), Response::Restart));
}

#[test]
fn take_and_drop_through_the_game() {
    let mut g = new_game();
    assert_eq!(text(run(&mut g, "take apples")), "You fill your pockets with apples.");
    assert_eq!(text(run(&mut g, "take apples")), "You couldn't find a apples to take.");
    match run(&mut g, "inventory") {
        Response::Inventory(lines) => {
            assert_eq!(lines, vec!["Sword".to_string(), "Gold (10)".to_string(), "Apple".to_string()])
        }
        other => panic!("unexpected {:?}", other),
    }
    assert_eq!(text(run(&mut g, "drop sword")), "The sword appear(s) to be sticking to your hand.");
    assert_eq!(text(run(&mut g, "drop kite")), "It does not look like you have a kite.");
    assert!(matches!(run(&mut g, "e"), Response::Describe));
    assert_eq!(text(run(&mut g, "drop gold")), "You dropped the Gold.");
    let stall = &g.save_state.room_inventories[1].1;
    assert_eq!(stall.item_names_iter(), vec!["Rope", "Gold"]);
    assert_eq!(text(run(&mut g, "take gold")), "You place the gold in your inventory.");
    assert_eq!(g.save_state.inventory.items.last().map(|i| i.quantity), Some(10));
}

#[test]
fn restored_state_matches_the_diverged_one() {
    let mut g = new_game();
    run(&mut g, "take apples");
    run(&mut g, "east");
    run(&mut g, "drop gold");
    run(&mut g, "debug");
    let s = &g.save_state;
    let copy = SaveState {
        coord: s.coord,
        debug: s.debug,
        inventory: text_adventure::Inventory { items: s.inventory.items.clone() },
        room_inventories: s
            .room_inventories
            .iter()
            .map(|(k, r)| {
                (*k, text_adventure::RoomInventory { inventory: r.inventory.iter().map(|(a, b)| (a.clone(), b.clone())).collect() })
            })
            .collect(),
    };
    let g2 = Game::new(level(), catalog(), Some(copy)).expect("restored");
    assert_eq!(g2.save_state.coord, c(2, 1, 0));
    assert!(g2.save_state.debug);
    let ids: Vec<&str> = g2.save_state.inventory.items.iter().map(|i| i.id.as_str()).collect();
    assert_eq!(ids, vec!["sword", "apple"]);
    let stall = &g2.save_state.room_inventories[1].1;
    assert_eq!(stall.item_names_iter(), vec!["Rope", "Gold"]);
    assert!(g2.save_state.room_inventories[0].1.inventory.is_empty());
}

#[test]
fn content_issues_come_room_by_room() {
    let mut lv = level();
    lv.rooms[0].npcs.push("ghost".to_string());
    lv.rooms[0].regions.push("nowhere".to_string());
    let issues = lv.check_content(&ItemDatabase::new(vec![]));
    let summary: Vec<String> = issues
        .iter()
        .map(|i| match i {
            ContentIssue::DanglingNpc { id, .. } => format!("npc {}", id),
            ContentIssue::DanglingRegion { id, .. } => format!("region {}", id),
            ContentIssue::UnknownRoomItem { room, id } => format!("item {} at {}", id, room.x),
            ContentIssue::UnknownSaleItem { npc, id } => format!("sale {} by {}", id, npc),
            ContentIssue::MissingStartingItem(id) => format!("start {}", id),
            ContentIssue::DuplicateRoom(c) => format!("duplicate {}", c.x),
            ContentIssue::DuplicateNpc(id) => format!("npc twice {}", id),
            ContentIssue::DuplicateRegion(id) => format!("region twice {}", id),
        })
        .collect();
    assert_eq!(
        summary,
        vec![
            "npc ghost",
            "region nowhere",
            "item apple at 1",
            "item rope at 2",
            "sale apple by mira",
            "start sword",
            "start gold",
        ]
    );
}

#[test]
fn content_check_reports_repeated_ids() {
    let mut lv = level();
    let twin = NPC {
        name: "Twin".to_string(),
        description: "Another Mira.".to_string(),
        targets: vec![],
        talk: String::new(),
        items: vec![],
    };
    lv.npcs.push(("mira".to_string(), twin));
    lv.regions.push(("market".to_string(), Region { actions: vec![] }));
    let issues = lv.check_content(&catalog());
    assert_eq!(issues.len(), 2);
    assert!(matches!(&issues[0], ContentIssue::DuplicateNpc(id) if id == "mira"));
    assert!(matches!(&issues[1], ContentIssue::DuplicateRegion(id) if id == "market"));
}

#[test]
fn find_action_skips_unknown_regions() {
    let mut lv = level();
    lv.rooms[0].regions.insert(0, "nowhere".to_string());
    let square = lv.get_room(&c(1, 1, 0)).expect("square");
    let own = square.find_action(Verb::Look, &"fountain".to_string(), &lv).expect("own action");
    assert_eq!(own.value, "Water splashes.");
    let shared = square.find_action(Verb::Look, &"sign".to_string(), &lv).expect("region action");
    assert_eq!(shared.value, "The sign reads: MARKET.");
}

#[test]
fn dropping_into_a_room_merges_by_id() {
    let mut lv = level();
    lv.rooms[0].items.push(RoomItem {
        id: "apple".to_string(),
        quantity: 2,
        name: None,
        targets: vec![],
        pickup: None,
    });
    let mut g = Game::new(lv, catalog(), None).expect("a valid game");
    assert_eq!(text(run(&mut g, "take apples")), "You fill your pockets with apples.");
    assert_eq!(g.save_state.room_inventories[0].1.inventory.len(), 1);
    assert_eq!(text(run(&mut g, "drop apple")), "You dropped the Apple.");
    let square = &g.save_state.room_inventories[0].1;
    assert_eq!(square.inventory.len(), 1);
    assert_eq!(square.inventory[0].1.quantity, 5);
}

#[test]
fn describe_the_current_room() {
    let mut g = new_game();
    run(&mut g, "debug");
    let d = g.describe();
    assert_eq!(d.title, "Square");
    assert_eq!(d.description, "    The Square. \n\n");
    assert_eq!(d.items, vec!["Red apples".to_string()]);
    assert!(d.spaced);
    assert_eq!(d.debug.as_deref(), Some("Coord: [1, 1, 0]"));
    assert_eq!(d.exits, "Exits: _ e _ _");
}
