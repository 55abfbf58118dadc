use text_adventure::{DropResult, Inventory, InventoryItem, ItemVariant, RoomInventory, RoomItem};

fn item(id: &str, name: &str, aliases: &[&str], quantity: usize) -> InventoryItem {
    InventoryItem {
        id: id.to_string(),
        name: name.to_string(),
        targets: aliases.iter().map(|a| a.to_string()).collect(),
        sticky: false,
        variant: ItemVariant::Consumable,
        quantity,
        max_quantity: None,
        description: format!("A {}.", name),
    }
}

fn stub(id: &str, quantity: usize, aliases: &[&str], pickup: Option<&str>) -> RoomItem {
    RoomItem {
        id: id.to_string(),
        quantity,
        name: None,
        targets: aliases.iter().map(|a| a.to_string()).collect(),
        pickup: pickup.map(|p| p.to_string()),
    }
}

fn counts(room: &RoomInventory) -> Vec<(String, usize)> {
    let mut v: Vec<(String, usize)> =
        room.inventory.iter().map(|(_, i)| (i.id.clone(), i.quantity)).collect();
    v.sort();
    v
}

#[test]
fn add_merges_same_id() {
    let mut inv = Inventory { items: vec![item("apple", "Apple", &["apple"], 3)] };
    inv.add_item(item("apple", "Apple", &["apple"], 2));
    assert_eq!(inv.items.len(), 1);
    assert_eq!(inv.items[0].quantity, 5);
}

#[test]
fn add_appends_new_id_in_order() {
    let mut inv = Inventory { items: vec![item("apple", "Apple", &[], 1)] };
    inv.add_item(item("pear", "Pear", &[], 4));
    inv.add_item(item("apple", "Apple", &[], 1));
    let ids: Vec<&str> = inv.items.iter().map(|i| i.id.as_str()).collect();
    assert_eq!(ids, vec!["apple", "pear"]);
    assert_eq!(inv.items[0].quantity, 2);
    assert_eq!(inv.items[1].quantity, 4);
}

#[test]
fn drop_sticky_is_refused() {
    let mut sword = item("sword", "Sword", &["sword", "blade"], 1);
    sword.sticky = true;
    let mut inv = Inventory { items: vec![sword, item("gold", "Gold", &["gold"], 10)] };
    assert!(matches!(inv.drop_item("blade"), DropResult::Sticky));
    assert_eq!(inv.items.len(), 2);
    assert_eq!(inv.items[0].id, "sword");
}

#[test]
fn drop_by_alias_removes_one_entry() {
    let mut inv = Inventory {
        items: vec![item("sword", "Sword", &["sword"], 1), item("gold", "Gold", &["coins"], 17)],
    };
    match inv.drop_item("coins") {
        DropResult::Item(it) => {
            assert_eq!(it.id, "gold");
            assert_eq!(it.quantity, 17);
        }
        other => panic!("unexpected {:?}", other),
    }
    assert_eq!(inv.items.len(), 1);
    assert_eq!(inv.items[0].id, "sword");
}

#[test]
fn drop_by_lowercased_name() {
    let mut inv = Inventory { items: vec![item("lamp", "Brass Lamp", &[], 1)] };
    assert!(matches!(inv.drop_item("Brass Lamp"), DropResult::NotFound));
    assert!(matches!(inv.drop_item("brass lamp"), DropResult::Item(_)));
    assert!(inv.items.is_empty());
}

#[test]
fn drop_unknown_is_not_found() {
    let mut inv = Inventory { items: vec![item("lamp", "Lamp", &["lamp"], 1)] };
    assert!(matches!(inv.drop_item("rope"), DropResult::NotFound));
    assert_eq!(inv.items.len(), 1);
}

#[test]
fn take_prefers_stub_aliases_and_keeps_order() {
    let mut room = RoomInventory {
        inventory: vec![
            (stub("rope", 1, &[], None), item("rope", "Rope", &["rope"], 1)),
            (stub("key", 1, &["shiny"], Some("You pocket the key.")), item("key", "Key", &["key"], 1)),
            (stub("coin", 2, &[], None), item("coin", "Coin", &["shiny"], 2)),
        ],
    };
    let (s, i) = room.take_item("shiny").expect("an entry");
    assert_eq!(i.id, "key");
    assert_eq!(s.pickup.as_deref(), Some("You pocket the key."));
    let ids: Vec<&str> = room.inventory.iter().map(|(_, i)| i.id.as_str()).collect();
    assert_eq!(ids, vec!["rope", "coin"]);
    assert!(room.take_item("anvil").is_none());
    assert_eq!(room.inventory.len(), 2);
}

#[test]
fn room_add_merges_same_id() {
    let mut room = RoomInventory {
        inventory: vec![
            (stub("rope", 1, &["rope"], None), item("rope", "Rope", &["rope"], 1)),
            (stub("coin", 3, &["shiny"], Some("Clink.")), item("coin", "Coin", &["coin"], 3)),
        ],
    };
    room.add_item(item("coin", "Coin", &["coin"], 2));
    assert_eq!(room.inventory.len(), 2);
    assert_eq!(room.inventory[1].1.quantity, 5);
    assert_eq!(room.inventory[1].0.pickup.as_deref(), Some("Clink."));
    assert!(room.can_add(&item("coin", "Coin", &[], usize::MAX - 5)));
    assert!(!room.can_add(&item("coin", "Coin", &[], usize::MAX - 4)));
}

#[test]
fn whitespace_matches_std() {
    for u in 0..0x11_0000u32 {
        if let Some(ch) = char::from_u32(u) {
            assert_eq!(text_adventure::command::is_whitespace(ch), ch.is_whitespace(), "{:#x}", u);
        }
    }
}

#[test]
fn room_add_uses_plain_stub() {
    let mut room = RoomInventory { inventory: vec![] };
    room.add_item(item("gem", "Gem", &["gem"], 3));
    let (s, i) = &room.inventory[0];
    assert_eq!(s.id, "gem");
    assert_eq!(s.quantity, 3);
    assert!(s.name.is_none() && s.pickup.is_none() && s.targets.is_empty());
    assert_eq!(i.quantity, 3);
}

#[test]
fn item_names_prefer_stub_name() {
    let mut named = stub("key", 1, &[], None);
    named.name = Some("Rusty key".to_string());
    let room = RoomInventory {
        inventory: vec![
            (named, item("key", "Key", &[], 1)),
            (stub("rope", 1, &[], None), item("rope", "Rope", &[], 1)),
        ],
    };
    assert_eq!(room.item_names_iter(), vec!["Rusty key", "Rope"]);
}

#[test]
fn take_then_drop_restores_room() {
    let mut room = RoomInventory {
        inventory: vec![
            (stub("rope", 1, &["rope"], None), item("rope", "Rope", &["rope"], 1)),
            (stub("coin", 7, &[], None), item("coin", "Coin", &["coin"], 7)),
        ],
    };
    let before = counts(&room);
    let mut player = Inventory { items: vec![item("sword", "Sword", &["sword"], 1)] };
    let (_, taken) = room.take_item("coin").expect("a coin");
    player.add_item(taken);
    match player.drop_item("coin") {
        DropResult::Item(it) => room.add_item(it),
        other => panic!("unexpected {:?}", other),
    }
    assert_eq!(counts(&room), before);
    assert_eq!(player.items.len(), 1);
}

#[test]
fn display_names_show_quantity_when_bounded() {
    let mut gold = item("gold", "Gold", &[], 25);
    gold.max_quantity = Some(999);
    let inv = Inventory { items: vec![item("sword", "Sword", &[], 1), gold] };
    assert_eq!(inv.display_names(), vec!["Sword".to_string(), "Gold (25)".to_string()]);
}

#[test]
fn can_add_detects_overflow() {
    let inv = Inventory { items: vec![item("gold", "Gold", &[], usize::MAX - 1)] };
    assert!(inv.can_add(&item("gold", "Gold", &[], 1)));
    assert!(!inv.can_add(&item("gold", "Gold", &[], 2)));
    assert!(inv.can_add(&item("gem", "Gem", &[], usize::MAX)));
}

#[test]
fn clone_keeps_every_field() {
    let mut a = item("gold", "Gold", &["coins", "gold"], 4);
    a.max_quantity = Some(9);
    let b = a.clone();
    assert_eq!(b.id, a.id);
    assert_eq!(b.targets, a.targets);
    assert_eq!(b.max_quantity, Some(9));
    assert_eq!(b.description, a.description);
}
