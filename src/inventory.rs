use vstd::prelude::*;
use vstd::multiset::Multiset;
use vstd::seq_lib::*;
use vstd::string::*;

use crate::level::RoomItem;
use crate::text::{
    clone_opt_string, clone_strings, contains_target, decimal, decimal_string, lower_of, lowercase,
    opt_chars, str_eq, strs,
};

verus! {

/// The kind of an item.
#[derive(Clone, Copy, Debug, PartialEq, Eq, Structural)]
pub enum ItemVariant {
    Consumable,
    Weapon,
    Money,
}

/// An item: a catalog template, or an instance of one held in an inventory
/// with its own quantity.
#[derive(Debug)]
pub struct InventoryItem {
    pub id: String,
    pub name: String,
    pub targets: Vec<String>,
    pub sticky: bool,
    pub variant: ItemVariant,
    pub quantity: usize,
    pub max_quantity: Option<usize>,
    pub description: String,
}

/// The value of an item, with every string as its characters.
pub struct ItemView {
    pub id: Seq<char>,
    pub name: Seq<char>,
    pub targets: Seq<Seq<char>>,
    pub sticky: bool,
    pub variant: ItemVariant,
    pub quantity: usize,
    pub max_quantity: Option<usize>,
    pub description: Seq<char>,
}

impl View for InventoryItem {
    type V = ItemView;

    open spec fn view(&self) -> ItemView {
        ItemView {
            id: self.id@,
            name: self.name@,
            targets: strs(self.targets@),
            sticky: self.sticky,
            variant: self.variant,
            quantity: self.quantity,
            max_quantity: self.max_quantity,
            description: self.description@,
        }
    }
}

impl Clone for InventoryItem {
    fn clone(&self) -> (r: Self)
        ensures
            r@ == self@,
    {
        InventoryItem {
            id: self.id.clone(),
            name: self.name.clone(),
            targets: clone_strings(&self.targets),
            sticky: self.sticky,
            variant: self.variant,
            quantity: self.quantity,
            max_quantity: self.max_quantity,
            description: self.description.clone(),
        }
    }
}

/// `it` with its quantity replaced by `q`.
pub open spec fn with_quantity(it: ItemView, q: usize) -> ItemView {
    ItemView {
        id: it.id,
        name: it.name,
        targets: it.targets,
        sticky: it.sticky,
        variant: it.variant,
        quantity: q,
        max_quantity: it.max_quantity,
        description: it.description,
    }
}

/// The views of a sequence of items.
pub open spec fn item_views(s: Seq<InventoryItem>) -> Seq<ItemView> {
    s.map_values(|i: InventoryItem| i@)
}

/// No two entries of `s` share an id.
pub open spec fn ids_unique(s: Seq<ItemView>) -> bool {
    forall|i: int, j: int| 0 <= i < j < s.len() ==> (#[trigger] s[i]).id != (#[trigger] s[j]).id
}

/// Some entry of `s` has the id `id`.
pub open spec fn has_id(s: Seq<ItemView>, id: Seq<char>) -> bool {
    exists|i: int| 0 <= i < s.len() && (#[trigger] s[i]).id == id
}

/// The position of an entry of `s` with the id `id`.
pub open spec fn id_index(s: Seq<ItemView>, id: Seq<char>) -> int {
    choose|i: int| 0 <= i < s.len() && (#[trigger] s[i]).id == id
}

/// `s` after adding `it`: an entry with the same id absorbs its quantity,
/// otherwise `it` is appended.
pub open spec fn added(s: Seq<ItemView>, it: ItemView) -> Seq<ItemView> {
    if has_id(s, it.id) {
        let i = id_index(s, it.id);
        s.update(i, with_quantity(s[i], (s[i].quantity + it.quantity) as usize))
    } else {
        s.push(it)
    }
}

/// Adding `it` to `s` keeps every quantity within range.
pub open spec fn add_fits(s: Seq<ItemView>, it: ItemView) -> bool {
    has_id(s, it.id) ==> s[id_index(s, it.id)].quantity + it.quantity <= usize::MAX
}

/// Whether the player's `name` designates `it`: its lower-cased display
/// name, or one of its aliases.
pub open spec fn drop_matches(it: ItemView, name: Seq<char>) -> bool {
    lower_of(it.name) == name || it.targets.contains(name)
}

/// How an item is listed: its name, followed by its quantity in
/// parentheses when the item has a maximum quantity.
pub open spec fn display_name(it: ItemView) -> Seq<char> {
    if it.max_quantity is Some {
        it.name + " ("@ + decimal(it.quantity as nat) + ")"@
    } else {
        it.name
    }
}

/// The player's inventory: items in order of first insertion, one entry per id.
#[derive(Debug)]
pub struct Inventory {
    pub items: Vec<InventoryItem>,
}

impl View for Inventory {
    type V = Seq<ItemView>;

    open spec fn view(&self) -> Seq<ItemView> {
        item_views(self.items@)
    }
}

/// What dropping an item by name gave.
#[derive(Debug)]
pub enum DropResult {
    /// The item was removed; it is handed back whole.
    Item(InventoryItem),
    /// The item is sticky and stays in the inventory.
    Sticky,
    /// No item answers to the name.
    NotFound,
}

impl Inventory {
    /// One entry per id.
    pub open spec fn wf(&self) -> bool {
        ids_unique(self@)
    }

    /// The position of the entry with the id `id`, if any.
    pub fn position_of(&self, id: &str) -> (r: Option<usize>)
        requires
            self.wf(),
        ensures
            r is Some <==> has_id(self@, id@),
            r matches Some(i) ==> i == id_index(self@, id@),
    {
        let mut i: usize = 0;
        while i < self.items.len()
            invariant
                self.wf(),
                i <= self.items@.len(),
                forall|k: int| 0 <= k < i ==> (#[trigger] self@[k]).id != id@,
            decreases self.items@.len() - i,
        {
            assert(self@[i as int] == self.items@[i as int]@);
            if str_eq(self.items[i].id.as_str(), id) {
                proof {
                    let j = id_index(self@, id@);
                    assert(self@[i as int].id == id@);
                    assert(0 <= j < self@.len() && self@[j].id == id@);
                    if j < i as int {
                        assert(self@[j].id != self@[i as int].id);
                    } else if j > i as int {
                        assert(self@[i as int].id != self@[j].id);
                    }
                }
                return Some(i);
            }
            i += 1;
        }
        None
    }

    /// Adds `new_item`: an entry with the same id absorbs its quantity,
    /// otherwise it is appended.
    pub fn add_item(&mut self, new_item: InventoryItem)
        requires
            old(self).wf(),
            add_fits(old(self)@, new_item@),
        ensures
            final(self).wf(),
            final(self)@ == added(old(self)@, new_item@),
    {
        match self.position_of(new_item.id.as_str()) {
            Some(i) => {
                let q = self.items[i].quantity + new_item.quantity;
                self.items[i].quantity = q;
                proof {
                    assert(self@ =~= added(old(self)@, new_item@));
                }
            },
            None => {
                self.items.push(new_item);
                proof {
                    assert(self@ =~= added(old(self)@, new_item@));
                }
            },
        }
    }

    /// Whether adding `item` keeps every quantity within range.
    pub fn can_add(&self, item: &InventoryItem) -> (r: bool)
        requires
            self.wf(),
        ensures
            r == add_fits(self@, item@),
    {
        match self.position_of(item.id.as_str()) {
            Some(i) => {
                assert(self@[i as int] == self.items@[i as int]@);
                self.items[i].quantity <= usize::MAX - item.quantity
            },
            None => true,
        }
    }

    /// The name under which each item is listed, in order.
    pub fn display_names(&self) -> (r: Vec<String>)
        ensures
            crate::text::strs(r@) == self@.map_values(|it: ItemView| display_name(it)),
    {
        let mut r: Vec<String> = Vec::new();
        let mut i: usize = 0;
        while i < self.items.len()
            invariant
                i <= self.items@.len(),
                crate::text::strs(r@) == self@.map_values(|it: ItemView| display_name(it)).subrange(0, i as int),
            decreases self.items@.len() - i,
        {
            let it = &self.items[i];
            assert(self@[i as int] == it@);
            let mut line = it.name.clone();
            if it.max_quantity.is_some() {
                line.append(" (");
                let q = decimal_string(it.quantity);
                line.append(q.as_str());
                line.append(")");
            }
            assert(line@ == display_name(self@[i as int]));
            let ghost before = r@;
            r.push(line);
            assert(crate::text::strs(r@) =~= crate::text::strs(before).push(line@));
            assert(crate::text::strs(r@) =~= self@.map_values(|it: ItemView| display_name(it)).subrange(0, i + 1));
            i += 1;
        }
        assert(self@.map_values(|it: ItemView| display_name(it)).subrange(0, i as int) =~= self@.map_values(|it: ItemView| display_name(it)));
        r
    }

    /// The position of the first item that `name` designates.
    pub fn find_item(&self, name: &str) -> (r: Option<usize>)
        ensures
            r matches Some(k) ==> (k < self@.len() && drop_matches(self@[k as int], name@) && forall|
                j: int,
            |
                0 <= j < k ==> !drop_matches(#[trigger] self@[j], name@)),
            r is None ==> forall|j: int| 0 <= j < self@.len() ==> !drop_matches(#[trigger] self@[j], name@),
    {
        let mut i: usize = 0;
        while i < self.items.len()
            invariant
                i <= self.items@.len(),
                forall|j: int| 0 <= j < i ==> !drop_matches(#[trigger] self@[j], name@),
            decreases self.items@.len() - i,
        {
            let item = &self.items[i];
            assert(self@[i as int] == self.items@[i as int]@);
            let lowered = lowercase(item.name.as_str());
            if str_eq(lowered.as_str(), name) || contains_target(&item.targets, name) {
                return Some(i);
            }
            i += 1;
        }
        None
    }

    /// Removes the entry at `found`, unless it is sticky.
    pub fn drop_found(&mut self, found: Option<usize>) -> (r: DropResult)
        requires
            found matches Some(k) ==> k < old(self)@.len(),
        ensures
            match found {
                None => r is NotFound && final(self)@ == old(self)@,
                Some(k) => if old(self)@[k as int].sticky {
                    r is Sticky && final(self)@ == old(self)@
                } else {
                    r matches DropResult::Item(it) && it@ == old(self)@[k as int] && final(self)@
                        == old(self)@.remove(k as int)
                },
            },
            old(self).wf() ==> final(self).wf(),
    {
        match found {
            None => DropResult::NotFound,
            Some(k) => {
                if self.items[k].sticky {
                    DropResult::Sticky
                } else {
                    let it = self.items.remove(k);
                    proof {
                        assert(self@ =~= old(self)@.remove(k as int));
                    }
                    DropResult::Item(it)
                }
            },
        }
    }

    /// Drops the first item that `name` designates (by lower-cased display
    /// name or alias); a sticky item stays and is reported.
    pub fn drop_item(&mut self, name: &str) -> (r: DropResult)
        ensures
            old(self).wf() ==> final(self).wf(),
            (forall|j: int| 0 <= j < old(self)@.len() ==> !drop_matches(#[trigger] old(self)@[j], name@))
                ==> r is NotFound && final(self)@ == old(self)@,
            forall|k: int|
                0 <= k < old(self)@.len() && drop_matches(#[trigger] old(self)@[k], name@) && (forall|
                    j: int,
                | 0 <= j < k ==> !drop_matches(#[trigger] old(self)@[j], name@)) ==> {
                    if old(self)@[k].sticky {
                        r is Sticky && final(self)@ == old(self)@
                    } else {
                        (r matches DropResult::Item(it) && it@ == old(self)@[k] && final(self)@ == old(
                            self,
                        )@.remove(k))
                    }
                },
    {
        let found = self.find_item(name);
        self.drop_found(found)
    }
}

/// The value of a placement stub, with every string as its characters.
pub struct StubView {
    pub id: Seq<char>,
    pub quantity: usize,
    pub name: Option<Seq<char>>,
    pub targets: Seq<Seq<char>>,
    pub pickup: Option<Seq<char>>,
}

impl View for RoomItem {
    type V = StubView;

    open spec fn view(&self) -> StubView {
        StubView {
            id: self.id@,
            quantity: self.quantity,
            name: opt_chars(self.name),
            targets: strs(self.targets@),
            pickup: opt_chars(self.pickup),
        }
    }
}

impl Clone for RoomItem {
    fn clone(&self) -> (r: Self)
        ensures
            r@ == self@,
    {
        RoomItem {
            id: self.id.clone(),
            quantity: self.quantity,
            name: clone_opt_string(&self.name),
            targets: clone_strings(&self.targets),
            pickup: clone_opt_string(&self.pickup),
        }
    }
}

/// The stub under which an item dropped by the player lies in a room: its id
/// and quantity, and no overrides.
pub open spec fn plain_stub(it: ItemView) -> StubView {
    StubView { id: it.id, quantity: it.quantity, name: None, targets: Seq::empty(), pickup: None }
}

impl RoomItem {
    /// The stub for an item dropped into a room.
    pub fn from(inventory_item: &InventoryItem) -> (r: RoomItem)
        ensures
            r@ == plain_stub(inventory_item@),
    {
        let r = RoomItem {
            id: inventory_item.id.clone(),
            quantity: inventory_item.quantity,
            name: None,
            targets: Vec::new(),
            pickup: None,
        };
        assert(strs(r.targets@) =~= Seq::<Seq<char>>::empty());
        r
    }
}

/// The view of a room inventory entry.
pub open spec fn entry_view(e: (RoomItem, InventoryItem)) -> (StubView, ItemView) {
    (e.0@, e.1@)
}

/// Whether `target` designates the entry `e`: an alias of its stub, or else
/// an alias of its item.
pub open spec fn take_matches(e: (StubView, ItemView), target: Seq<char>) -> bool {
    e.0.targets.contains(target) || e.1.targets.contains(target)
}

/// The name under which a room entry is shown: the stub's override, or the
/// item's own name.
pub open spec fn shown_name(e: (StubView, ItemView)) -> Seq<char> {
    match e.0.name {
        Some(n) => n,
        None => e.1.name,
    }
}

/// The first entry of `s` whose item has the id `id` is at `i`.
pub open spec fn first_with_id(s: Seq<(StubView, ItemView)>, id: Seq<char>, i: int) -> bool {
    &&& 0 <= i < s.len()
    &&& s[i].1.id == id
    &&& forall|j: int| 0 <= j < i ==> (#[trigger] s[j]).1.id != id
}

/// Some entry of `s` holds an item with the id `id`.
pub open spec fn stock_has_id(s: Seq<(StubView, ItemView)>, id: Seq<char>) -> bool {
    exists|i: int| #[trigger] first_with_id(s, id, i)
}

/// The position of the first entry of `s` holding the id `id`.
pub open spec fn stock_index(s: Seq<(StubView, ItemView)>, id: Seq<char>) -> int {
    choose|i: int| #[trigger] first_with_id(s, id, i)
}

/// The first entry with an id is the one `stock_index` names.
pub proof fn lemma_first_with_id_unique(s: Seq<(StubView, ItemView)>, id: Seq<char>, i: int)
    requires
        first_with_id(s, id, i),
    ensures
        stock_index(s, id) == i,
{
    let j = stock_index(s, id);
    assert(first_with_id(s, id, j));
    if j < i {
        assert(s[j].1.id != id);
    } else if i < j {
        assert(s[i].1.id != id);
    }
}

/// `s` after the player drops `it` into the room: the first entry with the
/// same id absorbs its quantity, otherwise `it` is appended under a plain
/// stub.
pub open spec fn stocked(s: Seq<(StubView, ItemView)>, it: ItemView) -> Seq<(StubView, ItemView)> {
    if stock_has_id(s, it.id) {
        let i = stock_index(s, it.id);
        s.update(i, (s[i].0, with_quantity(s[i].1, (s[i].1.quantity + it.quantity) as usize)))
    } else {
        s.push((plain_stub(it), it))
    }
}

/// Dropping `it` into `s` keeps every quantity within range.
pub open spec fn stock_fits(s: Seq<(StubView, ItemView)>, it: ItemView) -> bool {
    stock_has_id(s, it.id) ==> s[stock_index(s, it.id)].1.quantity + it.quantity <= usize::MAX
}

/// The items lying in one room, in order, each with the stub it was placed
/// under.
#[derive(Debug)]
pub struct RoomInventory {
    pub inventory: Vec<(RoomItem, InventoryItem)>,
}

impl View for RoomInventory {
    type V = Seq<(StubView, ItemView)>;

    open spec fn view(&self) -> Seq<(StubView, ItemView)> {
        self.inventory@.map_values(|e: (RoomItem, InventoryItem)| entry_view(e))
    }
}

impl RoomInventory {
    /// The position of the first entry that `id` designates.
    pub fn find_take(&self, id: &str) -> (r: Option<usize>)
        ensures
            r is None ==> forall|j: int| 0 <= j < self@.len() ==> !take_matches(#[trigger] self@[j], id@),
            r matches Some(k) ==> (k < self@.len() && take_matches(self@[k as int], id@) && forall|j: int|
                0 <= j < k ==> !take_matches(#[trigger] self@[j], id@)),
    {
        let mut i: usize = 0;
        while i < self.inventory.len()
            invariant
                i <= self@.len(),
                forall|j: int| 0 <= j < i ==> !take_matches(#[trigger] self@[j], id@),
            decreases self@.len() - i,
        {
            assert(self@[i as int] == entry_view(self.inventory@[i as int]));
            if contains_target(&self.inventory[i].0.targets, id) || contains_target(
                &self.inventory[i].1.targets,
                id,
            ) {
                return Some(i);
            }
            i += 1;
        }
        None
    }

    /// Removes and returns the entry at `k`; the other entries keep their
    /// order.
    pub fn take_at(&mut self, k: usize) -> (r: (RoomItem, InventoryItem))
        requires
            k < old(self)@.len(),
        ensures
            entry_view(r) == old(self)@[k as int],
            final(self)@ == old(self)@.remove(k as int),
    {
        let e = self.inventory.remove(k);
        assert(self@ =~= old(self)@.remove(k as int));
        e
    }

    /// Removes and returns the first entry that `id` designates: an alias of
    /// its stub, or else of its item. The other entries keep their order.
    pub fn take_item(&mut self, id: &str) -> (r: Option<(RoomItem, InventoryItem)>)
        ensures
            r is None ==> final(self)@ == old(self)@ && forall|j: int|
                0 <= j < old(self)@.len() ==> !take_matches(#[trigger] old(self)@[j], id@),
            r matches Some(e) ==> exists|k: int|
                0 <= k < old(self)@.len() && take_matches(old(self)@[k], id@) && (forall|j: int|
                    0 <= j < k ==> !take_matches(#[trigger] old(self)@[j], id@)) && entry_view(e)
                    == old(self)@[k] && final(self)@ == old(self)@.remove(k),
    {
        match self.find_take(id) {
            Some(k) => Some(self.take_at(k)),
            None => None,
        }
    }

    /// Whether adding `item` keeps every quantity within range.
    pub fn can_add(&self, item: &InventoryItem) -> (r: bool)
        ensures
            r == stock_fits(self@, item@),
    {
        match self.position_of(item.id.as_str()) {
            Some(i) => {
                assert(self@[i as int] == entry_view(self.inventory@[i as int]));
                self.inventory[i].1.quantity <= usize::MAX - item.quantity
            },
            None => true,
        }
    }

    /// The position of the first entry whose item has the id `id`.
    pub fn position_of(&self, id: &str) -> (r: Option<usize>)
        ensures
            r is Some <==> stock_has_id(self@, id@),
            r matches Some(i) ==> first_with_id(self@, id@, i as int) && i == stock_index(self@, id@),
    {
        let mut i: usize = 0;
        while i < self.inventory.len()
            invariant
                i <= self@.len(),
                forall|k: int| 0 <= k < i ==> (#[trigger] self@[k]).1.id != id@,
            decreases self@.len() - i,
        {
            assert(self@[i as int] == entry_view(self.inventory@[i as int]));
            if str_eq(self.inventory[i].1.id.as_str(), id) {
                proof {
                    assert(first_with_id(self@, id@, i as int));
                    lemma_first_with_id_unique(self@, id@, i as int);
                }
                return Some(i);
            }
            i += 1;
        }
        None
    }

    /// Puts an item dropped by the player into the room: the first entry
    /// holding the same id absorbs its quantity; otherwise it goes at the
    /// end, under a plain stub.
    pub fn add_item(&mut self, inventory_item: InventoryItem)
        requires
            stock_fits(old(self)@, inventory_item@),
        ensures
            final(self)@ == stocked(old(self)@, inventory_item@),
    {
        match self.position_of(inventory_item.id.as_str()) {
            Some(i) => {
                assert(self@[i as int] == entry_view(self.inventory@[i as int]));
                let q = self.inventory[i].1.quantity + inventory_item.quantity;
                self.inventory[i].1.quantity = q;
                assert(self@ =~= stocked(old(self)@, inventory_item@));
            },
            None => {
                let stub = RoomItem::from(&inventory_item);
                self.inventory.push((stub, inventory_item));
                assert(self@ =~= stocked(old(self)@, inventory_item@));
            },
        }
    }

    /// The name shown for each entry, in order.
    pub fn item_names_iter<'a>(&'a self) -> (r: Vec<&'a str>)
        ensures
            r@.len() == self@.len(),
            forall|i: int| 0 <= i < r@.len() ==> (#[trigger] r@[i])@ == shown_name(self@[i]),
    {
        let mut r: Vec<&'a str> = Vec::new();
        let mut i: usize = 0;
        while i < self.inventory.len()
            invariant
                i <= self@.len(),
                r@.len() == i,
                forall|k: int| 0 <= k < i ==> (#[trigger] r@[k])@ == shown_name(self@[k]),
            decreases self@.len() - i,
        {
            assert(self@[i as int] == entry_view(self.inventory@[i as int]));
            let e = &self.inventory[i];
            match &e.0.name {
                Some(n) => r.push(n.as_str()),
                None => r.push(e.1.name.as_str()),
            }
            i += 1;
        }
        r
    }
}

/// The (id, quantity) pairs of a room inventory, without order.
pub open spec fn stock_counts(s: Seq<(StubView, ItemView)>) -> Multiset<(Seq<char>, usize)> {
    s.map_values(|e: (StubView, ItemView)| (e.1.id, e.1.quantity)).to_multiset()
}

/// One full transfer cycle: taking the entry at `k` from a room (where no
/// other entry has its id) into an inventory that holds no item with its id,
/// then dropping it back into the same room, leaves the player's inventory
/// as it was and the room holding the same ids with the same quantities.
pub proof fn lemma_transfer_round_trip(room: Seq<(StubView, ItemView)>, player: Seq<ItemView>, k: int)
    requires
        0 <= k < room.len(),
        ids_unique(player),
        !has_id(player, room[k].1.id),
        !room[k].1.sticky,
        forall|j: int| 0 <= j < room.len() && j != k ==> (#[trigger] room[j]).1.id != room[k].1.id,
    ensures
        ({
            let item = room[k].1;
            let held = added(player, item);
            let j = id_index(held, item.id);
            &&& 0 <= j < held.len()
            &&& held[j] == item
            &&& held.remove(j) == player
            &&& stock_counts(stocked(room.remove(k), held[j])) == stock_counts(room)
        }),
{
    broadcast use vstd::seq_lib::group_to_multiset_ensures;

    let item = room[k].1;
    let held = added(player, item);
    assert(held == player.push(item));
    assert(held[player.len() as int].id == item.id);
    let j = id_index(held, item.id);
    assert(0 <= j < held.len() && held[j].id == item.id);
    if j < player.len() {
        assert(player[j].id == item.id);
    }
    assert(j == player.len());
    assert(held.remove(j) =~= player);
    assert(!stock_has_id(room.remove(k), item.id)) by {
        if stock_has_id(room.remove(k), item.id) {
            let i = choose|i: int| #[trigger] first_with_id(room.remove(k), item.id, i);
            if i < k {
                assert(room.remove(k)[i] == room[i]);
            } else {
                assert(room.remove(k)[i] == room[i + 1]);
            }
        }
    }
    let f = |e: (StubView, ItemView)| (e.1.id, e.1.quantity);
    let back = room.remove(k).push((plain_stub(item), item));
    assert(back.map_values(f) =~= room.map_values(f).remove(k).push(f(room[k])));
    to_multiset_remove(room.map_values(f), k);
    to_multiset_build(room.map_values(f).remove(k), f(room[k]));
    assert(room.map_values(f).to_multiset().count(f(room[k])) > 0);
    assert(room.map_values(f).remove(k).to_multiset().insert(f(room[k])) =~= room.map_values(f).to_multiset());
}

} // verus!
