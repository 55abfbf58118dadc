//! Engine core of a text-driven exploration game: the spatial map resolver,
//! the world model with its action lookup, the inventory engine, the command
//! interpreter and the persistable session state.

pub mod command;
pub mod coord;
pub mod display;
pub mod game;
pub mod inventory;
pub mod level;
pub mod map;
pub mod session;
pub mod text;

pub use command::{parse_command, parse_command_target, split_words, ParsedCommand};
pub use coord::{Coord, Direction};
pub use game::{Game, Response, RoomDescription, SetupError};
pub use inventory::{DropResult, Inventory, InventoryItem, ItemVariant, RoomInventory};
pub use level::{
    Action, ContentIssue, ItemDatabase, Level, Region, Room, RoomItem, SaleItem, Verb, NPC,
};
pub use display::format_description;
pub use map::{parse_map, print_exits, print_map_issue, MapError, RoomMap, RoomMapInfo};
pub use session::SaveState;
