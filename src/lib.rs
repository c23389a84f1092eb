pub mod almanac;
pub mod calibration;
pub mod camel_cards;
pub mod cubes;
pub mod interval;
pub mod network;
pub mod oasis;
pub mod pipes;
pub mod races;
pub mod schematic;
pub mod scratchcards;
pub mod tokens;
