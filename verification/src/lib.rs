pub mod counts;
pub mod hand;
pub mod hand_info;
pub mod notation;
pub mod shanten;
pub mod tile;
