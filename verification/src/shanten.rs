pub mod shanten;
