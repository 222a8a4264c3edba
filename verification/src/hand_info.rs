pub mod bounds;
pub mod closed_forms;
pub mod decomposition;
pub mod hand_analyzer;
pub mod independent;
pub mod search;
pub mod winning_hand;
