pub mod card;
pub mod score;
