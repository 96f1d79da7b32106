pub mod game;
pub mod guild;
pub mod identity;
pub mod player;
pub mod refusal;
pub mod user;
