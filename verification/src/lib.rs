pub mod card;
pub mod hand;
pub mod history;
pub mod history_laws;
pub mod translate_laws;
pub mod iso;
pub mod iso_laws;
pub mod strength;
pub mod abstraction;
pub mod infoset;
pub mod utility;
pub mod canonical;
pub mod server;
pub mod counting;
pub mod inline_vec;
