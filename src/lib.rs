pub mod assoc;
pub mod attribution;
pub mod history;
pub mod rank;
pub mod record;
pub mod reducer;
pub mod share;
pub mod text;
pub mod tree;
