pub mod lists;
pub mod normalize;
pub mod wordlist;
