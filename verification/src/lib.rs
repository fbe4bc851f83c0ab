pub mod bug;
pub mod generators;
pub mod search;
pub mod util;
