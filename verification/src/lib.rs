pub mod production;
pub mod util;
