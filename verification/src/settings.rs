//! The configuration surface: plain values handed in by whatever loads the
//! process configuration.

use vstd::prelude::*;

verus! {

pub struct Telegram {
    pub token: String,
    pub name: String,
}

pub struct Constants {
    pub divisor: u32,
    pub cache_cycle: u8,
}

pub struct Database {
    pub options: String,
}

pub struct Settings {
    pub telegram: Telegram,
    pub constants: Constants,
    pub database: Database,
}

} // verus!
