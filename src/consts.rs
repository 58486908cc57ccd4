use vstd::prelude::*;

verus! {

pub const TOWNSFOLK_ICON: &'static str = "https://wiki.bloodontheclocktower.com/images/1/12/Generic_townsfolk.png";

pub const OUTSIDER_ICON: &'static str = "https://wiki.bloodontheclocktower.com/images/5/53/Generic_outsider.png";

pub const MINION_ICON: &'static str = "https://wiki.bloodontheclocktower.com/images/b/bd/Generic_minion.png";

pub const DEMON_ICON: &'static str = "https://wiki.bloodontheclocktower.com/images/5/52/Generic_demon.png";

pub const FABLED_ICON: &'static str = "https://wiki.bloodontheclocktower.com/images/c/c9/Generic_fabled.png";

pub const TRAVELLER_ICON: &'static str = "https://wiki.bloodontheclocktower.com/images/0/07/Generic_traveller.png";

/// Script selected when nothing else is chosen.
pub const DEFAULT_SCRIPT: &'static str = "Trouble Brewing";

/// Number of sweeps the randomizer may spend before giving up.
pub const MAX_GENERATION_ITERATIONS: usize = 10000;

/// Key under which user data is persisted.
pub const STORAGE_KEY: &'static str = "botc.state";

} // verus!
