//! Arguments of the requests by which the shell reads settings and
//! statistics.

use vstd::prelude::*;

verus! {

/// Names the setting to read.
#[derive(Debug, Clone)]
pub struct GetSettingsArg {
    pub setting: String,
}

/// Names the statistic to read.
#[derive(Debug, Clone)]
pub struct StatsArgs {
    pub stat: String,
}

impl GetSettingsArg {
    pub fn new(setting: String) -> (r: GetSettingsArg)
        ensures
            r.setting == setting,
    {
        GetSettingsArg { setting }
    }
}

} // verus!
