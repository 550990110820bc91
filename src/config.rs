//! The parts of the server's configuration that name storage and the admin interface.
use vstd::prelude::*;

verus! {

#[derive(Debug, PartialEq, Eq)]
pub struct SqliteConfig {
    pub filename: String,
}

#[derive(Debug, PartialEq, Eq)]
pub enum StorageConfig {
    Sqlite { sqlite: SqliteConfig },
}

#[derive(Debug, PartialEq, Eq)]
pub struct AdminConfig {
    pub enabled: bool,
    /// A directory whose files are served in place of the built-in assets.
    pub asset_overrides: Option<String>,
}

impl Default for AdminConfig {
    fn default() -> (r: Self)
        ensures
            !r.enabled,
            r.asset_overrides is None,
    {
        AdminConfig { enabled: false, asset_overrides: None }
    }
}

} // verus!
