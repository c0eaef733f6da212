use vstd::prelude::*;

verus! {

/// Which kind of subordinate id a range holds.
#[allow(non_camel_case_types)]
#[derive(Debug, Copy, Clone, PartialEq, Eq, Structural)]
pub enum subid_type {
    IdTypeUid,
    IdTypeGid,
}

/// Outcome of a query made through the name-service interface.
#[allow(non_camel_case_types)]
#[derive(Debug, Copy, Clone, PartialEq, Eq, Structural)]
pub enum subid_status {
    SubidStatusSuccess,
    SubidStatusUnknownUser,
    SubidStatusErrorConn,
    SubidStatusError,
}

/// A range of subordinate ids: `count` ids starting at `start`.
#[allow(non_camel_case_types)]
#[derive(Debug, Copy, Clone, PartialEq, Eq, Structural)]
pub struct subid_range {
    pub start: u64,
    pub count: u64,
}


/// Where new ranges of each kind may be placed, and how large they are.
#[derive(Debug, Clone, Copy, PartialEq, Eq, Structural)]
pub struct SubidConfig {
    pub uid_min: u64,
    pub uid_max: u64,
    pub uid_count: u64,
    pub gid_min: u64,
    pub gid_max: u64,
    pub gid_count: u64,
}

/// The settings that hold where the configuration names none.
pub open spec fn default_config() -> SubidConfig {
    SubidConfig {
        uid_min: 100000,
        uid_max: 600100000,
        uid_count: 65536,
        gid_min: 100000,
        gid_max: 600100000,
        gid_count: 65536,
    }
}

impl Default for SubidConfig {
    fn default() -> (cfg: Self)
        ensures
            cfg == default_config(),
    {
        SubidConfig {
            uid_min: 100000,
            uid_max: 600100000,
            uid_count: 65536,
            gid_min: 100000,
            gid_max: 600100000,
            gid_count: 65536,
        }
    }
}

/// `(min, max, count)` of the configuration for ranges of kind `ty`.
pub open spec fn limits(cfg: SubidConfig, ty: subid_type) -> (u64, u64, u64) {
    match ty {
        subid_type::IdTypeUid => (cfg.uid_min, cfg.uid_max, cfg.uid_count),
        subid_type::IdTypeGid => (cfg.gid_min, cfg.gid_max, cfg.gid_count),
    }
}

/// One line of the database: `count` ids of kind `id_type` from `start`
/// belong to the user `uid`.
#[derive(Debug, Clone, Copy, PartialEq, Eq, Structural)]
pub struct DbEntry {
    pub uid: u32,
    pub start: u64,
    pub count: u64,
    pub id_type: subid_type,
}

} // verus!
