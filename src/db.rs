//! Names and access modes of the databases that persist items and metadata.

use vstd::prelude::*;

verus! {

/// Enumeration of all databases needed by the node.
#[derive(Clone, Copy, Debug, Hash, PartialEq, Eq, Structural)]
pub enum DbName {
    /// Primary database: KV store of chain entries, keyed by address
    PrimaryChainPublicEntries,
    /// Primary database: KV store of chain entries, keyed by address
    PrimaryChainPrivateEntries,
    /// Primary database: KV store of chain headers, keyed by address
    PrimaryChainHeaders,
    /// Primary database: KVV store of chain metadata, storing relationships
    PrimaryMetadata,
    /// Primary database: KV store of links
    PrimaryLinksMeta,
    /// int KV store storing the sequence of committed headers,
    /// most notably allowing access to the chain head
    ChainSequence,
    /// Cache database: KV store of chain entries, keyed by address
    CacheChainEntries,
    /// Cache database: KV store of chain headers, keyed by address
    CacheChainHeaders,
    /// Cache database: KVV store of chain metadata, storing relationships
    CacheMetadata,
    /// Cache database: KV store of links
    CacheLinksMeta,
    /// database which stores a single key-value pair, encoding the
    /// mutable state for the entire conductor
    ConductorState,
    /// database that stores wasm bytecode
    Wasm,
    /// database to store DNA definitions
    DnaDef,
    /// KVV store to accumulate validation receipts for a published entry hash
    ValidationReceipts,
}

/// The various modes of viewing a key-value database.
#[derive(Clone, Copy, Debug, PartialEq, Eq, Structural)]
pub enum DbKind {
    /// Single-value KV with arbitrary keys
    Single,
    /// Single-value KV with integer keys
    SingleInt,
    /// Multi-value KV with arbitrary keys
    Multi,
}

/// The kind of store each database is opened as.
pub open spec fn spec_kind(name: DbName) -> DbKind {
    match name {
        DbName::PrimaryMetadata | DbName::CacheMetadata | DbName::ValidationReceipts => DbKind::Multi,
        DbName::ChainSequence => DbKind::SingleInt,
        _ => DbKind::Single,
    }
}

/// The name each database is registered under.
pub open spec fn spec_name_str(name: DbName) -> Seq<char> {
    match name {
        DbName::PrimaryChainPublicEntries => "PrimaryChainPublicEntries"@,
        DbName::PrimaryChainPrivateEntries => "PrimaryChainPrivateEntries"@,
        DbName::PrimaryChainHeaders => "PrimaryChainHeaders"@,
        DbName::PrimaryMetadata => "PrimaryMetadata"@,
        DbName::PrimaryLinksMeta => "PrimaryLinksMeta"@,
        DbName::ChainSequence => "ChainSequence"@,
        DbName::CacheChainEntries => "CacheChainEntries"@,
        DbName::CacheChainHeaders => "CacheChainHeaders"@,
        DbName::CacheMetadata => "CacheMetadata"@,
        DbName::CacheLinksMeta => "CacheLinksMeta"@,
        DbName::ConductorState => "ConductorState"@,
        DbName::Wasm => "Wasm"@,
        DbName::DnaDef => "DnaDef"@,
        DbName::ValidationReceipts => "ValidationReceipts"@,
    }
}

impl DbName {
    /// Associates a [DbKind] to each [DbName].
    pub fn kind(&self) -> (r: DbKind)
        ensures
            r == spec_kind(*self),
    {
        match self {
            DbName::PrimaryChainPublicEntries => DbKind::Single,
            DbName::PrimaryChainPrivateEntries => DbKind::Single,
            DbName::PrimaryChainHeaders => DbKind::Single,
            DbName::PrimaryMetadata => DbKind::Multi,
            DbName::PrimaryLinksMeta => DbKind::Single,
            DbName::ChainSequence => DbKind::SingleInt,
            DbName::CacheChainEntries => DbKind::Single,
            DbName::CacheChainHeaders => DbKind::Single,
            DbName::CacheMetadata => DbKind::Multi,
            DbName::CacheLinksMeta => DbKind::Single,
            DbName::ConductorState => DbKind::Single,
            DbName::Wasm => DbKind::Single,
            DbName::DnaDef => DbKind::Single,
            DbName::ValidationReceipts => DbKind::Multi,
        }
    }

    /// The name the database is registered under (its display form).
    pub fn to_string(&self) -> (r: String)
        ensures
            r@ == spec_name_str(*self),
    {
        let s: &str = match self {
            DbName::PrimaryChainPublicEntries => "PrimaryChainPublicEntries",
            DbName::PrimaryChainPrivateEntries => "PrimaryChainPrivateEntries",
            DbName::PrimaryChainHeaders => "PrimaryChainHeaders",
            DbName::PrimaryMetadata => "PrimaryMetadata",
            DbName::PrimaryLinksMeta => "PrimaryLinksMeta",
            DbName::ChainSequence => "ChainSequence",
            DbName::CacheChainEntries => "CacheChainEntries",
            DbName::CacheChainHeaders => "CacheChainHeaders",
            DbName::CacheMetadata => "CacheMetadata",
            DbName::CacheLinksMeta => "CacheLinksMeta",
            DbName::ConductorState => "ConductorState",
            DbName::Wasm => "Wasm",
            DbName::DnaDef => "DnaDef",
            DbName::ValidationReceipts => "ValidationReceipts",
        };
        s.to_string()
    }
}

/// The kinds of environment whose databases are registered together.
#[derive(Clone, Copy, Debug, PartialEq, Eq, Structural)]
pub enum EnvironmentKind {
    /// The environment of one cell: its source chain, metadata and cache.
    Cell,
    /// The conductor's own state.
    Conductor,
    /// Compiled wasm and DNA definitions.
    Wasm,
}

/// The databases an environment of `kind` registers, in order.
pub open spec fn spec_databases_for(kind: EnvironmentKind) -> Seq<DbName> {
    match kind {
        EnvironmentKind::Cell => seq![
            DbName::PrimaryChainPublicEntries,
            DbName::PrimaryChainPrivateEntries,
            DbName::PrimaryChainHeaders,
            DbName::PrimaryMetadata,
            DbName::PrimaryLinksMeta,
            DbName::ChainSequence,
            DbName::CacheChainEntries,
            DbName::CacheChainHeaders,
            DbName::CacheMetadata,
            DbName::CacheLinksMeta,
            DbName::ValidationReceipts,
        ],
        EnvironmentKind::Conductor => seq![DbName::ConductorState],
        EnvironmentKind::Wasm => seq![DbName::Wasm, DbName::DnaDef],
    }
}

/// The databases an environment of `kind` registers, in order.
pub fn databases_for(kind: EnvironmentKind) -> (r: Vec<DbName>)
    ensures
        r@ == spec_databases_for(kind),
{
    let r = match kind {
        EnvironmentKind::Cell => vec![
            DbName::PrimaryChainPublicEntries,
            DbName::PrimaryChainPrivateEntries,
            DbName::PrimaryChainHeaders,
            DbName::PrimaryMetadata,
            DbName::PrimaryLinksMeta,
            DbName::ChainSequence,
            DbName::CacheChainEntries,
            DbName::CacheChainHeaders,
            DbName::CacheMetadata,
            DbName::CacheLinksMeta,
            DbName::ValidationReceipts,
        ],
        EnvironmentKind::Conductor => vec![DbName::ConductorState],
        EnvironmentKind::Wasm => vec![DbName::Wasm, DbName::DnaDef],
    };
    proof {
        assert(r@ =~= spec_databases_for(kind));
    }
    r
}

impl DbName {
    /// Multi-value databases keep their values sorted (duplicate sort).
    pub fn sorts_duplicates(&self) -> (r: bool)
        ensures
            r == (spec_kind(*self) == DbKind::Multi),
    {
        match self.kind() {
            DbKind::Multi => true,
            _ => false,
        }
    }
}

} // verus!
