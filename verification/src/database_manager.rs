//! What the database manager decides. Opening, reading and writing databases is the caller's part.
use crate::types::{Hash256, Slot};
use vstd::prelude::*;
use vstd::string::*;

pub mod blobs;
pub mod inspect;

verus! {

/// What to report of the entries of a column.
#[derive(Clone, Copy, PartialEq, Eq, Structural, Debug)]
pub enum InspectTarget {
    /// The size of each value.
    ValueSizes,
    /// The size of all values together.
    ValueTotal,
    /// The values themselves, in files.
    Values,
    /// The gaps between numeric keys.
    Gaps,
}

/// The arguments of an inspection.
pub struct Inspect {
    pub column: String,
    pub output: InspectTarget,
    pub skip: Option<usize>,
    pub limit: Option<usize>,
    pub freezer: bool,
    pub blobs_db: bool,
    pub output_dir: Option<String>,
}

/// The arguments of a compaction.
pub struct Compact {
    pub column: String,
    pub freezer: bool,
    pub blobs_db: bool,
}

/// The arguments of a schema migration.
pub struct Migrate {
    pub to: u64,
}

/// The arguments of a pruning of states.
pub struct PruneStates {
    pub confirm: bool,
}

/// An inspection to be made.
pub struct InspectConfig {
    /// The name of the column.
    pub column: String,
    pub target: InspectTarget,
    pub skip: Option<usize>,
    pub limit: Option<usize>,
    pub freezer: bool,
    pub blobs_db: bool,
    /// Where values are written to.
    pub output_dir: String,
}

/// A compaction to be made.
pub struct CompactConfig {
    pub column: String,
    pub freezer: bool,
    pub blobs_db: bool,
}

/// A schema migration to be made.
pub struct MigrateConfig {
    pub to: u64,
}

/// A pruning of states to be made.
pub struct PruneStatesConfig {
    pub confirm: bool,
}

/// The database options that every operation shares.
pub struct DatabaseManager {
    pub freezer_dir: Option<String>,
    pub blobs_dir: Option<String>,
    pub blob_prune_margin_epochs: u64,
    pub hierarchy_exponents: Vec<u8>,
    /// The name of the database backend.
    pub backend: String,
}

/// The settings of a client that the database manager sets.
pub struct ClientConfig {
    pub data_dir: String,
    pub freezer_db_path: Option<String>,
    pub blobs_db_path: Option<String>,
    pub blob_prune_margin_epochs: u64,
    pub hierarchy_config: Vec<u8>,
    pub backend: String,
}

/// The settings of a client whose data is in `data_dir`, with the options given.
pub fn parse_client_config(data_dir: String, options: DatabaseManager) -> (r: Result<
    ClientConfig,
    String,
>)
    ensures
        r == Ok::<ClientConfig, String>(
            ClientConfig {
                data_dir,
                freezer_db_path: options.freezer_dir,
                blobs_db_path: options.blobs_dir,
                blob_prune_margin_epochs: options.blob_prune_margin_epochs,
                hierarchy_config: options.hierarchy_exponents,
                backend: options.backend,
            },
        ),
{
    Ok(
        ClientConfig {
            data_dir,
            freezer_db_path: options.freezer_dir,
            blobs_db_path: options.blobs_dir,
            blob_prune_margin_epochs: options.blob_prune_margin_epochs,
            hierarchy_config: options.hierarchy_exponents,
            backend: options.backend,
        },
    )
}

fn joined(prefix: &str, reason: &str) -> (r: String)
    ensures
        r@ == prefix@ + reason@,
{
    let mut text = prefix.to_owned();
    text.append(reason);
    text
}

/// The inspection that the arguments ask for. `column` is the name of the column that the argument
/// was parsed to, or why it could not be parsed.
pub fn parse_inspect_config(inspect: Inspect, column: Result<String, String>) -> (r: Result<
    InspectConfig,
    String,
>)
    ensures
        match column {
            Err(reason) => r matches Err(e) && e@ == "Unable to parse column flag: "@ + reason@,
            Ok(name) => r matches Ok(config) && config == (InspectConfig {
                column: name,
                target: inspect.output,
                skip: inspect.skip,
                limit: inspect.limit,
                freezer: inspect.freezer,
                blobs_db: inspect.blobs_db,
                output_dir: config.output_dir,
            }) && config.output_dir@ == (match inspect.output_dir {
                Some(dir) => dir@,
                None => Seq::empty(),
            }),
        },
{
    match column {
        Err(reason) => Err(joined("Unable to parse column flag: ", reason.as_str())),
        Ok(name) => {
            let output_dir = match inspect.output_dir {
                Some(dir) => dir,
                None => String::new(),
            };
            Ok(
                InspectConfig {
                    column: name,
                    target: inspect.output,
                    skip: inspect.skip,
                    limit: inspect.limit,
                    freezer: inspect.freezer,
                    blobs_db: inspect.blobs_db,
                    output_dir,
                },
            )
        },
    }
}

/// The compaction that the arguments ask for, of the column that the argument was parsed to.
pub fn parse_compact_config(compact: &Compact, column: String) -> (r: Result<CompactConfig, String>)
    ensures
        r == Ok::<CompactConfig, String>(
            CompactConfig { column, freezer: compact.freezer, blobs_db: compact.blobs_db },
        ),
{
    Ok(CompactConfig { column, freezer: compact.freezer, blobs_db: compact.blobs_db })
}

/// The migration that the arguments ask for.
pub fn parse_migrate_config(migrate_config: &Migrate) -> (r: Result<MigrateConfig, String>)
    ensures
        r == Ok::<MigrateConfig, String>(MigrateConfig { to: migrate_config.to }),
{
    Ok(MigrateConfig { to: migrate_config.to })
}

/// The pruning that the arguments ask for.
pub fn parse_prune_states_config(prune_states_config: &PruneStates) -> (r: Result<
    PruneStatesConfig,
    String,
>)
    ensures
        r == Ok::<PruneStatesConfig, String>(
            PruneStatesConfig { confirm: prune_states_config.confirm },
        ),
{
    Ok(PruneStatesConfig { confirm: prune_states_config.confirm })
}

/// One of the databases of a node.
#[derive(Clone, Copy, PartialEq, Eq, Structural, Debug)]
pub enum SubDb {
    Freezer,
    Blobs,
    Hot,
}

/// The database that an operation works on: the freezer flag goes before the blobs flag.
#[verifier::allow_in_spec]
pub fn choose_db(freezer: bool, blobs_db: bool) -> SubDb
    returns
        (if freezer {
            SubDb::Freezer
        } else if blobs_db {
            SubDb::Blobs
        } else {
            SubDb::Hot
        }),
{
    if freezer {
        SubDb::Freezer
    } else if blobs_db {
        SubDb::Blobs
    } else {
        SubDb::Hot
    }
}

impl SubDb {
    /// The name of the database in reports.
    pub fn name(&self) -> (r: &'static str)
        ensures
            r@ == (match *self {
                SubDb::Freezer => "freezer_db"@,
                SubDb::Blobs => "blobs_db"@,
                SubDb::Hot => "hot_db"@,
            }),
    {
        match *self {
            SubDb::Freezer => "freezer_db",
            SubDb::Blobs => "blobs_db",
            SubDb::Hot => "hot_db",
        }
    }

    /// The error of an inspection whose database could not be opened.
    pub fn open_error(&self, reason: &str) -> (r: String)
        ensures
            r@ == (match *self {
                SubDb::Freezer => "Unable to open freezer DB: "@,
                SubDb::Blobs => "Unable to open blobs DB: "@,
                SubDb::Hot => "Unable to open hot DB: "@,
            }) + reason@,
    {
        match *self {
            SubDb::Freezer => joined("Unable to open freezer DB: ", reason),
            SubDb::Blobs => joined("Unable to open blobs DB: ", reason),
            SubDb::Hot => joined("Unable to open hot DB: ", reason),
        }
    }
}

/// The schema version of a database: the one it was found with, or the current one where the
/// database needed no change to be opened.
#[verifier::allow_in_spec]
pub fn schema_version(found: Option<u64>, current: u64) -> u64
    returns
        (match found {
            Some(version) => version,
            None => current,
        }),
{
    match found {
        Some(version) => version,
        None => current,
    }
}

/// The schema version to report, and the current one where it is another.
pub fn display_db_version(found: Option<u64>, current: u64) -> (r: (u64, Option<u64>))
    ensures
        r.0 == schema_version(found, current),
        r.1 == (if r.0 != current {
            Some(current)
        } else {
            None
        }),
{
    let version: u64 = schema_version(found, current);
    if version != current {
        (version, Some(current))
    } else {
        (version, None)
    }
}

/// The schema versions to migrate from and to.
pub fn migration_versions(config: &MigrateConfig, found: Option<u64>, current: u64) -> (r: (u64, u64))
    ensures
        r == (schema_version(found, current), config.to),
{
    (schema_version(found, current), config.to)
}

/// What a pruning of states does.
#[derive(Clone, Copy, PartialEq, Eq, Structural, Debug)]
pub enum PruneDecision {
    /// Delete the historic states and store the genesis state again.
    Prune,
    /// There is nothing left to prune.
    AlreadyPruned,
}

/// Decides on a pruning of states. The genesis state in the database has to be that of the network,
/// and the user has to have confirmed, unless the states are pruned already.
pub fn prune_states(
    prune_config: &PruneStatesConfig,
    genesis_validators_root_in_db: Hash256,
    genesis_validators_root: Hash256,
    config_name: Option<&str>,
    full_state_pruning_enabled: bool,
) -> (r: Result<PruneDecision, String>)
    ensures
        if genesis_validators_root_in_db != genesis_validators_root {
            r matches Err(e) && e@ == "Error: Wrong network. Genesis state in DB does not match "@ + (
            match config_name {
                Some(name) => name@,
                None => "<unknown network>"@,
            }) + " genesis."@
        } else if prune_config.confirm {
            r == Ok::<PruneDecision, String>(PruneDecision::Prune)
        } else if full_state_pruning_enabled {
            r == Ok::<PruneDecision, String>(PruneDecision::AlreadyPruned)
        } else {
            r matches Err(e) && e@ == "Error: confirmation flag required"@
        },
{
    if genesis_validators_root_in_db != genesis_validators_root {
        let name = match config_name {
            Some(name) => name,
            None => "<unknown network>",
        };
        let mut text = joined("Error: Wrong network. Genesis state in DB does not match ", name);
        text.append(" genesis.");
        return Err(text);
    }
    if !prune_config.confirm {
        if full_state_pruning_enabled {
            return Ok(PruneDecision::AlreadyPruned);
        }
        return Err("Error: confirmation flag required".to_owned());
    }
    Ok(PruneDecision::Prune)
}

/// A step of a pruning of states that can fail.
#[derive(Clone, Copy, PartialEq, Eq, Structural, Debug)]
pub enum PruneStage {
    Open,
    ReadGenesis,
    ComputeRoot,
    Prune,
}

impl PruneStage {
    /// The error of a pruning whose step failed.
    pub fn error(&self, reason: &str) -> (r: String)
        ensures
            r@ == (match *self {
                PruneStage::Open => "Unable to open database: "@,
                PruneStage::ReadGenesis => "Error reading genesis state: "@,
                PruneStage::ComputeRoot => "Error computing genesis state root: "@,
                PruneStage::Prune => "Failed to prune due to error: "@,
            }) + reason@,
    {
        match *self {
            PruneStage::Open => joined("Unable to open database: ", reason),
            PruneStage::ReadGenesis => joined("Error reading genesis state: ", reason),
            PruneStage::ComputeRoot => joined("Error computing genesis state root: ", reason),
            PruneStage::Prune => joined("Failed to prune due to error: ", reason),
        }
    }
}

/// The operation that the command line names, with its arguments.
pub enum DatabaseManagerSubcommand {
    Migrate(Migrate),
    Inspect(Inspect),
    Version,
    PrunePayloads,
    PruneBlobs,
    PruneStates(PruneStates),
    Compact(Compact),
    SetOldestBlobSlot(Slot),
    InspectBlobs,
    /// The path of the database to import from.
    ImportBlobs(String),
}

/// An operation to be carried out.
pub enum Operation {
    Migrate(MigrateConfig),
    Inspect(InspectConfig),
    Version,
    PrunePayloads,
    PruneBlobs,
    PruneStates(PruneStatesConfig),
    Compact(CompactConfig),
    SetOldestBlobSlot(Slot),
    InspectBlobs,
    ImportBlobs(String),
}

/// Whether `op` is the operation that `subcommand` asks for, where its column argument was parsed to
/// the name `column`.
pub open spec fn asks_for(
    subcommand: DatabaseManagerSubcommand,
    column: Seq<char>,
    op: Operation,
) -> bool {
    match subcommand {
        DatabaseManagerSubcommand::Migrate(m) => op == Operation::Migrate(
            MigrateConfig { to: m.to },
        ),
        DatabaseManagerSubcommand::Inspect(i) => op matches Operation::Inspect(c) && c.column@ == column
            && c.target == i.output && c.skip == i.skip && c.limit == i.limit && c.freezer == i.freezer
            && c.blobs_db == i.blobs_db && c.output_dir@ == (match i.output_dir {
            Some(dir) => dir@,
            None => Seq::empty(),
        }),
        DatabaseManagerSubcommand::Version => op == Operation::Version,
        DatabaseManagerSubcommand::PrunePayloads => op == Operation::PrunePayloads,
        DatabaseManagerSubcommand::PruneBlobs => op == Operation::PruneBlobs,
        DatabaseManagerSubcommand::PruneStates(p) => op == Operation::PruneStates(
            PruneStatesConfig { confirm: p.confirm },
        ),
        DatabaseManagerSubcommand::Compact(c) => op matches Operation::Compact(d) && d.column@ == column
            && d.freezer == c.freezer && d.blobs_db == c.blobs_db,
        DatabaseManagerSubcommand::SetOldestBlobSlot(slot) => op == Operation::SetOldestBlobSlot(slot),
        DatabaseManagerSubcommand::InspectBlobs => op == Operation::InspectBlobs,
        DatabaseManagerSubcommand::ImportBlobs(path) => op == Operation::ImportBlobs(path),
    }
}

/// The operation to carry out. `column` is what the column argument was parsed to, or why it could
/// not be parsed; only an inspection and a compaction look at it, and a compaction needs it.
pub fn plan(subcommand: DatabaseManagerSubcommand, column: Result<String, String>) -> (r: Result<
    Operation,
    String,
>)
    requires
        subcommand is Compact ==> column is Ok,
    ensures
        match (subcommand, column) {
            (DatabaseManagerSubcommand::Inspect(_), Err(reason)) => r matches Err(e) && e@
                == "Unable to parse column flag: "@ + reason@,
            _ => r matches Ok(op) && asks_for(
                subcommand,
                match column {
                    Ok(name) => name@,
                    Err(_) => Seq::empty(),
                },
                op,
            ),
        },
{
    match subcommand {
        DatabaseManagerSubcommand::Migrate(args) => match parse_migrate_config(&args) {
            Ok(config) => Ok(Operation::Migrate(config)),
            Err(e) => Err(e),
        },
        DatabaseManagerSubcommand::Inspect(args) => match parse_inspect_config(args, column) {
            Ok(config) => Ok(Operation::Inspect(config)),
            Err(e) => Err(e),
        },
        DatabaseManagerSubcommand::Version => Ok(Operation::Version),
        DatabaseManagerSubcommand::PrunePayloads => Ok(Operation::PrunePayloads),
        DatabaseManagerSubcommand::PruneBlobs => Ok(Operation::PruneBlobs),
        DatabaseManagerSubcommand::PruneStates(args) => match parse_prune_states_config(&args) {
            Ok(config) => Ok(Operation::PruneStates(config)),
            Err(e) => Err(e),
        },
        DatabaseManagerSubcommand::Compact(args) => match column {
            Ok(name) => match parse_compact_config(&args, name) {
                Ok(config) => Ok(Operation::Compact(config)),
                Err(e) => Err(e),
            },
            Err(_) => vstd::pervasive::unreached(),
        },
        DatabaseManagerSubcommand::SetOldestBlobSlot(slot) => Ok(Operation::SetOldestBlobSlot(slot)),
        DatabaseManagerSubcommand::InspectBlobs => Ok(Operation::InspectBlobs),
        DatabaseManagerSubcommand::ImportBlobs(path) => Ok(Operation::ImportBlobs(path)),
    }
}

impl Operation {
    /// Whether the operation needs the genesis state of the network.
    pub fn needs_genesis_state(&self) -> (r: bool)
        ensures
            r == (self is Migrate || self is PruneStates),
    {
        match self {
            Operation::Migrate(_) => true,
            Operation::PruneStates(_) => true,
            _ => false,
        }
    }

    /// The error that the manager reports where the operation fails: an inspection and a pruning of
    /// states word their errors themselves.
    pub fn error(&self, reason: &str) -> (r: String)
        ensures
            r@ == (if self is Inspect || self is PruneStates {
                reason@
            } else {
                "Fatal error: "@ + reason@
            }),
    {
        match self {
            Operation::Inspect(_) => reason.to_owned(),
            Operation::PruneStates(_) => reason.to_owned(),
            _ => joined("Fatal error: ", reason),
        }
    }
}

/// The genesis state, from whether there is a network configuration and from what the request for
/// the state gave: nothing where the process is shutting down.
pub fn genesis_state<G>(
    has_network_config: bool,
    answer: Option<Result<Option<G>, String>>,
) -> (r: Result<G, String>)
    ensures
        if !has_network_config {
            r matches Err(e) && e@ == "Missing network config"@
        } else {
            match answer {
                None => r matches Err(e) && e@ == "Shutting down"@,
                Some(Err(reason)) => r matches Err(e) && e@ == "Error getting genesis state: "@ + reason@,
                Some(Ok(None)) => r matches Err(e) && e@ == "Genesis state missing"@,
                Some(Ok(Some(state))) => r == Ok::<G, String>(state),
            }
        },
{
    if !has_network_config {
        return Err("Missing network config".to_owned());
    }
    match answer {
        None => Err("Shutting down".to_owned()),
        Some(Err(reason)) => Err(joined("Error getting genesis state: ", reason.as_str())),
        Some(Ok(None)) => Err("Genesis state missing".to_owned()),
        Some(Ok(Some(state))) => Ok(state),
    }
}

/// The planned operation is of the kind that was asked for, and every argument reaches it.
pub proof fn law_arguments_reach_their_operation(
    subcommand: DatabaseManagerSubcommand,
    column: Seq<char>,
    op: Operation,
)
    requires
        asks_for(subcommand, column, op),
    ensures
        subcommand is Version <==> op is Version,
        subcommand is PrunePayloads <==> op is PrunePayloads,
        subcommand is PruneBlobs <==> op is PruneBlobs,
        subcommand is InspectBlobs <==> op is InspectBlobs,
        op matches Operation::Migrate(config) ==> (subcommand matches DatabaseManagerSubcommand::Migrate(
            args,
        ) && args.to == config.to),
        op matches Operation::PruneStates(config) ==> (
        subcommand matches DatabaseManagerSubcommand::PruneStates(args) && args.confirm
            == config.confirm),
        op matches Operation::SetOldestBlobSlot(slot) ==> subcommand
            == DatabaseManagerSubcommand::SetOldestBlobSlot(slot),
        op matches Operation::ImportBlobs(path) ==> subcommand == DatabaseManagerSubcommand::ImportBlobs(
            path,
        ),
        op matches Operation::Compact(config) ==> (subcommand matches DatabaseManagerSubcommand::Compact(
            args,
        ) && config.column@ == column && args.freezer == config.freezer && args.blobs_db
            == config.blobs_db),
        op matches Operation::Inspect(config) ==> (subcommand matches DatabaseManagerSubcommand::Inspect(
            args,
        ) && config.column@ == column && args.output == config.target && args.skip == config.skip
            && args.limit == config.limit && args.freezer == config.freezer && args.blobs_db
            == config.blobs_db && (args.output_dir matches Some(dir) ==> config.output_dir@ == dir@)),
{
}

} // verus!
