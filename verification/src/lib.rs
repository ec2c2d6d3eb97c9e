//! Building and querying a knowledge graph of code, API contracts, infrastructure and data.
//!
//! A repository is indexed plane by plane: the code and how its calls resolve, the contracts and
//! who produces and consumes them, the infrastructure and what it runs, the data and who reads and
//! writes it, and the documents and what they mention. Every edge carries how it was learned and a
//! confidence that lies in the band of that provenance. On top of the graph stand the questions:
//! what a change reaches and how risky it is, what a rename touches, how accurate the guesses are,
//! and how several repositories link up as one estate.
//!
//! All of it works on plain values. Reading files, running tools and keeping the graph are left to
//! the caller.
pub mod accuracy;
pub mod accuracy_laws;
pub mod analysis;
pub mod binary;
pub mod blast;
pub mod blast_laws;
pub mod changes;
pub mod changes_laws;
pub mod code_laws;
pub mod code_plane;
pub mod contract;
pub mod contract_laws;
pub mod data;
pub mod data_laws;
pub mod differential;
pub mod differential_laws;
pub mod docs_index;
pub mod estate;
pub mod estate_laws;
pub mod estate_link;
pub mod estate_marker;
pub mod graph_laws;
pub mod growth;
pub mod hashing;
pub mod index;
pub mod index_laws;
pub mod infra;
pub mod infra_laws;
pub mod json;
pub mod knowledge;
pub mod knowledge_laws;
pub mod lang;
pub mod manifest;
pub mod manifest_laws;
pub mod model;
pub mod module_fs;
pub mod order;
pub mod ordmap;
pub mod readings;
pub mod readings_laws;
pub mod rename;
pub mod rename_laws;
pub mod resolve_mode;
pub mod scip_merge;
pub mod rewriting_laws;
pub mod scip_laws;
pub mod stamp;
pub mod text;
pub mod text_laws;
pub mod tsconfig;
pub mod walk;
pub mod walk_laws;

pub use accuracy::{accuracy_report, AccuracyReport, Band, BandMetrics, ClassMetrics, ALL_BANDS};
pub use blast::{
    blast_for_file, blast_for_file_in_repo, detect_changes, detect_changes_in_repo, AffectedNode, BlastReport,
    BlastSymbol, ChangeReport, Risk, RiskLevel,
};
pub use changes::{ChangeKind, ChangeScope, ChangedSymbol, ChangesError, ContractChange, FileChange, Plane};
pub use code_plane::{
    assemble_graph, assemble_graph_with_scip, assemble_with_coverage, HeuristicClass, ResolutionCoverage,
};
pub use contract::{assemble_graph_with_contracts, build_contract_plane};
pub use data::{assemble_graph_with_data, build_data_plane, CodeOrmFile, CodeSqlFile, DataLinkCoverage};
pub use differential::{resolve_differential, resolve_differential_graph, SiteOutcome};
pub use estate::{index_estate, load_estate, EstateStats, RepoIndexResult};
pub use estate_link::{link_estate, EstateLinkCoverage, TierCounts};
pub use index::{resolve_context, IndexContext, IndexError, IndexStats};
pub use infra::{
    assemble_graph_with_infra, build_infra_plane, build_terragrunt_plane, InfraLinkCoverage, TerragruntCoverage,
};
pub use knowledge::{assemble_graph_with_knowledge, build_knowledge_plane, KnowledgeLinkCoverage};
pub use manifest::{resolve_api_id, ApiDecl, EstateError, RepoEntry, WorkspaceManifest, WorkspaceMeta};
pub use module_fs::{BTreeMapModuleFs, FsModuleFs};
pub use readings::MAX_INFRA_DIAGNOSTICS;
pub use rename::{rename, Candidate, Edit, RenameError, RenameOptions, RenameOutcome};
pub use resolve_mode::{IndexOptions, ResolveMode};
pub use stamp::{IndexStamp, STAMP_FILE};
