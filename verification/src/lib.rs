//! Resolving and applying updates for a set of installable components
//! against a catalog of available versions. A persisted ledger records
//! what is installed; a resolver run plans the stale part of a request
//! together with its stale dependencies, installs each planned
//! component from its archive, and merges the new records over the
//! ledger. A grouping view orders the catalog for display.

pub mod fetch;
pub mod grouping;
pub mod install;
pub mod model;
pub mod naming;
pub mod resolve;

pub use fetch::download;
pub use grouping::GroupBox;
pub use grouping::grouped;
pub use install::install_mods;
pub use install::install_no_deps;
pub use naming::mangle_name;
pub use resolve::plan_installs;

pub use model::Group;
pub use model::InstallData;
pub use model::InstallDatas;
pub use model::InstallError;
pub use model::InstallEvent;
pub use model::ModInfo;
pub use model::SavedState;
