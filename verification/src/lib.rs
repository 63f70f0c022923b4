pub mod bytesutil;
pub mod digest;
pub mod errors;
pub mod lockfile;
pub mod paths;
pub mod resolver;
pub mod scanner;
pub mod table;

pub use digest::calculate_hash;
pub use errors::ClampError;
pub use lockfile::parse_lockfile;
pub use lockfile::serialize_lockfile;
pub use lockfile::LockfileData;
pub use paths::get_lockfile_path;
pub use paths::language_hint;
pub use resolver::render_output;
pub use resolver::resolve_template;
pub use resolver::FetchOutcome;
pub use resolver::ProcessResult;
pub use resolver::RenderBlock;
pub use scanner::directive_opener;
pub use scanner::scan_template;
pub use scanner::Directive;
pub use table::compare_hashes;
pub use table::ChangeSet;
pub use table::ChangeStatus;
pub use table::DigestTable;
