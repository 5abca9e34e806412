pub mod edit;
pub mod inlay_hints;
pub mod lookup;
pub mod module_name;
pub mod module_rename;
pub mod name_set;
pub mod navigation;
pub mod node;
pub mod refactor;
pub mod semantics;
pub mod source;
pub mod strings;
pub mod super_members;
pub mod syntax_outline;
pub mod text_size;
pub mod tokens;
