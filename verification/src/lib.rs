//! A shell and its commands.
//!
//! A command runs in an [`env::Environment`]: standard streams that are texts, a filesystem, the
//! variables of the shell, the environment, arguments, a working directory and a seed for random
//! choices. It is run by its function `bin`, and its contract says exactly what it writes, what it
//! asks of the filesystem and which exit code it ends with, as a function of that environment. So a
//! command does the same each time it runs in the same environment.
//!
//! - [`env`], [`fs`], [`vars`]: what commands run in.
//! - [`host`]: what they have from whoever runs the shell.
//! - [`text`], [`paths`], [`size`], [`order`], [`options`], [`pattern`], [`number`], [`quoting`]:
//!   what they share.
//! - [`syntax`], [`builtins`], [`sh`]: command lines, the commands by name, and the shell.
//! - All other modules are a command each.
//!
//! What outside crates compute (options by `getopts`, regular expressions by `regex`, words and
//! variables of a command line by `shvar`, random order by `rand`, parts of paths by `utf8path`)
//! stands behind functions whose contracts are not proved; each says in its comment what it claims.

pub mod base64;
pub mod builtins;
pub mod cat;
pub mod comm;
pub mod du;
pub mod echo;
pub mod env;
pub mod fs;
pub mod grep;
pub mod head;
pub mod host;
pub mod inspect_fs;
pub mod ln;
pub mod markdownsp;
pub mod mkdir;
pub mod mktemp;
pub mod nl;
pub mod number;
pub mod options;
pub mod order;
pub mod paths;
pub mod pattern;
pub mod quoting;
pub mod readlink;
pub mod rm;
pub mod rmdir;
pub mod sh;
pub mod shuf;
pub mod size;
pub mod sort;
pub mod split;
pub mod syntax;
pub mod text;
pub mod vars;
