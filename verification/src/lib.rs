//! A small persisted key-value store.
//!
//! A single text file maps string keys to string values, one `key<TAB>value`
//! line per entry. The [`database`] module parses and serializes that format
//! and holds the in-memory mapping; the [`kvstore`] module decides, for one
//! command-line invocation, which operation runs and what text it produces;
//! the [`cli`] module splits raw arguments into positionals and flags.
//! Reading and writing the file itself, and reading the process environment,
//! are left to the embedding program.
use vstd::prelude::*;

pub mod cli;
pub mod database;
pub mod kvstore;
pub mod text;

verus! {

/// The version string that a `--version` invocation emits.
pub open spec fn version_text() -> Seq<char> {
    "kvstore 0.1.0"@
}

/// The usage text that a `--help` invocation (or one without a key) emits.
pub open spec fn usage_text() -> Seq<char> {
    "\
kvstore is a key-value keeper.

Usage:
    kvstore [<key>] [<value>] [flags]

Args:
    <key>       label to identify data
    <value>     data to store behind a label

Flags:
    --init      list pairs in exporting environment format to stdout 
    --append    add additional <value> to existing value behind given <key>
    --version   print the current version
    --help      print help information

More:
    Enter only a <key> to view its value. To view all values, pass '.'.

    kvstore's database is a 'kv.db' file located where the program is ran
    unless the environment variable KVSTORE_HOME is set to an existing 
    directory."@
}

/// The version string, as printed.
pub fn version() -> (r: &'static str)
    ensures
        r@ == version_text(),
{
    "kvstore 0.1.0"
}

/// The usage text, as printed.
pub fn usage() -> (r: &'static str)
    ensures
        r@ == usage_text(),
{
    "\
kvstore is a key-value keeper.

Usage:
    kvstore [<key>] [<value>] [flags]

Args:
    <key>       label to identify data
    <value>     data to store behind a label

Flags:
    --init      list pairs in exporting environment format to stdout 
    --append    add additional <value> to existing value behind given <key>
    --version   print the current version
    --help      print help information

More:
    Enter only a <key> to view its value. To view all values, pass '.'.

    kvstore's database is a 'kv.db' file located where the program is ran
    unless the environment variable KVSTORE_HOME is set to an existing 
    directory."
}

} // verus!
