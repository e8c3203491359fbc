//! Where the ledger keeps its files under the user's home directory, and
//! the text of the two files that the first run writes: the configuration
//! and the migration that makes the table.

use vstd::prelude::*;

verus! {

/// The paths of the database.
#[derive(Debug, PartialEq, Eq)]
pub struct DatabaseConfig {
    /// The path of the database file.
    pub database: String,
    /// The path of the directory of migrations.
    pub migrates: String,
}

/// The directory of the database, under the home directory `home`.
pub open spec fn database_dir(home: Seq<char>) -> Seq<char> {
    home + "/.rustance/database"@
}

/// The path of the configuration file.
pub open spec fn config_path(home: Seq<char>) -> Seq<char> {
    home + "/.rustance/config_manager.toml"@
}

/// The path of the database file.
pub open spec fn database_path(home: Seq<char>) -> Seq<char> {
    home + "/.rustance/database/wallet.db"@
}

/// The path of the directory of migrations.
pub open spec fn migrates_path(home: Seq<char>) -> Seq<char> {
    home + "/.rustance/database/migrates"@
}

/// The file name of the migration that makes the table. Migrations run in
/// the order of the instants that their names begin with.
pub open spec fn seed_migration_name() -> Seq<char> {
    "20250311140451_init.sql"@
}

/// The migration that makes the table of records, unless it is there:
/// the amount in whole cents, the direction as a flag, and both instants
/// as text.
pub open spec fn seed_migration() -> Seq<char> {
    "create table if not exists amount_record (
    id INTEGER PRIMARY KEY AUTOINCREMENT,
    amount INTEGER not null default 0,
    in_or_out BOOLEAN not null,
    append_msg TEXT not null,
    created_at DATETIME not null default CURRENT_TIMESTAMP,
    updated_at DATETIME not null default CURRENT_TIMESTAMP
);"@
}

/// The text of the configuration file that names the paths `paths`.
pub open spec fn config_text(paths: DatabaseConfig) -> Seq<char> {
    "[database_config]\ndatabase = \""@ + paths.database@ + "\"\nmigrates = \""@ + paths.migrates@
        + "\""@
}

/// The directory of the database under `home`.
pub fn database_dir_under(home: &str) -> (path: String)
    ensures
        path@ == database_dir(home@),
{
    String::from_str(home).concat("/.rustance/database")
}

/// The path of the configuration file under `home`.
pub fn config_path_under(home: &str) -> (path: String)
    ensures
        path@ == config_path(home@),
{
    String::from_str(home).concat("/.rustance/config_manager.toml")
}

/// The file name of the migration that makes the table.
pub fn seed_migration_file() -> (name: String)
    ensures
        name@ == seed_migration_name(),
{
    String::from_str("20250311140451_init.sql")
}

/// The migration that makes the table of records.
pub fn seed_migration_sql() -> (sql: String)
    ensures
        sql@ == seed_migration(),
{
    String::from_str(
        "create table if not exists amount_record (
    id INTEGER PRIMARY KEY AUTOINCREMENT,
    amount INTEGER not null default 0,
    in_or_out BOOLEAN not null,
    append_msg TEXT not null,
    created_at DATETIME not null default CURRENT_TIMESTAMP,
    updated_at DATETIME not null default CURRENT_TIMESTAMP
);",
    )
}

impl DatabaseConfig {
    /// The paths that the first run sets up under the home directory
    /// `home`.
    pub fn under(home: &str) -> (paths: DatabaseConfig)
        ensures
            paths.database@ == database_path(home@),
            paths.migrates@ == migrates_path(home@),
    {
        DatabaseConfig {
            database: String::from_str(home).concat("/.rustance/database/wallet.db"),
            migrates: String::from_str(home).concat("/.rustance/database/migrates"),
        }
    }

    /// The text of the configuration file that names these paths.
    pub fn to_config_text(&self) -> (text: String)
        ensures
            text@ == config_text(*self),
    {
        let mut text = String::from_str("[database_config]\ndatabase = \"");
        text.append(self.database.as_str());
        text.append("\"\nmigrates = \"");
        text.append(self.migrates.as_str());
        text.append("\"");
        text
    }
}

} // verus!
