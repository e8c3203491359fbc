use rustance::database::{
    config_path_under, database_dir_under, seed_migration_file, seed_migration_sql, DatabaseConfig,
};

#[test]
fn files_live_under_the_home_directory() {
    assert_eq!(database_dir_under("/home/ann"), "/home/ann/.rustance/database");
    assert_eq!(config_path_under("/home/ann"), "/home/ann/.rustance/config_manager.toml");
    let paths = DatabaseConfig::under("/home/ann");
    assert_eq!(paths.database, "/home/ann/.rustance/database/wallet.db");
    assert_eq!(paths.migrates, "/home/ann/.rustance/database/migrates");
}

#[test]
fn configuration_names_both_paths() {
    let paths = DatabaseConfig { database: "/d/wallet.db".to_string(), migrates: "/d/migrates".to_string() };
    assert_eq!(
        paths.to_config_text(),
        "[database_config]\ndatabase = \"/d/wallet.db\"\nmigrates = \"/d/migrates\""
    );
}

#[test]
fn seed_migration_makes_the_table_once() {
    let sql = seed_migration_sql();
    assert!(sql.starts_with("create table if not exists amount_record ("));
    for column in [
        "id INTEGER PRIMARY KEY AUTOINCREMENT",
        "amount INTEGER not null default 0",
        "in_or_out BOOLEAN not null",
        "append_msg TEXT not null",
        "created_at DATETIME not null",
        "updated_at DATETIME not null",
    ] {
        assert!(sql.contains(column), "{}", column);
    }
    assert!(sql.ends_with(");"));
    assert_eq!(seed_migration_file(), "20250311140451_init.sql");
}
