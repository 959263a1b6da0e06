use dog_bot::Args;

#[test]
fn args_default_paths() {
    let a = Args::default();
    assert_eq!(a.config, "config.json");
    assert_eq!(a.db, "sqlite.db");
}
