use argos::config::{load, AppConfig};

#[test]
fn stored_settings_are_used() {
    assert_eq!(load(Some(AppConfig { name: "Ann".to_string() })).name, "Ann");
    assert_eq!(load(None).name, "");
    assert_eq!(AppConfig::default().name, "");
}
