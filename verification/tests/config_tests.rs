use quail::util::config::{ConfigFormat, ConfigUtils};

// config.ini content
// debug = false
// port = 3223
// host = "0.0.0.0"
#[test]
fn test_config_init() {
    let config = ConfigUtils::init("debug = false\nport = 3223\nhost = \"0.0.0.0\"\n", ConfigFormat::Ini).unwrap();
    println!("{}", config.get("port"));
    assert_eq!(config.get("port"), "3223");
}

#[test]
fn config_lookups() {
    let config = ConfigUtils::from_ini("debug = false\nport = 3223\nhost = \"0.0.0.0\"\n").unwrap();
    assert_eq!(config.try_get("host"), Some("0.0.0.0".to_string()));
    assert_eq!(config.try_get("missing"), None);
    assert_eq!(config.get_int("port"), 3223);
    assert_eq!(config.try_get_int("port"), Some(3223));
    assert_eq!(config.try_get_int("host"), None);
}

#[test]
fn yaml_settings_are_read() {
    let config = ConfigUtils::init("server_addr: 127.0.0.1\nserver_port: 3223\n", ConfigFormat::Yaml).unwrap();
    assert_eq!(config.get("server_addr"), "127.0.0.1");
    assert_eq!(config.get_int("server_port"), 3223);
    assert!(ConfigUtils::init("[unclosed", ConfigFormat::Toml).is_none());
}
