use ini::Ini;
use themistocle::{default_config, record_opened_file, set_kv, INI_FILE};

#[test]
fn default_config_holds_encoding() {
    let conf = default_config();
    assert_eq!(conf.get_from(Some("Encodage"), "encoding"), Some("utf-8"));
    assert_eq!(conf.sections().count(), 1);
}

#[test]
fn set_kv_then_read_back() {
    let mut conf = Ini::new();
    set_kv(&mut conf, "S".to_string(), "k".to_string(), "v1".to_string());
    assert_eq!(conf.get_from(Some("S"), "k"), Some("v1"));
    set_kv(&mut conf, "S".to_string(), "k".to_string(), "v2".to_string());
    assert_eq!(conf.get_from(Some("S"), "k"), Some("v2"));
    set_kv(&mut conf, "T".to_string(), "k".to_string(), "w".to_string());
    assert_eq!(conf.get_from(Some("S"), "k"), Some("v2"));
    assert_eq!(conf.get_from(Some("T"), "k"), Some("w"));
}

#[test]
fn record_opened_file_keeps_other_settings() {
    let mut conf = default_config();
    record_opened_file(&mut conf, "/tmp/capture.pcap".to_string());
    assert_eq!(conf.get_from(Some("Fichier"), "file_name"), Some("/tmp/capture.pcap"));
    assert_eq!(conf.get_from(Some("Encodage"), "encoding"), Some("utf-8"));
}

#[test]
fn ini_file_new_builds() {
    let _file = INI_FILE::new();
}
