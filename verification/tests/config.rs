use just_enough_vcs::config::{config_format, ext_fmt, ConfigFormat};

#[test]
fn extension_names_format() {
    assert_eq!(ext_fmt("yaml"), ConfigFormat::Yaml);
    assert_eq!(ext_fmt("yml"), ConfigFormat::Yaml);
    assert_eq!(ext_fmt("toml"), ConfigFormat::Toml);
    assert_eq!(ext_fmt("tml"), ConfigFormat::Toml);
    assert_eq!(ext_fmt("json"), ConfigFormat::Json);
    assert_eq!(ext_fmt("txt"), ConfigFormat::Json);
    assert_eq!(ext_fmt(""), ConfigFormat::Json);
    assert_eq!(ext_fmt("YAML"), ConfigFormat::Json);
}

#[test]
fn extension_is_read_in_lowercase() {
    assert_eq!(config_format("YAML"), ConfigFormat::Yaml);
    assert_eq!(config_format("Yml"), ConfigFormat::Yaml);
    assert_eq!(config_format("TOML"), ConfigFormat::Toml);
    assert_eq!(config_format("Json"), ConfigFormat::Json);
    assert_eq!(config_format("conf"), ConfigFormat::Json);
}
