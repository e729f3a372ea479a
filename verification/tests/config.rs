use wallflower::config::{AppConfig, ConfigError, Theme};

#[test]
fn test_default_config() {
    let config = AppConfig::default();
    assert!(!config.endpoints.is_empty());
    assert_eq!(config.theme, Theme::System);
    assert_eq!(config.font_size, 17);
    assert_eq!(config.max_width, 680);
}

#[test]
fn test_config_validation() {
    let config = AppConfig::default();
    assert!(config.validate().is_ok());
}

#[test]
fn test_config_validation_no_endpoints() {
    let config = AppConfig {
        endpoints: vec![],
        ..Default::default()
    };
    assert!(matches!(config.validate(), Err(ConfigError::NoEndpoints)));
}

#[test]
fn test_config_validation_invalid_font_size() {
    let config = AppConfig {
        font_size: 50,
        ..Default::default()
    };
    assert!(matches!(config.validate(), Err(ConfigError::InvalidFontSize(_))));
}

#[test]
fn default_config_lists_the_mirror_alone() {
    let config = AppConfig::default();
    assert_eq!(config.endpoints, vec!["https://freedium-mirror.cfd/".to_string()]);
    assert_eq!(Theme::default(), Theme::System);
}

#[test]
fn font_size_bounds_are_inclusive() {
    for (size, ok) in [(9, false), (10, true), (32, true), (33, false)] {
        let config = AppConfig { font_size: size, ..Default::default() };
        assert_eq!(config.validate().is_ok(), ok, "font size {}", size);
    }
    let config = AppConfig { font_size: 9, ..Default::default() };
    assert!(matches!(config.validate(), Err(ConfigError::InvalidFontSize(9))));
}

#[test]
fn max_width_bounds_are_inclusive() {
    for (width, ok) in [(399, false), (400, true), (1200, true), (1201, false)] {
        let config = AppConfig { max_width: width, ..Default::default() };
        assert_eq!(config.validate().is_ok(), ok, "max width {}", width);
    }
    let config = AppConfig { max_width: 1201, ..Default::default() };
    assert!(matches!(config.validate(), Err(ConfigError::InvalidMaxWidth(1201))));
}

#[test]
fn endpoint_without_http_scheme_is_named() {
    let config = AppConfig {
        endpoints: vec![
            "https://ok.example/".to_string(),
            "ftp://bad.example/".to_string(),
            "also-bad".to_string(),
        ],
        ..Default::default()
    };
    match config.validate() {
        Err(ConfigError::InvalidEndpoint(e)) => assert_eq!(e, "ftp://bad.example/"),
        other => panic!("unexpected {:?}", other),
    }
    let config = AppConfig {
        endpoints: vec!["http://plain.example".to_string()],
        ..Default::default()
    };
    assert!(config.validate().is_ok());
}

#[test]
fn checks_come_in_order() {
    // No endpoints wins over a bad font size; a bad font size over a bad width.
    let config = AppConfig { endpoints: vec![], font_size: 1, max_width: 1, theme: Theme::Dark };
    assert!(matches!(config.validate(), Err(ConfigError::NoEndpoints)));
    let config = AppConfig { font_size: 1, max_width: 1, ..Default::default() };
    assert!(matches!(config.validate(), Err(ConfigError::InvalidFontSize(1))));
    let config = AppConfig {
        max_width: 1,
        endpoints: vec!["nope".to_string()],
        ..Default::default()
    };
    assert!(matches!(config.validate(), Err(ConfigError::InvalidMaxWidth(1))));
}
