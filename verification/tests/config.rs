use idhash::config::IdHashConfigBuilder;

#[test]
fn build_defaults() {
    let config = IdHashConfigBuilder::new().build();
    assert_eq!(config.digits, 7);
    assert_eq!(config.characters, 128);
    assert_eq!(config.truncation, 128);
}

#[test]
fn build_from_default_trait() {
    let config = IdHashConfigBuilder::default().build();
    assert_eq!(config.digits, 7);
    assert_eq!(config.characters, 128);
    assert_eq!(config.truncation, 128);
}

#[test]
fn build_with_choices() {
    let config = IdHashConfigBuilder::new().digits(3).characters(16).truncation(64).build();
    assert_eq!(config.digits, 3);
    assert_eq!(config.characters, 16);
    assert_eq!(config.truncation, 64);
}

#[test]
fn build_keeps_other_defaults() {
    let config = IdHashConfigBuilder::new().digits(2).build();
    assert_eq!(config.digits, 2);
    assert_eq!(config.characters, 128);
    assert_eq!(config.truncation, 128);
}
