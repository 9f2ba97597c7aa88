use rumba::config::{
    decode_password, default_compression_level, default_db_path, default_output_mode, default_rustltfs_path,
    default_tape_path, encode_password, BackupConfig, Config, ConfigError, PasswordError, SourceConfig,
    TargetConfig,
};

fn config(url: &str, user: &str, pass: &str, mode: &str, level: i32, threads: usize) -> Config {
    Config {
        source: SourceConfig { url: url.to_string(), username: user.to_string(), password: pass.to_string() },
        target: TargetConfig {
            output_mode: mode.to_string(),
            rustltfs_path: default_rustltfs_path(),
            tape_path: "tape.tar".to_string(),
            db_path: "db.redb".to_string(),
        },
        backup: BackupConfig { parallel_threads: threads, compression_level: level },
    }
}

#[test]
fn test_password_encoding() {
    let password = "N@hegogiqp1";
    let encoded = encode_password(password);
    assert!(encoded.starts_with("base64:"));

    let decoded = decode_password(&encoded).unwrap();
    assert_eq!(decoded, password);
}

#[test]
fn test_password_plain() {
    let password = "plain_password";
    let decoded = decode_password(password).unwrap();
    assert_eq!(decoded, password);
}

#[test]
fn test_config_validation() {
    let config = Config {
        source: SourceConfig {
            url: "\\\\server\\share".to_string(),
            username: "user".to_string(),
            password: "pass".to_string(),
        },
        target: TargetConfig {
            output_mode: default_output_mode(),
            rustltfs_path: default_rustltfs_path(),
            tape_path: "tape.tar".to_string(),
            db_path: "db.redb".to_string(),
        },
        backup: BackupConfig { parallel_threads: 4, compression_level: 3 },
    };

    assert!(config.validate().is_ok());
}

#[test]
fn test_config_validation_empty_url() {
    let config = Config {
        source: SourceConfig { url: "".to_string(), username: "user".to_string(), password: "pass".to_string() },
        target: TargetConfig {
            output_mode: default_output_mode(),
            rustltfs_path: default_rustltfs_path(),
            tape_path: "tape.tar".to_string(),
            db_path: "db.redb".to_string(),
        },
        backup: BackupConfig::default(),
    };

    assert!(config.validate().is_err());
}

#[test]
fn password_encoding_is_standard_base64() {
    assert_eq!(encode_password("pass"), "base64:cGFzcw==");
    assert_eq!(decode_password("base64:cGFzcw==").unwrap(), "pass");
}

#[test]
fn password_with_bad_base64_is_refused() {
    assert_eq!(decode_password("base64:!!!"), Err(PasswordError::InvalidBase64));
}

#[test]
fn password_decoding_to_bad_utf8_is_refused() {
    // "/w==" decodes to the single byte 0xFF.
    assert_eq!(decode_password("base64:/w=="), Err(PasswordError::NotUtf8));
}

#[test]
fn each_config_rule_has_its_error() {
    assert_eq!(config("", "u", "p", "tar", 3, 1).validate(), Err(ConfigError::EmptyUrl));
    assert_eq!(config("s", "", "p", "tar", 3, 1).validate(), Err(ConfigError::EmptyUsername));
    assert_eq!(config("s", "u", "", "tar", 3, 1).validate(), Err(ConfigError::EmptyPassword));
    assert_eq!(config("s", "u", "p", "zip", 3, 1).validate(), Err(ConfigError::InvalidOutputMode));
    assert_eq!(config("s", "u", "p", "tar", 23, 1).validate(), Err(ConfigError::CompressionLevelOutOfRange));
    assert_eq!(config("s", "u", "p", "tar", -1, 1).validate(), Err(ConfigError::CompressionLevelOutOfRange));
    assert_eq!(config("s", "u", "p", "tar", 3, 0).validate(), Err(ConfigError::NoParallelThreads));
    assert_eq!(config("s", "u", "p", "rustltfs", 0, 1).validate(), Ok(()));
    assert_eq!(config("s", "u", "p", "tar", 22, 8).validate(), Ok(()));
}

#[test]
fn defaults() {
    assert_eq!(default_output_mode(), "rustltfs");
    assert_eq!(default_rustltfs_path(), "rustltfs");
    assert_eq!(default_tape_path(), "tape_drive.tar");
    assert_eq!(default_db_path(), "backup_meta.redb");
    assert_eq!(default_compression_level(), 3);
    assert_eq!(BackupConfig::default().compression_level, 3);
}

#[test]
fn backup_root_is_the_share_location() {
    let c = config("\\\\server\\share", "u", "p", "tar", 3, 1);
    assert_eq!(c.get_backup_root(), "\\\\server\\share");
}
