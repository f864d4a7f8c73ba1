//! Tests of configuration validation and error messages.

use boxkv::config::server::{ServerConfig, ServerConfigError};
use boxkv::config::storage::{StorageConfig, StorageConfigError};
use boxkv::config::{Config, ConfigError};

#[test]
fn server_test_default_values() {
    let config = ServerConfig::default();
    assert_eq!(config.host, "127.0.0.1");
    assert_eq!(config.port, 21524);
}

#[test]
fn test_valid_ipv4_addresses() {
    let valid_ips = vec![
        "127.0.0.1",
        "0.0.0.0",
        "192.168.1.1",
        "255.255.255.255",
        "10.0.0.1",
    ];

    for ip in valid_ips {
        let config = ServerConfig {
            host: ip.to_string(),
            port: 8080,
        };
        assert!(config.validate().is_ok(), "IP {} should be valid", ip);
    }
}

#[test]
fn test_valid_ipv6_addresses() {
    let valid_ips = vec![
        "::1",
        "fe80::1",
        "2001:db8::1",
        "::ffff:192.0.2.1",
        "2001:0db8:0000:0000:0000:0000:0000:0001",
    ];

    for ip in valid_ips {
        let config = ServerConfig {
            host: ip.to_string(),
            port: 8080,
        };
        assert!(config.validate().is_ok(), "IP {} should be valid", ip);
    }
}

#[test]
fn test_invalid_host() {
    let invalid_hosts = vec![
        "localhost",
        "example.com",
        "256.1.1.1",
        "192.168.1",
        "not-an-ip",
        "",
        "192.168.1.1.1",
    ];

    for host in invalid_hosts {
        let config = ServerConfig {
            host: host.to_string(),
            port: 8080,
        };
        let result = config.validate();
        assert!(result.is_err(), "Host {} should be invalid", host);
        match result.unwrap_err() {
            ServerConfigError::InvalidHost { host: h } => {
                assert_eq!(h, host);
            }
            _ => panic!("Expected InvalidHost error for {}", host),
        }
    }
}

#[test]
fn test_more_ip_literals() {
    let valid = vec![
        "::",
        "1:2:3:4:5:6:7:8",
        "1:2:3:4:5:6:1.2.3.4",
        "a:b::c:d",
        "1:2:3:4:5:6:7::",
    ];
    for ip in valid {
        let config = ServerConfig {
            host: ip.to_string(),
            port: 8080,
        };
        assert!(config.validate().is_ok(), "IP {} should be valid", ip);
    }
    let invalid = vec![
        ":",
        ":::",
        "1::2::3",
        "1:2:3:4:5:6:7:8:9",
        "12345::",
        "1.2.3.04",
        "01.2.3.4",
        "1.2.3.4.",
        ".1.2.3.4",
        "1:2:3:4:5:6:7",
        "1:2:3:4:5:6:7:8::",
        "::1:2:3:4:5:6:7:8",
        "fe80::1%eth0",
    ];
    for ip in invalid {
        let config = ServerConfig {
            host: ip.to_string(),
            port: 8080,
        };
        assert!(config.validate().is_err(), "Host {} should be invalid", ip);
    }
}

#[test]
fn test_valid_ports() {
    let valid_ports = vec![1, 80, 443, 8080, 21524, 65535];

    for port in valid_ports {
        let config = ServerConfig {
            host: "127.0.0.1".to_string(),
            port,
        };
        assert!(config.validate().is_ok(), "Port {} should be valid", port);
    }
}

#[test]
fn test_invalid_port_zero() {
    let config = ServerConfig {
        host: "127.0.0.1".to_string(),
        port: 0,
    };
    let result = config.validate();
    assert!(result.is_err());
    match result.unwrap_err() {
        ServerConfigError::InvalidPort { port } => {
            assert_eq!(port, 0);
        }
        _ => panic!("Expected InvalidPort error"),
    }
}

#[test]
fn test_combined_validation_success() {
    let config = ServerConfig {
        host: "192.168.1.100".to_string(),
        port: 3000,
    };
    assert!(config.validate().is_ok());
}

#[test]
fn test_combined_validation_fail_host() {
    let config = ServerConfig {
        host: "invalid-host".to_string(),
        port: 3000,
    };
    assert!(config.validate().is_err());
}

#[test]
fn test_combined_validation_fail_port() {
    let config = ServerConfig {
        host: "127.0.0.1".to_string(),
        port: 0,
    };
    assert!(config.validate().is_err());
}

#[test]
fn storage_test_default_values() {
    let config = StorageConfig::default();
    assert_eq!(config.data_dir, "./data");
    assert_eq!(config.memtable_size_mb, 4);
}

#[test]
fn storage_test_valid_memtable_size() {
    let config = StorageConfig {
        data_dir: "./data".to_string(),
        memtable_size_mb: 64,
    };
    let result = config.validate();
    assert!(result.is_ok(), "Validation failed: {:?}", result.err());
}

#[test]
fn storage_test_invalid_memtable_size_zero() {
    let config = StorageConfig {
        data_dir: "./data".to_string(),
        memtable_size_mb: 0,
    };
    let result = config.validate();
    assert!(result.is_err());
    match result.unwrap_err() {
        StorageConfigError::InvalidMemtableSize { size } => {
            assert_eq!(size, 0);
        }
        _ => panic!("Expected InvalidMemtableSize error"),
    }
}

#[test]
fn storage_test_invalid_memtable_size_too_large() {
    let config = StorageConfig {
        data_dir: "./data".to_string(),
        memtable_size_mb: 2048,
    };
    let result = config.validate();
    assert!(result.is_err(), "Expected error for size 2048, but got Ok");
    match result.unwrap_err() {
        StorageConfigError::InvalidMemtableSize { size } => {
            assert_eq!(size, 2048);
        }
        e => panic!("Expected InvalidMemtableSize error, got: {:?}", e),
    }
}

#[test]
fn storage_test_memtable_size_boundary_values() {
    let config = StorageConfig {
        data_dir: "./data".to_string(),
        memtable_size_mb: 1,
    };
    assert!(config.validate().is_ok(), "Size 1 should be valid");

    let config = StorageConfig {
        data_dir: "./data".to_string(),
        memtable_size_mb: 1024,
    };
    assert!(config.validate().is_ok(), "Size 1024 should be valid");

    let config = StorageConfig {
        data_dir: "./data".to_string(),
        memtable_size_mb: 0,
    };
    assert!(config.validate().is_err(), "Size 0 should be invalid");

    let config = StorageConfig {
        data_dir: "./data".to_string(),
        memtable_size_mb: 1025,
    };
    assert!(config.validate().is_err(), "Size 1025 should be invalid");
}

#[test]
fn storage_test_error_display() {
    let err = StorageConfigError::InvalidMemtableSize { size: 0 };
    let msg = err.message();
    assert!(msg.contains("Invalid memtable size"));
    assert!(msg.contains("0"));

    let err = StorageConfigError::DirNotWritable {
        path: "/invalid/path".to_string(),
        error: "test".to_string(),
    };
    let msg = err.message();
    assert!(msg.contains("Directory not writable"));
    assert!(msg.contains("/invalid/path"));
}

#[test]
fn config_test_config_error_display() {
    let err = ConfigError::FileNotFound {
        path: "/path/to/config.toml".to_string(),
    };
    let msg = err.message();
    assert!(msg.contains("Config file not found"));
    assert!(msg.contains("/path/to/config.toml"));

    let err = ConfigError::ParseError("test error".to_string());
    let msg = err.message();
    assert!(msg.contains("Failed to parse config"));
}

#[test]
fn test_config_validate_both_sections() {
    let ok = Config {
        storage: StorageConfig {
            data_dir: "./data".to_string(),
            memtable_size_mb: 8,
        },
        server: ServerConfig {
            host: "0.0.0.0".to_string(),
            port: 9000,
        },
    };
    assert!(ok.validate().is_ok());

    let bad_storage = Config {
        storage: StorageConfig {
            data_dir: "./data".to_string(),
            memtable_size_mb: 0,
        },
        server: ServerConfig {
            host: "0.0.0.0".to_string(),
            port: 9000,
        },
    };
    assert!(matches!(bad_storage.validate(), Err(ConfigError::Storage(_))));

    let bad_server = Config {
        storage: StorageConfig {
            data_dir: "./data".to_string(),
            memtable_size_mb: 8,
        },
        server: ServerConfig {
            host: "nowhere".to_string(),
            port: 9000,
        },
    };
    assert!(matches!(bad_server.validate(), Err(ConfigError::Server(_))));

    let err = ServerConfigError::InvalidPort { port: 0 };
    assert!(err.message().contains("Invalid port: 0"));
    let err = ServerConfigError::InvalidHost {
        host: "nowhere".to_string(),
    };
    assert!(err.message().contains("Invalid host: nowhere"));
}
