use glass::commands::Command;
use glass::commands::bag_key;
use glass::commands::edit_object_commands;
use glass::commands::index_key;
use glass::commands::insert_object_commands;
use glass::commands::page_window;
use glass::commands::remove_object_commands;
use glass::config::ConnectionSpec;
use glass::config::ConnectionTarget;
use glass::config::RedisConfig;
use glass::ident::Id;

fn example_id() -> Id {
    Id { value: 0x426497c2_1f94_4a75_889f_ecc04629da1d }
}

#[test]
fn test_key_layout() {
    assert_eq!(index_key("mods"), "mods-index");
    assert_eq!(
        bag_key("mods", &example_id()),
        "mods:426497c21f944a75889fecc04629da1d"
    );
}

#[test]
fn test_insert_commands() {
    let pairs = vec![
        ("name".to_owned(), "Example Mod".to_owned()),
        ("version".to_owned(), "0.1.0".to_owned()),
    ];
    let batch = insert_object_commands("mods", example_id(), 0, &pairs);
    assert_eq!(batch.len(), 3);
    assert_eq!(
        batch[0],
        Command::ZAdd {
            key: "mods-index".to_owned(),
            score: 1,
            member: "426497c21f944a75889fecc04629da1d".to_owned(),
        }
    );
    assert_eq!(
        batch[1],
        Command::HSet {
            key: "mods:426497c21f944a75889fecc04629da1d".to_owned(),
            field: "name".to_owned(),
            value: "Example Mod".to_owned(),
        }
    );
    assert_eq!(
        batch[2],
        Command::HSet {
            key: "mods:426497c21f944a75889fecc04629da1d".to_owned(),
            field: "version".to_owned(),
            value: "0.1.0".to_owned(),
        }
    );
}

#[test]
fn test_remove_commands() {
    let fields = vec!["name".to_owned(), "version".to_owned()];
    let batch = remove_object_commands("mods", example_id(), &fields);
    assert_eq!(batch.len(), 3);
    assert_eq!(
        batch[0],
        Command::ZRem {
            key: "mods-index".to_owned(),
            member: "426497c21f944a75889fecc04629da1d".to_owned(),
        }
    );
    assert_eq!(
        batch[1],
        Command::HDel {
            key: "mods:426497c21f944a75889fecc04629da1d".to_owned(),
            field: "name".to_owned(),
        }
    );
    assert_eq!(
        batch[2],
        Command::HDel {
            key: "mods:426497c21f944a75889fecc04629da1d".to_owned(),
            field: "version".to_owned(),
        }
    );
}

#[test]
fn test_edit_commands() {
    let changes = vec![("summary".to_owned(), "Updated".to_owned())];
    let batch = edit_object_commands("mods", example_id(), &changes);
    assert_eq!(batch.len(), 1);
    assert_eq!(
        batch[0],
        Command::HSet {
            key: "mods:426497c21f944a75889fecc04629da1d".to_owned(),
            field: "summary".to_owned(),
            value: "Updated".to_owned(),
        }
    );
}

#[test]
fn test_page_window() {
    assert_eq!(page_window(1), (0, 7));
    assert_eq!(page_window(2), (8, 15));
    assert_eq!(page_window(3), (16, 23));
}

#[test]
fn test_default_config() {
    let config = RedisConfig::default();
    assert_eq!(config.database_ip, Some("localhost".to_owned()));
    assert_eq!(config.database_port, Some(6379));
    assert_eq!(config.database_socket, None);
    assert_eq!(config.database_id, 0);
    assert_eq!(config.database_password, None);
}

#[test]
fn test_form_connection_defaults() {
    let config = RedisConfig {
        database_ip: None,
        database_port: None,
        database_socket: None,
        database_id: 0,
        database_password: None,
    };
    let spec: ConnectionSpec = config.form_connection();
    assert_eq!(
        spec.addr,
        ConnectionTarget::Tcp { host: "localhost".to_owned(), port: 6379 }
    );
    assert_eq!(spec.database, 0);
    assert_eq!(spec.password, None);
}

#[test]
fn test_form_connection_tcp() {
    let config = RedisConfig {
        database_ip: Some("127.0.0.1".to_owned()),
        database_port: Some(6380),
        database_socket: None,
        database_id: 2,
        database_password: Some("SECRET-REDACTED".to_owned()),
    };
    let spec = config.form_connection();
    assert_eq!(
        spec.addr,
        ConnectionTarget::Tcp { host: "127.0.0.1".to_owned(), port: 6380 }
    );
    assert_eq!(spec.database, 2);
    assert_eq!(spec.password, Some("SECRET-REDACTED".to_owned()));
}

#[test]
fn test_form_connection_socket() {
    // a socket, when set, wins over TCP
    let config = RedisConfig {
        database_ip: Some("127.0.0.1".to_owned()),
        database_port: Some(6379),
        database_socket: Some("/var/run/redis.sock".to_owned()),
        database_id: 0,
        database_password: None,
    };
    let spec = config.form_connection();
    assert_eq!(
        spec.addr,
        ConnectionTarget::Unix { path: "/var/run/redis.sock".to_owned() }
    );
}
