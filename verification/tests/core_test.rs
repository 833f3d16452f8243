use stric::add;
use stric::connection::{ConnectionContext, ConnectionManager, ConnectionManagerError, DEFAULT_IDLE_TIMEOUT_NANOS};
use stric::keep_alive::{choose_worker, is_underloaded, ping_due, settle_ping_round, worker_has_capacity, WorkerRoster};
use stric::named_table::NamedTable;
use stric::server;

#[test]
fn it_works() {
    let result = add(2, 2);
    assert_eq!(result, 4);
}

#[test]
fn test_connection_manager_flags() {
    let default = ConnectionContext { initiator_bi: true, ..ConnectionContext::default() };
    let mut manager: ConnectionManager<&str> = ConnectionManager::new(default, 4, None);
    assert_eq!(manager.keep_alive_interval_nanos(), DEFAULT_IDLE_TIMEOUT_NANOS / 2);

    let ctx = manager.initial_context(7);
    assert_eq!(ctx, ConnectionContext { id: 7, initiator_bi: true, ..ConnectionContext::default() });
    manager.add_connection(ctx, "conn-7");
    assert!(manager.contains(7));
    assert_eq!(manager.get_handle(7), Ok(&"conn-7"));

    assert_eq!(manager.set_responder_uni(7, true), Ok(()));
    assert_eq!(manager.set_initiator_bi(7, false), Ok(()));
    assert_eq!(manager.set_keep_alive(7, true), Ok(()));
    let ctx = manager.get_context(7).unwrap();
    assert!(ctx.responder_uni && ctx.keep_alive && !ctx.initiator_bi && !ctx.initiator_uni && !ctx.responder_bi);

    assert_eq!(manager.set_initiator_uni(8, true), Err(ConnectionManagerError::IdNotFound(8)));
    assert_eq!(manager.set_responder_bi(8, true), Err(ConnectionManagerError::IdNotFound(8)));
    assert_eq!(manager.get_context(8), Err(ConnectionManagerError::IdNotFound(8)));
    assert!(!manager.contains(8));
}

#[test]
fn test_connection_manager_idle_timeout() {
    let manager: ConnectionManager<()> = ConnectionManager::new(ConnectionContext::default(), 0, Some(10));
    assert_eq!(manager.keep_alive_interval_nanos(), 5);
}

#[test]
fn test_server_connection_manager() {
    let mut manager: server::ConnectionManager<u8> = server::ConnectionManager::new(server::ConnectionContext::default());
    let ctx = manager.initial_context(3);
    manager.add_connection(ctx, 9);
    assert_eq!(manager.set_client_uni(3, true), Ok(()));
    assert_eq!(manager.set_server_bi(3, true), Ok(()));
    let ctx = manager.get_context(3).unwrap();
    assert!(ctx.client_uni && ctx.server_bi && !ctx.client_bi && !ctx.server_uni);
    assert_eq!(manager.get_connection(3), Ok(&9));
    assert_eq!(manager.get_connection(4), Err(server::ConnectionManagerError::IdNotFound(4)));
    assert_eq!(manager.set_client_bi(4, true), Err(server::ConnectionManagerError::IdNotFound(4)));
    assert_eq!(manager.set_server_uni(4, true), Err(server::ConnectionManagerError::IdNotFound(4)));
    assert_eq!(server::ServerError::ConnNotFound(4), server::ServerError::ConnNotFound(4));
}

#[test]
fn test_keep_alive_decisions() {
    assert!(worker_has_capacity(0, 1000));
    assert!(worker_has_capacity(3, 2));
    assert!(!worker_has_capacity(3, 3));
    assert!(is_underloaded(10, 4));
    assert!(!is_underloaded(10, 5));
    assert!(!is_underloaded(10, 0));
    assert!(!is_underloaded(0, 1));
    assert!(ping_due(10, 4, 6));
    assert!(!ping_due(10, 5, 6));
    assert!(!ping_due(4, 10, 1));
    assert_eq!(choose_worker(2, &vec![(0, 2), (1, 1), (2, 0)]), Some(1));
    assert_eq!(choose_worker(2, &vec![(0, 2)]), None);
    assert_eq!(choose_worker(0, &vec![(5, 9)]), Some(0));
}

#[test]
fn test_worker_roster() {
    let mut roster = WorkerRoster::new();
    assert_eq!(roster.add_worker(), 0);
    assert_eq!(roster.add_worker(), 1);
    assert_eq!(roster.add_worker(), 2);
    roster.remove_worker(1);
    assert_eq!(roster.ids(), vec![0, 2]);
    assert_eq!(roster.add_worker(), 3);
    roster.remove_worker(7);
    assert_eq!(roster.ids(), vec![0, 2, 3]);
}

#[test]
fn test_named_table() {
    let mut table: NamedTable<u8> = NamedTable::new();
    table.insert("a", 1);
    table.insert("b", 2);
    table.insert("a", 3);
    assert_eq!(table.len(), 2);
    assert_eq!(table.position("a"), Some(0));
    assert_eq!(*table.value_at(0), 3);
    assert_eq!(table.name_at(1), "b");
    assert_eq!(table.position("c"), None);
}

#[test]
fn test_error_messages() {
    assert_eq!(ConnectionManagerError::IdNotFound(42).message(), "id not found in ConnectionManager store: 42");
    assert_eq!(server::ConnectionManagerError::IdNotFound(0).message(), "id not found in ConnectionManager store: 0");
    assert_eq!(server::ServerError::ConnNotFound(18446744073709551615).message(), "Connection with given ID not found: 18446744073709551615");
    assert_eq!(stric::text::decimal_string(1090), "1090");
    assert_eq!(stric::frame::FrameError::TooLarge(16777217).message(), "Frame length 16777217 exceeds maximum size of 16 MiB");
    assert_eq!(stric::frame::FrameError::Truncated.message(), "Truncated frame");
}

#[test]
fn test_settle_ping_round() {
    let entries = vec![("a", 1u128), ("b", 2), ("c", 3), ("d", 4)];
    let due = vec![true, true, false, false];
    let ok = vec![true, false, true, true];
    assert_eq!(settle_ping_round(entries, &due, &ok, 10), vec![("a", 10), ("c", 3), ("d", 4)]);
}
