use coordinator::client_manager::{ClientError, ClientInfo, ClientManager};
use coordinator::federated::ClientCapabilities;

#[test]
fn client_manager_test_client_registration() {
    let mut manager = ClientManager::new();

    let result = manager.register("client1".to_string(), "token123".to_string(), None);

    assert!(result.is_ok());
    assert_eq!(result.unwrap(), 0);
    assert_eq!(manager.get_active_count(), 1);
}

#[test]
fn test_duplicate_registration() {
    let mut manager = ClientManager::new();

    manager.register("client1".to_string(), "token1".to_string(), None).unwrap();
    let result = manager.register("client1".to_string(), "token2".to_string(), None);

    assert!(result.is_err());
}

#[test]
fn test_session_validation() {
    let mut manager = ClientManager::new();

    manager.register("client1".to_string(), "valid_token".to_string(), None).unwrap();

    assert!(manager.validate_session("client1", "valid_token"));
    assert!(!manager.validate_session("client1", "invalid_token"));
    assert!(!manager.validate_session("client2", "valid_token"));
}

#[test]
fn test_heartbeat() {
    let mut manager = ClientManager::new();

    manager.register("client1".to_string(), "token".to_string(), None).unwrap();

    let initial_heartbeat = manager.get_client("client1").unwrap().last_heartbeat;

    manager.update_heartbeat_at("client1", initial_heartbeat + 1).unwrap();

    let client1 = manager.get_client("client1").unwrap();
    assert!(client1.last_heartbeat > initial_heartbeat);
}

#[test]
fn test_cleanup_inactive() {
    let mut manager = ClientManager::new();

    manager.register("client1".to_string(), "token1".to_string(), None).unwrap();

    if let Some(client) = manager.get_client_mut("client1") {
        client.last_heartbeat = 0;
    }

    manager.cleanup_inactive(1);

    let client1 = manager.get_client("client1").unwrap();
    assert!(!client1.active);
    assert_eq!(manager.get_active_count(), 0);
}

#[test]
fn test_participation_tracking() {
    let mut manager = ClientManager::new();

    manager.register("client1".to_string(), "token".to_string(), None).unwrap();

    manager.record_participation("client1").unwrap();
    manager.record_participation("client1").unwrap();
    manager.record_submission("client1").unwrap();

    let client = manager.get_client("client1").unwrap();
    assert_eq!(client.rounds_participated, 2);
    assert_eq!(client.gradients_submitted, 1);
}

#[test]
fn test_stats() {
    let mut manager = ClientManager::new();

    manager.register("client1".to_string(), "token1".to_string(), None).unwrap();
    manager.register("client2".to_string(), "token2".to_string(), None).unwrap();

    manager.record_participation("client1").unwrap();
    manager.record_participation("client2").unwrap();
    manager.record_participation("client2").unwrap();

    let stats = manager.get_stats();
    assert_eq!(stats.active_clients, 2);
    assert_eq!(stats.total_participation, 3);
    let average_participation = stats.total_participation as f64 / stats.total_clients as f64;
    assert_eq!(average_participation, 1.5);
}

#[test]
fn test_max_clients_limit() {
    let mut manager = ClientManager::with_capacity(2);

    manager.register("client1".to_string(), "token1".to_string(), None).unwrap();
    manager.register("client2".to_string(), "token2".to_string(), None).unwrap();

    let result = manager.register("client3".to_string(), "token3".to_string(), None);
    assert!(result.is_err());
}

#[test]
fn registration_errors_name_their_cause() {
    let mut manager = ClientManager::with_capacity(1);
    assert_eq!(manager.register("a".to_string(), "t".to_string(), None), Ok(0));
    assert_eq!(
        manager.register("a".to_string(), "u".to_string(), None),
        Err(ClientError::AlreadyRegistered)
    );
    assert_eq!(
        manager.register("b".to_string(), "u".to_string(), None),
        Err(ClientError::CapacityReached)
    );
    assert_eq!(manager.get_total_count(), 1);
    assert_eq!(manager.get_client("a").unwrap().session_token, "t");
}

#[test]
fn unknown_clients_are_not_found() {
    let mut manager = ClientManager::new();
    assert_eq!(manager.update_heartbeat("ghost"), Err(ClientError::NotFound));
    assert_eq!(manager.update_heartbeat_at("ghost", 7), Err(ClientError::NotFound));
    assert_eq!(manager.remove_client("ghost"), Err(ClientError::NotFound));
    assert_eq!(manager.record_participation("ghost"), Err(ClientError::NotFound));
    assert_eq!(manager.record_submission("ghost"), Err(ClientError::NotFound));
    assert!(manager.get_client("ghost").is_none());
    assert!(manager.get_client_mut("ghost").is_none());
    assert_eq!(manager.get_total_count(), 0);
}

#[test]
fn indices_follow_registration_order_and_stay_distinct() {
    let mut manager = ClientManager::new();
    assert_eq!(manager.register("a".to_string(), "ta".to_string(), None), Ok(0));
    assert_eq!(manager.register("b".to_string(), "tb".to_string(), None), Ok(1));
    manager.remove_client("a").unwrap();
    assert_eq!(manager.register("a".to_string(), "ta".to_string(), None), Ok(2));
    assert_eq!(manager.get_client("a").unwrap().client_index, 2);
    assert_eq!(manager.get_client("b").unwrap().client_index, 1);
}

#[test]
fn clear_restarts_indices_at_zero() {
    let mut manager = ClientManager::new();
    manager.register("a".to_string(), "ta".to_string(), None).unwrap();
    manager.register("b".to_string(), "tb".to_string(), None).unwrap();
    manager.clear();
    assert_eq!(manager.get_total_count(), 0);
    assert_eq!(manager.register("c".to_string(), "tc".to_string(), None), Ok(0));
    let stats = manager.get_stats();
    assert_eq!(stats.total_registrations, 3);
    assert_eq!(stats.total_clients, 1);
}

#[test]
fn remove_undoes_register() {
    let mut manager = ClientManager::new();
    manager.register("a".to_string(), "ta".to_string(), None).unwrap();
    manager.register("b".to_string(), "tb".to_string(), None).unwrap();
    manager.remove_client("b").unwrap();
    assert_eq!(manager.get_total_count(), 1);
    assert!(manager.get_client("b").is_none());
    assert!(!manager.validate_session("b", "tb"));
    assert!(manager.validate_session("a", "ta"));
}

#[test]
fn registered_token_validates_until_deactivated() {
    let mut manager = ClientManager::new();
    manager.register_at("a".to_string(), "secret".to_string(), None, 100).unwrap();
    assert!(manager.validate_session("a", "secret"));
    manager.get_client_mut("a").unwrap().deactivate();
    assert!(!manager.validate_session("a", "secret"));
}

#[test]
fn register_at_records_the_time() {
    let mut manager = ClientManager::new();
    let caps = ClientCapabilities { device_type: "cpu".to_string(), dataset_size: 600 };
    manager.register_at("a".to_string(), "t".to_string(), Some(caps), 42).unwrap();
    let c = manager.get_client("a").unwrap();
    assert_eq!(c.registered_at, 42);
    assert_eq!(c.last_heartbeat, 42);
    assert!(c.active);
    assert_eq!(c.rounds_participated, 0);
    assert_eq!(c.gradients_submitted, 0);
    assert_eq!(c.capabilities.as_ref().unwrap().dataset_size, 600);
}

#[test]
fn clock_registration_uses_current_time() {
    let mut manager = ClientManager::new();
    manager.register("a".to_string(), "t".to_string(), None).unwrap();
    let c = manager.get_client("a").unwrap();
    assert!(c.registered_at > 1_600_000_000);
    assert_eq!(c.registered_at, c.last_heartbeat);
}

#[test]
fn cleanup_deactivates_only_expired_clients() {
    let mut manager = ClientManager::new();
    manager.register_at("old".to_string(), "t1".to_string(), None, 100).unwrap();
    manager.register_at("edge".to_string(), "t2".to_string(), None, 140).unwrap();
    manager.register_at("new".to_string(), "t3".to_string(), None, 190).unwrap();
    manager.cleanup_inactive_at(50, 190);
    assert!(!manager.get_client("old").unwrap().active);
    assert!(manager.get_client("edge").unwrap().active);
    assert!(manager.get_client("new").unwrap().active);
    assert_eq!(manager.get_active_count(), 2);
    assert_eq!(manager.get_total_count(), 3);
    let active: Vec<&ClientInfo> = manager.get_active_clients();
    assert_eq!(active.len(), 2);
    assert!(active.iter().all(|c| c.client_id != "old"));
    assert_eq!(manager.get_all_clients().len(), 3);
}

#[test]
fn cleanup_ages_future_heartbeats_by_wrapping() {
    let mut manager = ClientManager::new();
    manager.register_at("a".to_string(), "t".to_string(), None, 0).unwrap();
    manager.register_at("b".to_string(), "t".to_string(), None, u64::MAX).unwrap();
    manager.register("c".to_string(), "t".to_string(), None).unwrap();
    manager.cleanup_inactive(60);
    assert!(!manager.get_client("a").unwrap().active);
    assert!(!manager.get_client("b").unwrap().active);
    assert!(manager.get_client("c").unwrap().active);
    assert_eq!(manager.get_active_count(), 1);
}

#[test]
fn can_register_only_guards_accepted_registrations() {
    let mut manager = ClientManager::with_capacity(1);
    assert!(manager.can_register("a"));
    manager.register("a".to_string(), "t".to_string(), None).unwrap();
    assert!(manager.can_register("a"));
    assert!(manager.can_register("b"));
}

#[test]
fn deactivated_client_stays_inactive_after_heartbeat() {
    let mut manager = ClientManager::new();
    manager.register_at("a".to_string(), "tok".to_string(), None, 0).unwrap();
    manager.cleanup_inactive_at(10, 100);
    assert!(!manager.get_client("a").unwrap().active);
    manager.update_heartbeat("a").unwrap();
    manager.record_participation("a").unwrap();
    manager.reset_stats();
    assert!(!manager.get_client("a").unwrap().active);
    assert!(!manager.validate_session("a", "tok"));
}

#[test]
fn is_inactive_compares_with_timeout() {
    let c = ClientInfo::new_at("a".to_string(), "t".to_string(), 0, None, 100);
    assert!(!c.is_inactive_at(10, 110));
    assert!(c.is_inactive_at(10, 111));
    assert!(!c.is_inactive(u64::MAX));
    let future = ClientInfo::new_at("b".to_string(), "t".to_string(), 1, None, u64::MAX);
    assert!(future.is_inactive(0));
}

#[test]
fn client_info_counters() {
    let mut c = ClientInfo::new("a".to_string(), "t".to_string(), 3, None);
    c.increment_participation();
    c.increment_submissions();
    c.increment_submissions();
    assert_eq!(c.rounds_participated, 1);
    assert_eq!(c.gradients_submitted, 2);
    assert_eq!(c.client_index, 3);
    c.update_heartbeat_at(5);
    assert_eq!(c.last_heartbeat, 5);
    c.update_heartbeat();
    assert!(c.last_heartbeat > 5);
}

#[test]
fn reset_stats_zeroes_totals() {
    let mut manager = ClientManager::new();
    manager.register("a".to_string(), "ta".to_string(), None).unwrap();
    manager.register("b".to_string(), "tb".to_string(), None).unwrap();
    manager.record_participation("a").unwrap();
    manager.record_submission("b").unwrap();
    manager.record_submission("b").unwrap();
    let before = manager.get_stats();
    assert_eq!(before.total_participation, 1);
    assert_eq!(before.total_submissions, 2);
    manager.reset_stats();
    let after = manager.get_stats();
    assert_eq!(after.total_participation, 0);
    assert_eq!(after.total_submissions, 0);
    assert_eq!(after.total_clients, 2);
}

#[test]
fn stats_split_active_and_inactive() {
    let mut manager = ClientManager::default();
    manager.register_at("a".to_string(), "ta".to_string(), None, 0).unwrap();
    manager.register_at("b".to_string(), "tb".to_string(), None, 100).unwrap();
    manager.cleanup_inactive_at(10, 100);
    let stats = manager.get_stats();
    assert_eq!(stats.active_clients, 1);
    assert_eq!(stats.inactive_clients, 1);
    assert_eq!(stats.total_clients, 2);
    assert_eq!(stats.total_registrations, 2);
}

#[test]
fn fresh_heartbeat_survives_cleanup() {
    let mut manager = ClientManager::new();
    manager.register_at("a".to_string(), "t".to_string(), None, 10).unwrap();
    manager.update_heartbeat_at("a", 500).unwrap();
    manager.cleanup_inactive_at(0, 500);
    assert!(manager.get_client("a").unwrap().active);
    manager.cleanup_inactive_at(0, 501);
    assert!(!manager.get_client("a").unwrap().active);
}
