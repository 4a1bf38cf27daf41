use coordinator::client_manager::ClientError;
use coordinator::coordinator::{CoordinatorState, RoundResult};
use coordinator::federated::{
    ClientRegistration, GradientMetadata, GradientUpdate, HeartbeatRequest,
};
use coordinator::session::new_session_token;

fn registration(id: &str) -> ClientRegistration {
    ClientRegistration {
        client_id: id.to_string(),
        client_version: "1.0".to_string(),
        capabilities: None,
        timestamp: 0,
    }
}

fn update(id: &str, token: &str, round: i32, loss: f32, accuracy: f32) -> GradientUpdate {
    GradientUpdate {
        client_id: id.to_string(),
        session_token: token.to_string(),
        round_number: round,
        gradients: vec![1, 2, 3, 4],
        metadata: Some(GradientMetadata {
            num_samples_trained: 100,
            local_loss_bits: loss.to_bits(),
            local_accuracy_bits: accuracy.to_bits(),
            is_compressed: false,
            compression_ratio_bits: 1.0f32.to_bits(),
            has_differential_privacy: false,
            dp_params: None,
        }),
        timestamp: 0,
    }
}

#[test]
fn coordinator_test_client_registration() {
    let mut coordinator = CoordinatorState::new();

    let registration = ClientRegistration {
        client_id: "test_client".to_string(),
        client_version: "1.0.0".to_string(),
        capabilities: None,
        timestamp: 0,
    };

    let response = coordinator.register_client(registration).unwrap();

    assert!(response.success);
    assert!(!response.session_token.is_empty());
    assert_eq!(response.assigned_client_index, 0);
}

#[test]
fn test_gradient_submission() {
    let mut coordinator = CoordinatorState::new();
    coordinator.set_aggregation_threshold(2);

    let reg1 = ClientRegistration {
        client_id: "client1".to_string(),
        client_version: "1.0".to_string(),
        capabilities: None,
        timestamp: 0,
    };
    let resp1 = coordinator.register_client(reg1).unwrap();

    let gradient = GradientUpdate {
        client_id: "client1".to_string(),
        session_token: resp1.session_token,
        round_number: 0,
        gradients: vec![1, 2, 3, 4],
        metadata: Some(GradientMetadata {
            num_samples_trained: 100,
            local_loss_bits: 0.5f32.to_bits(),
            local_accuracy_bits: 90.0f32.to_bits(),
            is_compressed: false,
            compression_ratio_bits: 1.0f32.to_bits(),
            has_differential_privacy: false,
            dp_params: None,
        }),
        timestamp: 0,
    };

    let submission = coordinator.submit_gradients(gradient).unwrap();
    assert!(submission.ack.accepted);
}

#[test]
fn session_tokens_are_hyphenated_v4_uuids() {
    let token = new_session_token();
    let chars: Vec<char> = token.chars().collect();
    assert_eq!(chars.len(), 36);
    for (i, c) in chars.iter().enumerate() {
        if i == 8 || i == 13 || i == 18 || i == 23 {
            assert_eq!(*c, '-');
        } else {
            assert!(c.is_ascii_hexdigit() && !c.is_ascii_uppercase());
        }
    }
    assert_eq!(chars[14], '4');
    assert!("89ab".contains(chars[19]));
    assert_ne!(token, new_session_token());
}

#[test]
fn registration_message_and_token() {
    let mut coordinator = CoordinatorState::new();
    let first = coordinator
        .register_client_with_token(registration("a"), "tok-a".to_string())
        .unwrap();
    let second = coordinator
        .register_client_with_token(registration("b"), "tok-b".to_string())
        .unwrap();
    assert_eq!(first.message, "Successfully registered as client 0. Ready for training.");
    assert_eq!(second.message, "Successfully registered as client 1. Ready for training.");
    assert_eq!(second.session_token, "tok-b");
    assert!(coordinator.validate_session("b", "tok-b"));
    assert!(!coordinator.validate_session("b", "tok-a"));
    assert_eq!(
        coordinator.register_client_with_token(registration("a"), "x".to_string()).unwrap_err(),
        ClientError::AlreadyRegistered
    );
    assert_eq!(coordinator.get_active_client_count(), 2);
}

#[test]
fn wrong_round_is_refused_with_message() {
    let mut coordinator = CoordinatorState::new();
    let s = coordinator.submit_gradients(update("a", "t", 5, 0.5, 90.0)).unwrap();
    assert!(!s.ack.accepted);
    assert_eq!(s.ack.message, "Wrong round. Expected 0, got 5");
    assert_eq!(s.ack.next_round, 0);
    assert!(s.batch.is_none());
    let s = coordinator.submit_gradients(update("a", "t", -12, 0.5, 90.0)).unwrap();
    assert_eq!(s.ack.message, "Wrong round. Expected 0, got -12");
    assert_eq!(coordinator.get_current_round(), 0);
}

#[test]
fn second_submission_in_a_round_is_refused() {
    let mut coordinator = CoordinatorState::new();
    let s = coordinator.submit_gradients(update("a", "t", 0, 0.5, 90.0)).unwrap();
    assert!(s.ack.accepted);
    assert_eq!(s.ack.message, "Gradient received (1/3)");
    let s = coordinator.submit_gradients(update("a", "t", 0, 0.4, 91.0)).unwrap();
    assert!(!s.ack.accepted);
    assert_eq!(s.ack.message, "Already submitted for this round");
    let s = coordinator.submit_gradients(update("b", "t", 0, 0.4, 91.0)).unwrap();
    assert!(s.ack.accepted);
    assert_eq!(s.ack.message, "Gradient received (2/3)");
}

#[test]
fn reaching_the_threshold_completes_the_round() {
    let mut coordinator = CoordinatorState::new();
    assert!(coordinator.submit_gradients(update("a", "t", 0, 0.5, 90.0)).unwrap().batch.is_none());
    assert!(coordinator.submit_gradients(update("b", "t", 0, 0.7, 80.0)).unwrap().batch.is_none());
    let s = coordinator.submit_gradients(update("c", "t", 0, 0.9, 70.0)).unwrap();
    assert!(s.ack.accepted);
    assert_eq!(s.ack.message, "Gradient received (3/3)");
    assert_eq!(s.ack.next_round, 1);
    assert_eq!(coordinator.get_current_round(), 1);
    let batch = s.batch.unwrap();
    assert_eq!(batch.round(), 0);
    assert!(batch.aggregation_ms() < 60_000);
    let ids: Vec<&str> = batch.gradients().iter().map(|g| g.client_id.as_str()).collect();
    assert_eq!(ids, vec!["a", "b", "c"]);
    let model = coordinator.get_global_model(0).unwrap();
    assert_eq!(model.model_version, 1);
    assert_eq!(model.round_number, 1);
    // the next round starts empty; old-round submissions are refused
    let s = coordinator.submit_gradients(update("a", "t", 0, 0.5, 90.0)).unwrap();
    assert_eq!(s.ack.message, "Wrong round. Expected 1, got 0");
    let s = coordinator.submit_gradients(update("a", "t", 1, 0.5, 90.0)).unwrap();
    assert_eq!(s.ack.message, "Gradient received (1/3)");
}

#[test]
fn negative_threshold_never_completes_a_round() {
    let mut coordinator = CoordinatorState::new();
    coordinator.set_aggregation_threshold(-1);
    for id in ["a", "b", "c", "d"] {
        let s = coordinator.submit_gradients(update(id, "t", 0, 0.5, 90.0)).unwrap();
        assert!(s.ack.accepted);
        assert!(s.batch.is_none());
    }
    assert_eq!(coordinator.get_current_round(), 0);
}

#[test]
fn zero_threshold_completes_on_every_submission() {
    let mut coordinator = CoordinatorState::new();
    coordinator.set_aggregation_threshold(0);
    let s = coordinator.submit_gradients(update("a", "t", 0, 0.5, 90.0)).unwrap();
    assert_eq!(s.ack.message, "Gradient received (1/0)");
    assert!(s.batch.is_some());
    assert_eq!(coordinator.get_current_round(), 1);
}

#[test]
fn completed_rounds_are_recorded_in_order() {
    let mut coordinator = CoordinatorState::new();
    coordinator.set_aggregation_threshold(1);
    let b0 = coordinator.submit_gradients(update("a", "t", 0, 0.5, 90.0)).unwrap().batch.unwrap();
    let b1 = coordinator.submit_gradients(update("a", "t", 1, 0.25, 95.0)).unwrap().batch.unwrap();
    assert_eq!(coordinator.get_round_results().len(), 2);
    assert!(coordinator.complete_round(b1, 0.25f32.to_bits(), 95.0f32.to_bits(), 3.0f32.to_bits()));
    assert!(coordinator.complete_round(b0, 0.5f32.to_bits(), 90.0f32.to_bits(), 2.0f32.to_bits()));
    let results: Vec<RoundResult> = coordinator.get_round_results();
    assert_eq!(results.len(), 2);
    assert_eq!(results[0].round_number, 0);
    assert_eq!(results[1].round_number, 1);
    assert_eq!(results[0].num_clients, 1);
    assert_eq!(f32::from_bits(results[1].avg_loss_bits), 0.25);
    assert_eq!(results[0].byzantine_detected, 0);
}

#[test]
fn completing_a_round_records_its_result() {
    let mut c = CoordinatorState::new();
    assert!(c.submit_gradients(update("c0", "t", 0, 0.5, 90.0)).unwrap().ack.accepted);
    assert!(c.submit_gradients(update("c1", "t", 0, 0.5, 90.0)).unwrap().ack.accepted);
    assert!(c.get_round_results().is_empty());
    let s = c.submit_gradients(update("c2", "t", 0, 0.5, 90.0)).unwrap();
    assert!(s.ack.accepted);
    assert_eq!(s.ack.message, "Gradient received (3/3)");
    assert_eq!(s.ack.next_round, 1);
    assert_eq!(c.get_current_round(), 1);
    let results = c.get_round_results();
    assert_eq!(results.len(), 1);
    assert_eq!(results[0].round_number, 0);
    assert_eq!(results[0].num_clients, 3);
    assert_eq!(results[0].byzantine_detected, 0);
    assert!(c.complete_round(s.batch.unwrap(), 0.5f32.to_bits(), 90.0f32.to_bits(), 1.0f32.to_bits()));
    let results = c.get_round_results();
    assert_eq!(results.len(), 1);
    assert_eq!(results[0].num_clients, 3);
    assert_eq!(f32::from_bits(results[0].avg_accuracy_bits), 90.0);
}

#[test]
fn batch_from_an_earlier_run_is_not_recorded() {
    let mut c = CoordinatorState::new();
    c.set_aggregation_threshold(1);
    let old_batch = c.submit_gradients(update("a", "t", 0, 0.5, 90.0)).unwrap().batch.unwrap();
    c.reset();
    c.submit_gradients(update("a", "t", 0, 0.25, 95.0)).unwrap();
    c.submit_gradients(update("a", "t", 1, 0.25, 95.0)).unwrap();
    assert_eq!(c.get_current_round(), 2);
    assert!(!c.complete_round(old_batch, 7, 7, 7));
    assert!(c.get_round_results().iter().all(|r| r.avg_loss_bits != 7));
}

#[test]
fn can_submit_guards_only_round_completion() {
    let c = CoordinatorState::new();
    assert!(c.can_submit(&update("a", "t", 0, 0.5, 90.0)));
    assert!(c.can_register("a"));
}

#[test]
fn stale_batch_is_not_recorded_after_reset() {
    let mut coordinator = CoordinatorState::new();
    coordinator.set_aggregation_threshold(1);
    let b0 = coordinator.submit_gradients(update("a", "t", 0, 0.5, 90.0)).unwrap().batch.unwrap();
    coordinator.reset();
    assert_eq!(coordinator.get_current_round(), 0);
    assert!(!coordinator.complete_round(b0, 0, 0, 0));
    assert!(coordinator.get_round_results().is_empty());
}

#[test]
fn reset_keeps_clients_and_restarts_rounds() {
    let mut coordinator = CoordinatorState::new();
    coordinator.register_client_with_token(registration("a"), "t".to_string()).unwrap();
    coordinator.set_aggregation_threshold(1);
    coordinator.submit_gradients(update("a", "t", 0, 0.5, 90.0)).unwrap();
    assert_eq!(coordinator.get_current_round(), 1);
    coordinator.reset();
    assert_eq!(coordinator.get_current_round(), 0);
    let model = coordinator.get_global_model(0).unwrap();
    assert_eq!(model.model_version, 0);
    assert_eq!(model.model_weights, vec![0u8; 1024]);
    assert!(coordinator.validate_session("a", "t"));
    // a client may submit again for round 0 after the reset
    assert!(coordinator.submit_gradients(update("a", "t", 0, 0.5, 90.0)).unwrap().ack.accepted);
}

#[test]
fn global_model_and_config() {
    let coordinator = CoordinatorState::default();
    let model = coordinator.get_global_model(7).unwrap();
    assert_eq!(model.round_number, 0);
    assert_eq!(model.model_weights.len(), 1024);
    let md = model.metadata.unwrap();
    assert_eq!(md.total_parameters, 1024);
    assert_eq!(md.model_architecture, "SimpleCNN");
    assert_eq!(f32::from_bits(md.learning_rate_bits), 0.01);
    assert_eq!(md.batch_size, 32);
    let config = coordinator.get_config();
    assert_eq!(config.total_rounds, 10);
    assert_eq!(config.local_epochs, 5);
    assert_eq!(config.aggregation_threshold, 3);
    assert!(config.enable_compression && config.enable_differential_privacy);
    let dp = config.dp_config.unwrap();
    assert_eq!(f32::from_bits(dp.epsilon_bits), 2.0);
    assert_eq!(f32::from_bits(dp.delta_bits), 1e-5);
    assert_eq!(f32::from_bits(dp.noise_multiplier_bits), 1.1);
    assert_eq!(f32::from_bits(dp.max_grad_norm_bits), 1.0);
}

#[test]
fn heartbeat_reports_progress() {
    let mut coordinator = CoordinatorState::new();
    coordinator.register_client_with_token(registration("a"), "t".to_string()).unwrap();
    let req = HeartbeatRequest { client_id: "a".to_string(), session_token: "t".to_string() };
    let resp = coordinator.process_heartbeat_at(req.clone(), 12345).unwrap();
    assert!(resp.continue_training);
    assert_eq!(resp.next_round, 0);
    assert_eq!(resp.message, "Training in progress (round 0/10)");
    let resp = coordinator.process_heartbeat(req).unwrap();
    assert!(resp.continue_training);
    let missing = HeartbeatRequest { client_id: "z".to_string(), session_token: "t".to_string() };
    assert_eq!(coordinator.process_heartbeat(missing).unwrap_err(), ClientError::NotFound);
}

#[test]
fn heartbeat_after_last_round_reports_completion() {
    let mut coordinator = CoordinatorState::new();
    coordinator.register_client_with_token(registration("a"), "t".to_string()).unwrap();
    coordinator.set_aggregation_threshold(1);
    for round in 0..10 {
        let s = coordinator.submit_gradients(update("a", "t", round, 0.5, 90.0)).unwrap();
        assert!(s.batch.is_some());
    }
    let req = HeartbeatRequest { client_id: "a".to_string(), session_token: "t".to_string() };
    let resp = coordinator.process_heartbeat_at(req, 1).unwrap();
    assert!(!resp.continue_training);
    assert_eq!(resp.next_round, 10);
    assert_eq!(resp.message, "Training complete");
}

#[test]
fn cleanup_of_clients_through_the_coordinator() {
    let mut coordinator = CoordinatorState::new();
    coordinator.register_client_with_token(registration("a"), "t".to_string()).unwrap();
    let req = HeartbeatRequest { client_id: "a".to_string(), session_token: "t".to_string() };
    coordinator.process_heartbeat_at(req, 10).unwrap();
    coordinator.cleanup_inactive_clients_at(5, 20);
    assert_eq!(coordinator.get_active_client_count(), 0);
    assert!(!coordinator.validate_session("a", "t"));
    coordinator.register_client_with_token(registration("b"), "u".to_string()).unwrap();
    coordinator.cleanup_inactive_clients(3600);
    assert_eq!(coordinator.get_active_client_count(), 1);
}
