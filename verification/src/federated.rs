//! The messages exchanged between training clients and the coordinator.
//!
//! Real-valued fields (learning rate, losses, privacy parameters) are kept
//! as the IEEE-754 bit pattern of the `f32` they stand for (`f32::to_bits`);
//! the coordinator only stores and forwards them, and the arithmetic on them
//! happens outside this library.

use vstd::prelude::*;

verus! {

/// What a client reports about itself when it registers.
#[derive(Clone, Debug)]
pub struct ClientCapabilities {
    /// Kind of device the client trains on (for example "cpu" or "cuda").
    pub device_type: String,
    /// Number of local training samples.
    pub dataset_size: i64,
}

/// A registration request.
#[derive(Clone, Debug)]
pub struct ClientRegistration {
    pub client_id: String,
    pub client_version: String,
    pub capabilities: Option<ClientCapabilities>,
    pub timestamp: i64,
}

/// The answer to a registration request.
#[derive(Clone, Debug)]
pub struct ClientRegistrationResponse {
    pub success: bool,
    pub session_token: String,
    pub assigned_client_index: i32,
    pub message: String,
}

/// Differential-privacy parameters (bit patterns of `f32` values).
#[derive(Clone, Copy, Debug)]
pub struct DpParameters {
    pub epsilon_bits: u32,
    pub delta_bits: u32,
    pub noise_multiplier_bits: u32,
    pub max_grad_norm_bits: u32,
}

/// The training configuration handed to every client.
#[derive(Clone, Copy, Debug)]
pub struct TrainingConfig {
    pub total_rounds: i32,
    pub local_epochs: i32,
    pub batch_size: i32,
    /// Bit pattern of the `f32` learning rate.
    pub learning_rate_bits: u32,
    pub enable_compression: bool,
    pub enable_differential_privacy: bool,
    pub dp_config: Option<DpParameters>,
    pub aggregation_threshold: i32,
}

/// Describes the global model that is served.
#[derive(Clone, Debug)]
pub struct ModelMetadata {
    pub total_parameters: i32,
    pub model_architecture: String,
    /// Bit pattern of the `f32` learning rate.
    pub learning_rate_bits: u32,
    pub batch_size: i32,
}

/// The global model as served to a client.
#[derive(Clone, Debug)]
pub struct ModelResponse {
    pub round_number: i32,
    pub model_weights: Vec<u8>,
    pub model_version: i64,
    pub metadata: Option<ModelMetadata>,
}

/// What a client reports along with its gradients.
#[derive(Clone, Debug)]
pub struct GradientMetadata {
    pub num_samples_trained: i32,
    /// Bit pattern of the `f32` local loss.
    pub local_loss_bits: u32,
    /// Bit pattern of the `f32` local accuracy.
    pub local_accuracy_bits: u32,
    pub is_compressed: bool,
    /// Bit pattern of the `f32` compression ratio.
    pub compression_ratio_bits: u32,
    pub has_differential_privacy: bool,
    pub dp_params: Option<DpParameters>,
}

/// A gradient submission for one round.
#[derive(Clone, Debug)]
pub struct GradientUpdate {
    pub client_id: String,
    pub session_token: String,
    pub round_number: i32,
    pub gradients: Vec<u8>,
    pub metadata: Option<GradientMetadata>,
    pub timestamp: i64,
}

/// The coordinator's answer to a gradient submission.
#[derive(Clone, Debug)]
pub struct GradientAck {
    pub accepted: bool,
    pub message: String,
    pub next_round: i32,
}

/// A liveness message from a client.
#[derive(Clone, Debug)]
pub struct HeartbeatRequest {
    pub client_id: String,
    pub session_token: String,
}

/// The coordinator's answer to a heartbeat.
#[derive(Clone, Debug)]
pub struct HeartbeatResponse {
    pub continue_training: bool,
    pub next_round: i32,
    pub message: String,
}

} // verus!
