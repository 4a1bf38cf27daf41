//! The coordinator's state: training rounds, the global model, gradient
//! buffering and the results of completed rounds.

use vstd::prelude::*;
use std::collections::HashMap;
use crate::client_manager::{
    ClientError, ClientInfo, ClientManager, cleaned, cleanup_outcome, heartbeats_not_after,
    registration_outcome,
};
use crate::federated::{
    ClientRegistration, ClientRegistrationResponse, DpParameters, GradientAck, GradientUpdate,
    HeartbeatRequest, HeartbeatResponse, ModelMetadata, ModelResponse, TrainingConfig,
};
use crate::clock::{clock_reading, millis_since, system_time_now};
use crate::session::{new_session_token, uuid_text, uuid_v4_layout};
use crate::text::{decimal, push_decimal, push_decimal_usize};

verus! {

broadcast use vstd::std_specs::hash::group_hash_axioms;

/// Number of bytes of the initial global model.
pub const MODEL_SIZE: usize = 1024;

/// Bit pattern of the default learning rate, 0.01 as `f32`.
pub const DEFAULT_LEARNING_RATE_BITS: u32 = 0x3C23_D70A;

/// Bit pattern of the default privacy budget epsilon, 2.0 as `f32`.
pub const DEFAULT_EPSILON_BITS: u32 = 0x4000_0000;

/// Bit pattern of the default failure probability delta, 1e-5 as `f32`.
pub const DEFAULT_DELTA_BITS: u32 = 0x3727_C5AC;

/// Bit pattern of the default noise multiplier, 1.1 as `f32`.
pub const DEFAULT_NOISE_MULTIPLIER_BITS: u32 = 0x3F8C_CCCD;

/// Bit pattern of the default gradient clipping norm, 1.0 as `f32`.
pub const DEFAULT_MAX_GRAD_NORM_BITS: u32 = 0x3F80_0000;

/// Results from a completed training round (real values as `f32` bit patterns).
#[derive(Clone, Copy, Debug)]
pub struct RoundResult {
    pub round_number: i32,
    pub num_clients: i32,
    pub avg_loss_bits: u32,
    pub avg_accuracy_bits: u32,
    pub aggregation_time_ms_bits: u32,
    pub byzantine_detected: i32,
}

/// The gradients of a round that reached the aggregation threshold,
/// handed out for aggregation.
pub struct RoundBatch {
    run: u64,
    round: i32,
    gradients: Vec<GradientUpdate>,
    elapsed_ms: u128,
}

impl RoundBatch {
    /// The training run the gradients belong to.
    pub closed spec fn run_spec(&self) -> u64 {
        self.run
    }

    /// The round the gradients belong to.
    pub closed spec fn round_spec(&self) -> i32 {
        self.round
    }

    /// The gradients, in the order they were accepted.
    pub closed spec fn gradients_spec(&self) -> Seq<GradientUpdate> {
        self.gradients@
    }

    /// Milliseconds the completion of the round took, by the system clock.
    pub closed spec fn elapsed_ms_spec(&self) -> u128 {
        self.elapsed_ms
    }

    /// The round the gradients belong to.
    pub fn round(&self) -> (r: i32)
        ensures
            r == self.round_spec(),
    {
        self.round
    }

    /// The gradients, in the order they were accepted.
    pub fn gradients(&self) -> (r: &Vec<GradientUpdate>)
        ensures
            r@ == self.gradients_spec(),
    {
        &self.gradients
    }

    /// Milliseconds the completion of the round took, by the system clock.
    pub fn aggregation_ms(&self) -> (r: u128)
        ensures
            r == self.elapsed_ms_spec(),
    {
        self.elapsed_ms
    }
}

/// Why a gradient submission failed.
#[derive(Clone, Copy, Debug, PartialEq, Eq, Structural)]
pub enum SubmitError {
    /// The system clock was set back while the round was being completed.
    ClockWentBackwards,
}

/// The outcome of a gradient submission.
pub struct Submission {
    /// The answer for the client.
    pub ack: GradientAck,
    /// The completed round's gradients, when this submission reached the threshold.
    pub batch: Option<RoundBatch>,
}

/// The client ids of a sequence of updates.
pub open spec fn update_ids(us: Seq<GradientUpdate>) -> Seq<Seq<char>> {
    us.map_values(|u: GradientUpdate| u.client_id@)
}

/// The texts of a sequence of strings.
pub open spec fn string_views(v: Seq<String>) -> Seq<Seq<char>> {
    v.map_values(|s: String| s@)
}

/// The client count recorded for a round of `n` accepted gradients
/// (saturating at `i32::MAX`).
pub open spec fn client_count(n: int) -> i32 {
    if n <= i32::MAX {
        n as i32
    } else {
        i32::MAX
    }
}

/// The result recorded when round `round` completes with `n` gradients,
/// before the averages and the timing are filled in.
pub open spec fn pending_result(round: i32, n: int) -> RoundResult {
    RoundResult {
        round_number: round,
        num_clients: client_count(n),
        avg_loss_bits: 0,
        avg_accuracy_bits: 0,
        aggregation_time_ms_bits: 0,
        byzantine_detected: 0,
    }
}

/// The run identifier that follows `run` (wrapping around).
pub open spec fn next_run(run: u64) -> u64 {
    if run < u64::MAX {
        (run + 1) as u64
    } else {
        0
    }
}

/// Whether `count` gradients reach the aggregation threshold `threshold`
/// (a negative threshold is never reached).
pub open spec fn threshold_reached(count: int, threshold: i32) -> bool {
    threshold >= 0 && count >= threshold
}

/// The answer text for a submission to the wrong round.
pub open spec fn wrong_round_message(expected: i32, got: i32) -> Seq<char> {
    "Wrong round. Expected "@ + decimal(expected as int) + ", got "@ + decimal(got as int)
}

/// The answer text for a client that already submitted in this round.
pub open spec fn duplicate_message() -> Seq<char> {
    "Already submitted for this round"@
}

/// The answer text for an accepted submission.
pub open spec fn received_message(count: int, threshold: i32) -> Seq<char> {
    "Gradient received ("@ + decimal(count) + "/"@ + decimal(threshold as int) + ")"@
}

/// The answer text for a successful registration.
pub open spec fn registered_message(index: i32) -> Seq<char> {
    "Successfully registered as client "@ + decimal(index as int) + ". Ready for training."@
}

/// The answer text for a heartbeat.
pub open spec fn heartbeat_message(round: i32, total_rounds: i32) -> Seq<char> {
    if round < total_rounds {
        "Training in progress (round "@ + decimal(round as int) + "/"@ + decimal(
            total_rounds as int,
        ) + ")"@
    } else {
        "Training complete"@
    }
}

/// The initial global model: `MODEL_SIZE` zero bytes.
pub open spec fn initial_model() -> Seq<u8> {
    Seq::new(MODEL_SIZE as nat, |i: int| 0u8)
}

/// The default training configuration.
pub open spec fn default_training_config() -> TrainingConfig {
    TrainingConfig {
        total_rounds: 10,
        local_epochs: 5,
        batch_size: 32,
        learning_rate_bits: DEFAULT_LEARNING_RATE_BITS,
        enable_compression: true,
        enable_differential_privacy: true,
        dp_config: Some(
            DpParameters {
                epsilon_bits: DEFAULT_EPSILON_BITS,
                delta_bits: DEFAULT_DELTA_BITS,
                noise_multiplier_bits: DEFAULT_NOISE_MULTIPLIER_BITS,
                max_grad_norm_bits: DEFAULT_MAX_GRAD_NORM_BITS,
            },
        ),
        aggregation_threshold: 3,
    }
}

/// `r` lists the results of `m` in increasing round order, each once.
pub open spec fn results_in_order(r: Seq<RoundResult>, m: Map<i32, RoundResult>) -> bool {
    &&& forall|i: int|
        0 <= i < r.len() ==> m.contains_key(#[trigger] r[i].round_number) && m[r[i].round_number]
            == r[i]
    &&& forall|k: i32| #[trigger] m.contains_key(k) ==> exists|i: int| 0 <= i < r.len() && r[i].round_number == k
    &&& forall|i: int, j: int| 0 <= i < j < r.len() ==> r[i].round_number < r[j].round_number
}

/// Main coordinator state managing federated learning rounds.
pub struct CoordinatorState {
    /// Current training round number.
    current_round: i32,
    /// Total number of rounds to complete.
    total_rounds: i32,
    /// Global model weights (serialized).
    global_model: Vec<u8>,
    /// Model version counter.
    model_version: i64,
    /// Client registration and tracking.
    client_manager: ClientManager,
    /// Gradients received per round, not yet aggregated.
    gradients_buffer: HashMap<i32, Vec<GradientUpdate>>,
    /// Training configuration.
    config: TrainingConfig,
    /// Number of gradients that triggers aggregation.
    aggregation_threshold: i32,
    /// Clients whose gradients were accepted, per round.
    round_participants: HashMap<i32, Vec<String>>,
    /// Results of completed rounds.
    round_results: HashMap<i32, RoundResult>,
    /// Identifies the current training run; changes at every reset.
    run: u64,
}

impl CoordinatorState {
    /// The current training round.
    pub closed spec fn round(&self) -> i32 {
        self.current_round
    }

    /// The number of rounds training runs for.
    pub closed spec fn total_rounds_spec(&self) -> i32 {
        self.total_rounds
    }

    /// The version of the global model.
    pub closed spec fn version(&self) -> i64 {
        self.model_version
    }

    /// The global model.
    pub closed spec fn model(&self) -> Seq<u8> {
        self.global_model@
    }

    /// The client registry.
    pub closed spec fn manager(&self) -> ClientManager {
        self.client_manager
    }

    /// Buffered gradients per round.
    pub closed spec fn buffer(&self) -> Map<i32, Seq<GradientUpdate>> {
        self.gradients_buffer@.map_values(|v: Vec<GradientUpdate>| v@)
    }

    /// Ids of the clients whose gradients were accepted, per round.
    pub closed spec fn participants(&self) -> Map<i32, Seq<Seq<char>>> {
        self.round_participants@.map_values(|v: Vec<String>| string_views(v@))
    }

    /// Results of completed rounds, by round.
    pub closed spec fn results(&self) -> Map<i32, RoundResult> {
        self.round_results@
    }

    /// The identifier of the current training run.
    pub closed spec fn run_spec(&self) -> u64 {
        self.run
    }

    /// The training configuration.
    pub closed spec fn config_spec(&self) -> TrainingConfig {
        self.config
    }

    /// The aggregation threshold.
    pub closed spec fn threshold(&self) -> i32 {
        self.aggregation_threshold
    }

    /// The gradients buffered for round `r` (empty when there are none).
    pub open spec fn buffered(&self, r: i32) -> Seq<GradientUpdate> {
        if self.buffer().contains_key(r) {
            self.buffer()[r]
        } else {
            Seq::empty()
        }
    }

    /// The ids of the clients accepted in round `r` (empty when there are none).
    pub open spec fn accepted_ids(&self, r: i32) -> Seq<Seq<char>> {
        if self.participants().contains_key(r) {
            self.participants()[r]
        } else {
            Seq::empty()
        }
    }

    /// The consistency of the coordinator's state.
    pub open spec fn wf(&self) -> bool {
        &&& self.manager().wf()
        &&& self.model().len() <= i32::MAX
        &&& 0 <= self.round()
        &&& self.version() == self.round()
        &&& forall|r: i32| #[trigger] self.buffer().contains_key(r) ==> r == self.round()
        &&& forall|i: int|
            0 <= i < self.buffered(self.round()).len() ==> (#[trigger] self.buffered(
                self.round(),
            )[i]).round_number == self.round()
        &&& forall|r: i32|
            #[trigger] self.participants().contains_key(r) ==> 0 <= r <= self.round()
                && self.participants()[r].no_duplicates()
        &&& self.accepted_ids(self.round()) == update_ids(self.buffered(self.round()))
        &&& forall|r: i32|
            #[trigger] self.results().contains_key(r) ==> {
                &&& 0 <= r < self.round()
                &&& self.results()[r].round_number == r
                &&& self.participants().contains_key(r)
                &&& self.results()[r].num_clients == client_count(
                    self.participants()[r].len() as int,
                )
            }
    }

    /// Creates a coordinator with the default configuration.
    pub fn new() -> (s: Self)
        ensures
            s.wf(),
            s.round() == 0,
            s.total_rounds_spec() == 10,
            s.model() == initial_model(),
            s.manager()@ == Map::<Seq<char>, ClientInfo>::empty(),
            s.manager().max_clients_spec() == 100,
            s.manager().next_index_spec() == 0,
            s.manager().total_registrations_spec() == 0,
            s.buffer() == Map::<i32, Seq<GradientUpdate>>::empty(),
            s.participants() == Map::<i32, Seq<Seq<char>>>::empty(),
            s.results() == Map::<i32, RoundResult>::empty(),
            s.config_spec() == default_training_config(),
            s.threshold() == 3,
    {
        let s = CoordinatorState {
            current_round: 0,
            total_rounds: 10,
            global_model: Self::initialize_model(),
            model_version: 0,
            client_manager: ClientManager::new(),
            gradients_buffer: HashMap::new(),
            config: Self::default_config(),
            aggregation_threshold: 3,
            round_participants: HashMap::new(),
            round_results: HashMap::new(),
            run: 0,
        };
        assert(s.buffer() =~= Map::<i32, Seq<GradientUpdate>>::empty());
        assert(s.participants() =~= Map::<i32, Seq<Seq<char>>>::empty());
        assert(update_ids(Seq::<GradientUpdate>::empty()) =~= Seq::<Seq<char>>::empty());
        s
    }

    /// The initial global model.
    fn initialize_model() -> (m: Vec<u8>)
        ensures
            m@ == initial_model(),
    {
        let mut m: Vec<u8> = Vec::new();
        let mut i: usize = 0;
        while i < MODEL_SIZE
            invariant
                i <= MODEL_SIZE,
                m@ == Seq::new(i as nat, |k: int| 0u8),
            decreases MODEL_SIZE - i,
        {
            m.push(0u8);
            i = i + 1;
            assert(m@ =~= Seq::new(i as nat, |k: int| 0u8));
        }
        m
    }

    /// The default training configuration.
    fn default_config() -> (c: TrainingConfig)
        ensures
            c == default_training_config(),
    {
        TrainingConfig {
            total_rounds: 10,
            local_epochs: 5,
            batch_size: 32,
            learning_rate_bits: DEFAULT_LEARNING_RATE_BITS,
            enable_compression: true,
            enable_differential_privacy: true,
            dp_config: Some(
                DpParameters {
                    epsilon_bits: DEFAULT_EPSILON_BITS,
                    delta_bits: DEFAULT_DELTA_BITS,
                    noise_multiplier_bits: DEFAULT_NOISE_MULTIPLIER_BITS,
                    max_grad_norm_bits: DEFAULT_MAX_GRAD_NORM_BITS,
                },
            ),
            aggregation_threshold: 3,
        }
    }

    /// Whether accepting `update` would complete the current round.
    pub open spec fn completes_round(&self, update: GradientUpdate) -> bool {
        &&& update.round_number == self.round()
        &&& !self.accepted_ids(self.round()).contains(update.client_id@)
        &&& threshold_reached(self.buffered(self.round()).len() + 1int, self.threshold())
    }

    /// `self` and `other` agree on everything but the round bookkeeping
    /// (round, version, buffered gradients, participants and results).
    pub open spec fn same_setup(&self, other: &CoordinatorState) -> bool {
        &&& self.manager() == other.manager()
        &&& self.model() == other.model()
        &&& self.run_spec() == other.run_spec()
        &&& self.config_spec() == other.config_spec()
        &&& self.threshold() == other.threshold()
        &&& self.total_rounds_spec() == other.total_rounds_spec()
    }

    /// Takes a client's gradients for a round. Gradients for another round
    /// than the current one, and a second submission of a client in the
    /// same round, are refused. When the buffered gradients of the round
    /// reach the aggregation threshold, the round is completed: its
    /// gradients leave the buffer, the model version and round advance by
    /// one, its result is recorded (round, client count; the averages follow
    /// with `complete_round`) and its gradients are handed out for
    /// aggregation. When the system clock was set back while the round was
    /// being completed, the round has advanced all the same, but no result
    /// is recorded and the submission fails.
    pub fn submit_gradients(&mut self, update: GradientUpdate) -> (r: Result<
        Submission,
        SubmitError,
    >)
        requires
            old(self).wf(),
            old(self).round() < i32::MAX || !old(self).completes_round(update),
        ensures
            final(self).wf(),
            submission_outcome(*old(self), *final(self), update, r),
    {
        let round = update.round_number;
        let cur = self.current_round;
        if round != cur {
            let mut message = String::new();
            message.append("Wrong round. Expected ");
            push_decimal(&mut message, cur as i64);
            message.append(", got ");
            push_decimal(&mut message, round as i64);
            assert(message@ =~= wrong_round_message(cur, round));
            return Ok(
                Submission {
                    ack: GradientAck { accepted: false, message, next_round: cur },
                    batch: None,
                },
            );
        }
        let client_id = update.client_id.clone();
        let already = match self.round_participants.get(&round) {
            Some(p) => contains_id(p, &client_id),
            None => false,
        };
        proof {
            if self.round_participants@.contains_key(round) {
                assert(self.accepted_ids(cur) == string_views(self.round_participants@[round]@));
            }
        }
        if already {
            let message = "Already submitted for this round".to_owned();
            return Ok(
                Submission {
                    ack: GradientAck { accepted: false, message, next_round: cur },
                    batch: None,
                },
            );
        }
        let ghost old_buffer = self.buffer();
        let ghost old_participants = self.participants();
        let ghost old_accepted = self.accepted_ids(cur);
        let ghost old_buffered = self.buffered(cur);
        let mut buffered = match self.gradients_buffer.remove(&round) {
            Some(v) => v,
            None => Vec::new(),
        };
        buffered.push(update);
        let mut parts = match self.round_participants.remove(&round) {
            Some(v) => v,
            None => Vec::new(),
        };
        parts.push(client_id);
        assert(string_views(parts@) =~= old_accepted.push(update.client_id@));
        self.round_participants.insert(round, parts);
        assert(self.participants() =~= old_participants.insert(cur, old_accepted.push(update.client_id@)));
        let count = buffered.len();
        let mut message = String::new();
        message.append("Gradient received (");
        push_decimal_usize(&mut message, count);
        message.append("/");
        push_decimal(&mut message, self.aggregation_threshold as i64);
        message.append(")");
        assert(message@ =~= received_message(count as int, self.aggregation_threshold));
        assert(update_ids(buffered@) =~= update_ids(old_buffered).push(update.client_id@));
        if self.aggregation_threshold >= 0 && count >= self.aggregation_threshold as usize {
            let start = system_time_now();
            self.model_version = self.model_version + 1;
            self.current_round = self.current_round + 1;
            assert(self.buffer() =~= old_buffer.remove(cur));
            assert(update_ids(Seq::<GradientUpdate>::empty()) =~= Seq::<Seq<char>>::empty());
            let elapsed_ms = match millis_since(&start) {
                Some(ms) => ms,
                None => {
                    assert forall|r: i32| #[trigger] self.results().contains_key(r) implies {
                        &&& 0 <= r < self.round()
                        &&& self.results()[r].round_number == r
                        &&& self.participants().contains_key(r)
                        &&& self.results()[r].num_clients == client_count(
                            self.participants()[r].len() as int,
                        )
                    } by {
                        assert(old(self).results().contains_key(r));
                        assert(old(self).participants().contains_key(r));
                    }
                    return Err(SubmitError::ClockWentBackwards);
                },
            };
            let num_clients: i32 = if count <= i32::MAX as usize {
                count as i32
            } else {
                i32::MAX
            };
            let result = RoundResult {
                round_number: round,
                num_clients,
                avg_loss_bits: 0,
                avg_accuracy_bits: 0,
                aggregation_time_ms_bits: 0,
                byzantine_detected: 0,
            };
            self.round_results.insert(round, result);
            assert(self.results() == old(self).results().insert(cur, pending_result(cur, count as int)));
            assert forall|r: i32| #[trigger] self.results().contains_key(r) implies {
                &&& 0 <= r < self.round()
                &&& self.results()[r].round_number == r
                &&& self.participants().contains_key(r)
                &&& self.results()[r].num_clients == client_count(
                    self.participants()[r].len() as int,
                )
            } by {
                if r != cur {
                    assert(old(self).results().contains_key(r));
                    assert(old(self).participants().contains_key(r));
                }
            }
            Ok(
                Submission {
                    ack: GradientAck { accepted: true, message, next_round: self.current_round },
                    batch: Some(RoundBatch { run: self.run, round, gradients: buffered, elapsed_ms }),
                },
            )
        } else {
            self.gradients_buffer.insert(round, buffered);
            assert(self.buffer() =~= old_buffer.insert(cur, old_buffered.push(update)));
            assert(self.results() == old(self).results());
            assert forall|r: i32| #[trigger] self.results().contains_key(r) implies {
                &&& 0 <= r < self.round()
                &&& self.results()[r].round_number == r
                &&& self.participants().contains_key(r)
                &&& self.results()[r].num_clients == client_count(
                    self.participants()[r].len() as int,
                )
            } by {
                assert(old(self).results().contains_key(r));
                assert(old(self).participants().contains_key(r));
            }
            Ok(
                Submission {
                    ack: GradientAck { accepted: true, message, next_round: cur },
                    batch: None,
                },
            )
        }
    }
}

/// What a gradient submission does to the coordinator (`pre` to `post`)
/// and what it answers (`r`).
pub open spec fn submission_outcome(
    pre: CoordinatorState,
    post: CoordinatorState,
    update: GradientUpdate,
    r: Result<Submission, SubmitError>,
) -> bool {
    let cur = pre.round();
    let id = update.client_id@;
    &&& post.same_setup(&pre)
    &&& if update.round_number != cur {
        &&& r matches Ok(s) && {
            &&& !s.ack.accepted
            &&& s.ack.message@ == wrong_round_message(cur, update.round_number)
            &&& s.ack.next_round == cur
            &&& s.batch is None
        }
        &&& post == pre
    } else if pre.accepted_ids(cur).contains(id) {
        &&& r matches Ok(s) && {
            &&& !s.ack.accepted
            &&& s.ack.message@ == duplicate_message()
            &&& s.ack.next_round == cur
            &&& s.batch is None
        }
        &&& post == pre
    } else {
        let buffered = pre.buffered(cur).push(update);
        &&& post.participants() == pre.participants().insert(cur, pre.accepted_ids(cur).push(id))
        &&& if threshold_reached(buffered.len() as int, pre.threshold()) {
            &&& post.buffer() == pre.buffer().remove(cur)
            &&& post.round() == cur + 1
            &&& post.version() == pre.version() + 1
            &&& match r {
                Ok(s) => {
                    &&& s.ack.accepted
                    &&& s.ack.message@ == received_message(buffered.len() as int, pre.threshold())
                    &&& s.ack.next_round == cur + 1
                    &&& s.batch matches Some(b) && b.round_spec() == cur && b.gradients_spec()
                        == buffered && b.run_spec() == pre.run_spec()
                    &&& post.results() == pre.results().insert(
                        cur,
                        pending_result(cur, buffered.len() as int),
                    )
                },
                Err(e) => {
                    &&& e == SubmitError::ClockWentBackwards
                    &&& post.results() == pre.results()
                },
            }
        } else {
            &&& r matches Ok(s) && {
                &&& s.ack.accepted
                &&& s.ack.message@ == received_message(buffered.len() as int, pre.threshold())
                &&& s.ack.next_round == cur
                &&& s.batch is None
            }
            &&& post.results() == pre.results()
            &&& post.buffer() == pre.buffer().insert(cur, buffered)
            &&& post.round() == cur
            &&& post.version() == pre.version()
        }
    }
}

impl CoordinatorState {
    /// `self` and `other` agree on everything but the client registry.
    pub open spec fn same_rounds(&self, other: &CoordinatorState) -> bool {
        &&& self.round() == other.round()
        &&& self.version() == other.version()
        &&& self.model() == other.model()
        &&& self.buffer() == other.buffer()
        &&& self.participants() == other.participants()
        &&& self.results() == other.results()
        &&& self.config_spec() == other.config_spec()
        &&& self.threshold() == other.threshold()
        &&& self.total_rounds_spec() == other.total_rounds_spec()
    }

    /// Consistency carries over to a state that differs at most in the
    /// client registry (itself consistent) and the aggregation threshold.
    proof fn lemma_wf_frame(pre: CoordinatorState, post: CoordinatorState)
        requires
            pre.wf(),
            post.manager().wf(),
            post.round() == pre.round(),
            post.version() == pre.version(),
            post.model() == pre.model(),
            post.buffer() == pre.buffer(),
            post.participants() == pre.participants(),
            post.results() == pre.results(),
        ensures
            post.wf(),
    {
        assert forall|r: i32| #[trigger] post.buffer().contains_key(r) implies r == post.round() by {
            assert(pre.buffer().contains_key(r));
        }
        assert forall|r: i32| #[trigger] post.participants().contains_key(r) implies 0 <= r
            <= post.round() && post.participants()[r].no_duplicates() by {
            assert(pre.participants().contains_key(r));
        }
        assert forall|r: i32| #[trigger] post.results().contains_key(r) implies 0 <= r
            < post.round() && post.results()[r].round_number == r by {
            assert(pre.results().contains_key(r));
        }
    }

    /// Fills in the averages and the aggregation time of a completed round's
    /// result, once they have been computed over the round's gradients. A
    /// batch from another training run (one held across a reset), or for a
    /// round without a recorded result, is not recorded; the answer says
    /// whether the result was updated.
    pub fn complete_round(
        &mut self,
        batch: RoundBatch,
        avg_loss_bits: u32,
        avg_accuracy_bits: u32,
        aggregation_time_ms_bits: u32,
    ) -> (recorded: bool)
        requires
            old(self).wf(),
        ensures
            final(self).wf(),
            recorded == (batch.run_spec() == old(self).run_spec() && old(self).results().contains_key(
                batch.round_spec(),
            )),
            recorded ==> final(self).results() == old(self).results().insert(
                batch.round_spec(),
                RoundResult {
                    avg_loss_bits,
                    avg_accuracy_bits,
                    aggregation_time_ms_bits,
                    ..old(self).results()[batch.round_spec()]
                },
            ),
            !recorded ==> *final(self) == *old(self),
            final(self).same_setup(old(self)),
            final(self).round() == old(self).round(),
            final(self).version() == old(self).version(),
            final(self).buffer() == old(self).buffer(),
            final(self).participants() == old(self).participants(),
    {
        let round = batch.round;
        if batch.run != self.run {
            return false;
        }
        let prior = match self.round_results.get(&round) {
            Some(r) => *r,
            None => return false,
        };
        let result = RoundResult {
            avg_loss_bits,
            avg_accuracy_bits,
            aggregation_time_ms_bits,
            ..prior
        };
        self.round_results.insert(round, result);
        assert forall|r: i32| #[trigger] self.results().contains_key(r) implies {
            &&& 0 <= r < self.round()
            &&& self.results()[r].round_number == r
            &&& self.participants().contains_key(r)
            &&& self.results()[r].num_clients == client_count(
                self.participants()[r].len() as int,
            )
        } by {
            assert(old(self).results().contains_key(r));
        }
        assert forall|r: i32| #[trigger] self.buffer().contains_key(r) implies r == self.round() by {
            assert(old(self).buffer().contains_key(r));
        }
        assert forall|r: i32| #[trigger] self.participants().contains_key(r) implies 0 <= r
            <= self.round() && self.participants()[r].no_duplicates() by {
            assert(old(self).participants().contains_key(r));
        }
        true
    }

    /// Whether a registration of `client_id` may be made (see
    /// `ClientManager::can_register`).
    pub fn can_register(&self, client_id: &str) -> (r: bool)
        requires
            self.wf(),
        ensures
            r == (self.manager().admits(client_id@) ==> self.manager().has_counter_room()),
    {
        self.client_manager.can_register(client_id)
    }

    /// Whether `submit_gradients` may be called with `update`: only a
    /// submission that would complete a round needs room in the round counter.
    pub fn can_submit(&self, update: &GradientUpdate) -> (r: bool)
        requires
            self.wf(),
        ensures
            r == (self.round() < i32::MAX || !self.completes_round(*update)),
    {
        if self.current_round < i32::MAX {
            return true;
        }
        let round = update.round_number;
        if round != self.current_round {
            return true;
        }
        let already = match self.round_participants.get(&round) {
            Some(p) => contains_id(p, &update.client_id),
            None => false,
        };
        proof {
            if self.round_participants@.contains_key(round) {
                assert(self.accepted_ids(round) == string_views(self.round_participants@[round]@));
            }
        }
        if already {
            return true;
        }
        let count: usize = match self.gradients_buffer.get(&round) {
            Some(v) => v.len(),
            None => 0,
        };
        assert(count == self.buffered(round).len());
        !(self.aggregation_threshold >= 0 && count as i128 + 1 >= self.aggregation_threshold as i128)
    }

    /// Registers a client under the given session token.
    pub fn register_client_with_token(
        &mut self,
        registration: ClientRegistration,
        session_token: String,
    ) -> (r: Result<ClientRegistrationResponse, ClientError>)
        requires
            old(self).wf(),
            old(self).manager().admits(registration.client_id@) ==> old(self).manager().has_counter_room(),
        ensures
            final(self).wf(),
            final(self).same_rounds(old(self)),
            match r {
                Ok(resp) => {
                    &&& registration_outcome(
                        old(self).manager(),
                        final(self).manager(),
                        registration.client_id,
                        session_token,
                        registration.capabilities,
                        final(self).manager()@[registration.client_id@].registered_at,
                        Ok(resp.assigned_client_index),
                    )
                    &&& resp.success
                    &&& resp.session_token == session_token
                    &&& resp.message@ == registered_message(resp.assigned_client_index)
                },
                Err(e) => registration_outcome(
                    old(self).manager(),
                    final(self).manager(),
                    registration.client_id,
                    session_token,
                    registration.capabilities,
                    0,
                    Err(e),
                ),
            },
            r is Ok ==> clock_reading(final(self).manager()@[registration.client_id@].registered_at),
    {
        let token_copy = session_token.clone();
        let registered = self.client_manager.register(
            registration.client_id,
            token_copy,
            registration.capabilities,
        );
        proof {
            Self::lemma_wf_frame(*old(self), *self);
        }
        let client_index = registered?;
        let mut message = String::new();
        message.append("Successfully registered as client ");
        push_decimal(&mut message, client_index as i64);
        message.append(". Ready for training.");
        assert(message@ =~= registered_message(client_index));
        Ok(
            ClientRegistrationResponse {
                success: true,
                session_token,
                assigned_client_index: client_index,
                message,
            },
        )
    }

    /// Registers a client under a fresh random session token.
    pub fn register_client(&mut self, registration: ClientRegistration) -> (r: Result<
        ClientRegistrationResponse,
        ClientError,
    >)
        requires
            old(self).wf(),
            old(self).manager().admits(registration.client_id@) ==> old(self).manager().has_counter_room(),
        ensures
            final(self).wf(),
            final(self).same_rounds(old(self)),
            match r {
                Ok(resp) => {
                    &&& registration_outcome(
                        old(self).manager(),
                        final(self).manager(),
                        registration.client_id,
                        resp.session_token,
                        registration.capabilities,
                        final(self).manager()@[registration.client_id@].registered_at,
                        Ok(resp.assigned_client_index),
                    )
                    &&& resp.success
                    &&& resp.session_token@.len() == 36
                    &&& exists|bits: u128|
                        uuid_v4_layout(bits) && resp.session_token@ == #[trigger] uuid_text(bits)
                    &&& resp.message@ == registered_message(resp.assigned_client_index)
                },
                Err(e) => registration_outcome(
                    old(self).manager(),
                    final(self).manager(),
                    registration.client_id,
                    registration.client_id,
                    registration.capabilities,
                    0,
                    Err(e),
                ),
            },
            r is Ok ==> clock_reading(final(self).manager()@[registration.client_id@].registered_at),
    {
        let session_token = new_session_token();
        let ghost token_view = session_token@;
        let r = self.register_client_with_token(registration, session_token);
        proof {
            if r is Ok {
                let bits = choose|bits: u128| uuid_v4_layout(bits) && token_view == #[trigger] uuid_text(bits);
                assert(uuid_v4_layout(bits) && r->Ok_0.session_token@ == uuid_text(bits));
            }
        }
        r
    }

    /// Whether `token` is the session token of the active client `client_id`.
    pub fn validate_session(&self, client_id: &str, token: &str) -> (r: bool)
        requires
            self.wf(),
        ensures
            r == (self.manager()@.contains_key(client_id@)
                && self.manager()@[client_id@].session_token@ == token@
                && self.manager()@[client_id@].active),
    {
        self.client_manager.validate_session(client_id, token)
    }

    /// The current global model, whatever round was asked for.
    pub fn get_global_model(&self, requested_round: i32) -> (r: Result<ModelResponse, ClientError>)
        requires
            self.wf(),
        ensures
            r matches Ok(m) && {
                &&& m.round_number == self.round()
                &&& m.model_weights@ == self.model()
                &&& m.model_version == self.version()
                &&& m.metadata matches Some(md) && {
                    &&& md.total_parameters == self.model().len()
                    &&& md.model_architecture@ == "SimpleCNN"@
                    &&& md.learning_rate_bits == self.config_spec().learning_rate_bits
                    &&& md.batch_size == self.config_spec().batch_size
                }
            },
    {
        let weights = self.global_model.clone();
        assert(weights@ =~= self.global_model@);
        Ok(
            ModelResponse {
                round_number: self.current_round,
                model_weights: weights,
                model_version: self.model_version,
                metadata: Some(
                    ModelMetadata {
                        total_parameters: self.global_model.len() as i32,
                        model_architecture: "SimpleCNN".to_owned(),
                        learning_rate_bits: self.config.learning_rate_bits,
                        batch_size: self.config.batch_size,
                    },
                ),
            },
        )
    }

    /// Answers a heartbeat received at time `now`.
    pub fn process_heartbeat_at(&mut self, request: HeartbeatRequest, now: u64) -> (r: Result<
        HeartbeatResponse,
        ClientError,
    >)
        requires
            old(self).wf(),
        ensures
            final(self).wf(),
            final(self).same_rounds(old(self)),
            final(self).manager().same_counters(&old(self).manager()),
            if old(self).manager()@.contains_key(request.client_id@) {
                &&& final(self).manager()@ == old(self).manager()@.insert(
                    request.client_id@,
                    ClientInfo {
                        last_heartbeat: now,
                        ..old(self).manager()@[request.client_id@]
                    },
                )
                &&& r matches Ok(resp) && {
                    &&& resp.continue_training == (old(self).round()
                        < old(self).total_rounds_spec())
                    &&& resp.next_round == old(self).round()
                    &&& resp.message@ == heartbeat_message(
                        old(self).round(),
                        old(self).total_rounds_spec(),
                    )
                }
            } else {
                &&& r == Err::<HeartbeatResponse, ClientError>(ClientError::NotFound)
                &&& *final(self) == *old(self)
            },
    {
        let updated = self.client_manager.update_heartbeat_at(request.client_id.as_str(), now);
        proof {
            Self::lemma_wf_frame(*old(self), *self);
        }
        updated?;
        self.heartbeat_response()
    }

    /// Answers a heartbeat received now (system clock).
    pub fn process_heartbeat(&mut self, request: HeartbeatRequest) -> (r: Result<
        HeartbeatResponse,
        ClientError,
    >)
        requires
            old(self).wf(),
        ensures
            final(self).wf(),
            final(self).same_rounds(old(self)),
            final(self).manager().same_counters(&old(self).manager()),
            if old(self).manager()@.contains_key(request.client_id@) {
                &&& final(self).manager()@ == old(self).manager()@.insert(
                    request.client_id@,
                    ClientInfo {
                        last_heartbeat: final(self).manager()@[request.client_id@].last_heartbeat,
                        ..old(self).manager()@[request.client_id@]
                    },
                )
                &&& r matches Ok(resp) && {
                    &&& resp.continue_training == (old(self).round()
                        < old(self).total_rounds_spec())
                    &&& resp.next_round == old(self).round()
                    &&& resp.message@ == heartbeat_message(
                        old(self).round(),
                        old(self).total_rounds_spec(),
                    )
                }
            } else {
                &&& r == Err::<HeartbeatResponse, ClientError>(ClientError::NotFound)
                &&& *final(self) == *old(self)
            },
            old(self).manager()@.contains_key(request.client_id@) ==> clock_reading(
                final(self).manager()@[request.client_id@].last_heartbeat,
            ),
    {
        let updated = self.client_manager.update_heartbeat(request.client_id.as_str());
        proof {
            Self::lemma_wf_frame(*old(self), *self);
        }
        updated?;
        self.heartbeat_response()
    }

    /// Whether training continues, and the current round.
    fn heartbeat_response(&self) -> (r: Result<HeartbeatResponse, ClientError>)
        ensures
            r matches Ok(resp) && {
                &&& resp.continue_training == (self.round() < self.total_rounds_spec())
                &&& resp.next_round == self.round()
                &&& resp.message@ == heartbeat_message(self.round(), self.total_rounds_spec())
            },
    {
        let continue_training = self.current_round < self.total_rounds;
        let mut message = String::new();
        if continue_training {
            message.append("Training in progress (round ");
            push_decimal(&mut message, self.current_round as i64);
            message.append("/");
            push_decimal(&mut message, self.total_rounds as i64);
            message.append(")");
        } else {
            message.append("Training complete");
        }
        assert(message@ =~= heartbeat_message(self.current_round, self.total_rounds));
        Ok(HeartbeatResponse { continue_training, next_round: self.current_round, message })
    }

    /// The training configuration.
    pub fn get_config(&self) -> (c: TrainingConfig)
        ensures
            c == self.config_spec(),
    {
        self.config
    }

    /// The current round number.
    pub fn get_current_round(&self) -> (r: i32)
        ensures
            r == self.round(),
    {
        self.current_round
    }

    /// The number of active clients.
    pub fn get_active_client_count(&self) -> (r: usize)
        requires
            self.wf(),
        ensures
            r == crate::client_table::active_ids(self.manager()@).len(),
    {
        self.client_manager.get_active_count()
    }

    /// Results of the completed rounds, in round order.
    pub fn get_round_results(&self) -> (r: Vec<RoundResult>)
        requires
            self.wf(),
        ensures
            results_in_order(r@, self.results()),
    {
        let mut r: Vec<RoundResult> = Vec::new();
        let mut k: i32 = 0;
        while k < self.current_round
            invariant
                self.wf(),
                0 <= k <= self.round(),
                forall|i: int|
                    0 <= i < r@.len() ==> self.results().contains_key(#[trigger] r@[i].round_number)
                        && self.results()[r@[i].round_number] == r@[i] && r@[i].round_number < k,
                forall|j: i32|
                    0 <= j < k && #[trigger] self.results().contains_key(j) ==> exists|i: int|
                        0 <= i < r@.len() && r@[i].round_number == j,
                forall|a: int, b: int|
                    0 <= a < b < r@.len() ==> r@[a].round_number < r@[b].round_number,
            decreases self.round() - k,
        {
            match self.round_results.get(&k) {
                Some(res) => {
                    let ghost prev = r@;
                    r.push(*res);
                    assert forall|j: i32|
                        0 <= j < k + 1 && #[trigger] self.results().contains_key(j) implies exists|
                        i: int,
                    | 0 <= i < r@.len() && r@[i].round_number == j by {
                        if j < k {
                            let i = choose|i: int| 0 <= i < prev.len() && prev[i].round_number == j;
                            assert(r@[i] == prev[i]);
                        } else {
                            assert(r@[r@.len() - 1].round_number == j);
                        }
                    }
                },
                None => {},
            }
            k = k + 1;
        }
        r
    }

    /// Deactivates, at time `now`, the clients whose heartbeat timed out.
    pub fn cleanup_inactive_clients_at(&mut self, timeout_secs: u64, now: u64)
        requires
            old(self).wf(),
            heartbeats_not_after(old(self).manager()@, now),
        ensures
            final(self).wf(),
            final(self).same_rounds(old(self)),
            final(self).manager().same_counters(&old(self).manager()),
            final(self).manager()@ == cleaned(old(self).manager()@, timeout_secs, now),
    {
        self.client_manager.cleanup_inactive_at(timeout_secs, now);
        proof {
            Self::lemma_wf_frame(*old(self), *self);
        }
    }

    /// Deactivates, using the system clock, the clients whose heartbeat timed
    /// out (see `ClientManager::cleanup_inactive`).
    pub fn cleanup_inactive_clients(&mut self, timeout_secs: u64)
        requires
            old(self).wf(),
        ensures
            final(self).wf(),
            final(self).same_rounds(old(self)),
            final(self).manager().same_counters(&old(self).manager()),
            exists|now: u64|
                clock_reading(now) && #[trigger] cleanup_outcome(
                    old(self).manager(),
                    final(self).manager(),
                    timeout_secs,
                    now,
                ),
    {
        self.client_manager.cleanup_inactive(timeout_secs);
        proof {
            Self::lemma_wf_frame(*old(self), *self);
        }
    }

    /// Starts a new training run: round and model version back to 0, the
    /// initial model, and no buffered gradients, participants or results.
    /// Clients and configuration are kept; batches handed out before the
    /// reset belong to the previous run.
    pub fn reset(&mut self)
        requires
            old(self).wf(),
        ensures
            final(self).wf(),
            final(self).round() == 0,
            final(self).version() == 0,
            final(self).model() == initial_model(),
            final(self).buffer() == Map::<i32, Seq<GradientUpdate>>::empty(),
            final(self).participants() == Map::<i32, Seq<Seq<char>>>::empty(),
            final(self).results() == Map::<i32, RoundResult>::empty(),
            final(self).run_spec() == next_run(old(self).run_spec()),
            final(self).manager() == old(self).manager(),
            final(self).config_spec() == old(self).config_spec(),
            final(self).threshold() == old(self).threshold(),
            final(self).total_rounds_spec() == old(self).total_rounds_spec(),
    {
        self.run = if self.run < u64::MAX {
            self.run + 1
        } else {
            0
        };
        self.current_round = 0;
        self.model_version = 0;
        self.global_model = Self::initialize_model();
        self.gradients_buffer.clear();
        self.round_participants.clear();
        self.round_results.clear();
        assert(self.buffer() =~= Map::<i32, Seq<GradientUpdate>>::empty());
        assert(self.participants() =~= Map::<i32, Seq<Seq<char>>>::empty());
        assert(update_ids(Seq::<GradientUpdate>::empty()) =~= Seq::<Seq<char>>::empty());
    }

    /// Sets the number of gradients that triggers aggregation.
    pub fn set_aggregation_threshold(&mut self, threshold: i32)
        requires
            old(self).wf(),
        ensures
            final(self).wf(),
            final(self).threshold() == threshold,
            final(self).round() == old(self).round(),
            final(self).version() == old(self).version(),
            final(self).model() == old(self).model(),
            final(self).buffer() == old(self).buffer(),
            final(self).participants() == old(self).participants(),
            final(self).results() == old(self).results(),
            final(self).manager() == old(self).manager(),
            final(self).config_spec() == old(self).config_spec(),
            final(self).total_rounds_spec() == old(self).total_rounds_spec(),
    {
        self.aggregation_threshold = threshold;
        proof {
            Self::lemma_wf_frame(*old(self), *self);
        }
    }
}

impl Default for CoordinatorState {
    /// A coordinator with the default configuration.
    fn default() -> (s: Self)
        ensures
            s.wf(),
            s.round() == 0,
            s.model() == initial_model(),
            s.config_spec() == default_training_config(),
            s.threshold() == 3,
    {
        Self::new()
    }
}

/// In a consistent coordinator the model version equals the current round,
/// results are recorded only for rounds before the current one (since the
/// last reset), each with the client count of the clients accepted in that
/// round, the gradients waiting in the buffer all belong to the current
/// round and come from pairwise different clients, and no client is
/// recorded twice as a participant of a round.
pub proof fn lemma_round_bookkeeping(s: &CoordinatorState)
    requires
        s.wf(),
    ensures
        s.version() == s.round(),
        forall|r: i32|
            #[trigger] s.results().contains_key(r) ==> 0 <= r < s.round()
                && s.results()[r].round_number == r && s.participants().contains_key(r)
                && s.results()[r].num_clients == client_count(s.participants()[r].len() as int),
        forall|i: int|
            0 <= i < s.buffered(s.round()).len() ==> (#[trigger] s.buffered(s.round())[i]).round_number
                == s.round(),
        update_ids(s.buffered(s.round())).no_duplicates(),
        forall|r: i32| #[trigger] s.participants().contains_key(r) ==> s.participants()[r].no_duplicates(),
{
    if s.participants().contains_key(s.round()) {
        assert(s.participants()[s.round()].no_duplicates());
    } else {
        assert(update_ids(s.buffered(s.round())) =~= Seq::<Seq<char>>::empty());
    }
}

/// A submission advances the round by one exactly when it completes the
/// round, and otherwise leaves it; the model version moves with the round.
/// A successful submission answers with the round that is current
/// afterwards and hands out gradients exactly when the round advanced; a
/// refused one changes nothing; an accepted one was for the current round,
/// and when it does not complete the round it waits at the end of the
/// round's buffer. A failed submission completed the round, whose gradients
/// left the buffer, without recording a result.
pub proof fn lemma_submission_progress(
    pre: CoordinatorState,
    post: CoordinatorState,
    update: GradientUpdate,
    r: Result<Submission, SubmitError>,
)
    requires
        pre.wf(),
        submission_outcome(pre, post, update, r),
    ensures
        post.round() == pre.round() || post.round() == pre.round() + 1,
        (post.round() == pre.round() + 1) == pre.completes_round(update),
        post.version() - pre.version() == post.round() - pre.round(),
        r matches Ok(s) ==> {
            &&& s.ack.next_round == post.round()
            &&& (post.round() == pre.round() + 1) == (s.batch is Some)
            &&& !s.ack.accepted ==> post == pre
            &&& s.ack.accepted ==> update.round_number == pre.round()
            &&& s.ack.accepted && s.batch is None ==> {
                &&& post.buffered(pre.round()).len() == pre.buffered(pre.round()).len() + 1
                &&& post.buffered(pre.round()).last() == update
            }
        },
        r is Err ==> {
            &&& pre.completes_round(update)
            &&& post.round() == pre.round() + 1
            &&& post.buffer() == pre.buffer().remove(pre.round())
            &&& post.results() == pre.results()
        },
{
}

/// A submission completes the round exactly when it is for the current
/// round, comes from a client not yet accepted in it, the threshold is not
/// negative, and the round's buffered gradients including this one number
/// at least the threshold. An accepted submission that leaves the count
/// below the threshold (or meets a negative threshold) keeps the round,
/// the model version and the results, hands out no gradients and buffers
/// the submission; one that reaches it advances the round and the version
/// by one and empties the round's buffer.
pub proof fn lemma_threshold_decides_completion(
    pre: CoordinatorState,
    post: CoordinatorState,
    update: GradientUpdate,
    r: Result<Submission, SubmitError>,
)
    requires
        pre.wf(),
        submission_outcome(pre, post, update, r),
    ensures
        pre.completes_round(update) <==> (update.round_number == pre.round()
            && !pre.accepted_ids(pre.round()).contains(update.client_id@) && pre.threshold() >= 0
            && pre.buffered(pre.round()).len() + 1 >= pre.threshold()),
        ({
            let cur = pre.round();
            let count = pre.buffered(cur).len() + 1;
            update.round_number == cur && !pre.accepted_ids(cur).contains(update.client_id@) ==> {
                &&& (pre.threshold() < 0 || count < pre.threshold()) ==> {
                    &&& post.round() == cur
                    &&& post.version() == pre.version()
                    &&& post.results() == pre.results()
                    &&& post.buffered(cur) == pre.buffered(cur).push(update)
                    &&& r matches Ok(s) && s.ack.accepted && s.batch is None && s.ack.next_round
                        == cur
                }
                &&& (pre.threshold() >= 0 && count >= pre.threshold()) ==> {
                    &&& post.round() == cur + 1
                    &&& post.version() == pre.version() + 1
                    &&& !post.buffer().contains_key(cur)
                    &&& r matches Ok(s) ==> s.ack.accepted && s.ack.next_round == cur + 1
                        && s.batch is Some
                }
            }
        }),
{
}

/// The gradients handed out for a completed round are the round's accepted
/// gradients, ending with the submission that completed it: at least as many
/// as the threshold, all for that round, from pairwise different clients,
/// which stay recorded as the round's participants.
pub proof fn lemma_batch_contents(
    pre: CoordinatorState,
    post: CoordinatorState,
    update: GradientUpdate,
    r: Result<Submission, SubmitError>,
)
    requires
        pre.wf(),
        submission_outcome(pre, post, update, r),
        r matches Ok(s) && s.batch is Some,
    ensures
        ({
            let b = r->Ok_0.batch->0;
            &&& b.round_spec() == pre.round()
            &&& b.run_spec() == pre.run_spec()
            &&& post.results().contains_key(b.round_spec())
            &&& post.results()[b.round_spec()].num_clients == client_count(
                b.gradients_spec().len() as int,
            )
            &&& threshold_reached(b.gradients_spec().len() as int, pre.threshold())
            &&& b.gradients_spec().last() == update
            &&& forall|i: int|
                0 <= i < b.gradients_spec().len() ==> (#[trigger] b.gradients_spec()[i]).round_number
                    == b.round_spec()
            &&& update_ids(b.gradients_spec()).no_duplicates()
            &&& post.participants().contains_key(b.round_spec())
            &&& post.participants()[b.round_spec()] == update_ids(b.gradients_spec())
        }),
{
    lemma_round_bookkeeping(&pre);
    let b = r->Ok_0.batch->0;
    let cur = pre.round();
    assert(update_ids(b.gradients_spec()) =~= pre.accepted_ids(cur).push(update.client_id@));
    assert forall|i: int| 0 <= i < b.gradients_spec().len() implies (#[trigger] b.gradients_spec()[
        i
    ]).round_number == b.round_spec() by {
        if i < pre.buffered(cur).len() {
            assert(b.gradients_spec()[i] == pre.buffered(cur)[i]);
        }
    }
    assert(update_ids(b.gradients_spec()).no_duplicates()) by {
        let ids = update_ids(b.gradients_spec());
        let a = pre.accepted_ids(cur);
        assert forall|i: int, j: int| 0 <= i < ids.len() && 0 <= j < ids.len() && i != j implies ids[i]
            != ids[j] by {
            if i < a.len() && j < a.len() {
                assert(ids[i] == a[i] && ids[j] == a[j]);
            } else if i < a.len() {
                assert(ids[i] == a[i]);
                assert(a.contains(a[i]));
            } else if j < a.len() {
                assert(ids[j] == a[j]);
                assert(a.contains(a[j]));
            }
        }
    }
}

/// Whether `id` occurs in `v`.
fn contains_id(v: &Vec<String>, id: &String) -> (r: bool)
    ensures
        r == string_views(v@).contains(id@),
{
    let n = v.len();
    let mut i: usize = 0;
    while i < n
        invariant
            n == v@.len(),
            i <= n,
            forall|k: int| 0 <= k < i ==> v@[k]@ != id@,
        decreases n - i,
    {
        if v[i] == *id {
            assert(string_views(v@)[i as int] == id@);
            return true;
        }
        i = i + 1;
    }
    assert forall|k: int| 0 <= k < string_views(v@).len() implies string_views(v@)[k] != id@ by {
        assert(string_views(v@)[k] == v@[k]@);
    }
    false
}

} // verus!
