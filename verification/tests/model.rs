//! The exhaustive exploration of a small cluster.
use ccdb::model::{check, ModelConfig, ModelError};

#[test]
fn bounded_real_raft_state_space_is_safe() {
    let report = check(ModelConfig {
        max_log: 1,
        max_term: 1,
        max_messages: 1,
        max_depth: 6,
        max_states: 250_000,
    })
    .expect("bounded model");
    assert!(report.explored_states > 10);
    assert!(report.explored_transitions >= report.explored_states as u64);
}

#[test]
fn few_states_need_no_bound_on_the_depth() {
    let cramped = ModelConfig {
        max_depth: usize::MAX,
        max_states: 3,
        ..ModelConfig::default()
    };
    assert!(matches!(
        check(cramped),
        Err(ModelError::StateLimit { limit: 3, .. })
    ));
}
