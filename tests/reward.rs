use lle_core::reward::{
    REWARD_AGENT_DIED, REWARD_AGENT_JUST_ARRIVED, REWARD_END_GAME, REWARD_GEM_COLLECTED,
};
use lle_core::{RewardEvent, TeamReward};

fn gem(agent_id: usize) -> RewardEvent {
    RewardEvent::GemCollected { agent_id }
}

fn exit(agent_id: usize) -> RewardEvent {
    RewardEvent::AgentExit { agent_id }
}

fn died(agent_id: usize) -> RewardEvent {
    RewardEvent::AgentDied { agent_id }
}

#[test]
fn new_aggregator_is_empty() {
    let mut r = TeamReward::new(3);
    assert_eq!(r.n_agents(), 3);
    assert_eq!(r.episode_gems_collected(), 0);
    assert_eq!(r.episode_agents_arrived(), 0);
    assert_eq!(r.consume_step_reward(), 0);
}

#[test]
fn gem_then_two_exits() {
    let mut r = TeamReward::new(3);
    r.update(&gem(0));
    r.update(&exit(0));
    r.update(&exit(1));
    assert_eq!(
        r.consume_step_reward(),
        REWARD_GEM_COLLECTED + 2 * REWARD_AGENT_JUST_ARRIVED
    );
    assert_eq!(r.consume_step_reward(), 0);
    assert_eq!(r.episode_gems_collected(), 1);
    assert_eq!(r.episode_agents_arrived(), 2);
}

#[test]
fn all_agents_exit_in_one_step() {
    let mut r = TeamReward::new(3);
    r.notify_old(exit(0));
    r.notify_old(exit(1));
    r.notify_old(exit(2));
    assert_eq!(
        r.consume_step_reward(),
        3 * REWARD_AGENT_JUST_ARRIVED + REWARD_END_GAME
    );
    assert_eq!(r.episode_agents_arrived(), 3);
}

#[test]
fn all_agents_exit_over_several_steps() {
    let mut r = TeamReward::new(2);
    r.update(&exit(0));
    assert_eq!(r.consume_step_reward(), REWARD_AGENT_JUST_ARRIVED);
    r.update(&exit(1));
    assert_eq!(
        r.consume_step_reward(),
        REWARD_AGENT_JUST_ARRIVED + REWARD_END_GAME
    );
    assert_eq!(r.episode_agents_arrived(), 2);
}

#[test]
fn gem_death_exit() {
    let mut r = TeamReward::new(3);
    r.update(&gem(0));
    r.update(&died(1));
    r.update(&exit(2));
    assert_eq!(r.consume_step_reward(), -1);
    assert_eq!(r.episode_gems_collected(), 1);
    assert_eq!(r.episode_agents_arrived(), 0);
}

#[test]
fn two_deaths_in_one_step() {
    let mut r = TeamReward::new(3);
    r.update(&gem(0));
    r.update(&exit(0));
    r.update(&died(1));
    r.update(&died(2));
    assert_eq!(r.consume_step_reward(), -2);
    assert_eq!(r.consume_step_reward(), 0);
}

#[test]
fn single_death_reward_is_penalty() {
    let mut r = TeamReward::new(2);
    r.update(&died(0));
    assert_eq!(r.consume_step_reward(), REWARD_AGENT_DIED);
}

#[test]
fn reset_clears_counters_and_keeps_team_size() {
    let mut r = TeamReward::new(3);
    r.update(&gem(0));
    r.update(&exit(1));
    r.update(&died(2));
    r.reset();
    assert_eq!(r.n_agents(), 3);
    assert_eq!(r.episode_gems_collected(), 0);
    assert_eq!(r.episode_agents_arrived(), 0);
    assert_eq!(r.consume_step_reward(), 0);
}

#[test]
fn clone_is_independent() {
    let mut r = TeamReward::new(3);
    r.update(&gem(0));
    let mut c = r.clone();
    c.update(&gem(1));
    assert_eq!(r.episode_gems_collected(), 1);
    assert_eq!(c.episode_gems_collected(), 2);
    assert_eq!(r.consume_step_reward(), REWARD_GEM_COLLECTED);
    assert_eq!(c.consume_step_reward(), 2 * REWARD_GEM_COLLECTED);
}
