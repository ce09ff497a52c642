use vstd::prelude::*;

verus! {

/// Index of an agent in a world state's position sequence.
pub type AgentId = usize;

/// Reward for collecting one gem.
pub const REWARD_GEM_COLLECTED: i32 = 1;

/// Reward for one agent reaching an exit tile.
pub const REWARD_AGENT_JUST_ARRIVED: i32 = 1;

/// Bonus granted when the last agent of the team has exited.
pub const REWARD_END_GAME: i32 = 1;

/// Penalty for the death of one agent.
pub const REWARD_AGENT_DIED: i32 = -1;

/// An event emitted by the simulation during a step.
#[derive(Clone, Copy, Debug, PartialEq, Eq, Structural)]
pub enum RewardEvent {
    AgentExit { agent_id: AgentId },
    GemCollected { agent_id: AgentId },
    AgentDied { agent_id: AgentId },
}

/// Mathematical state of a team reward aggregator.
pub struct TeamRewardView {
    pub step_reward: int,
    pub n_dead: nat,
    pub gems_collected: nat,
    pub agents_arrived: nat,
    pub n_agents: nat,
}

/// The state of an aggregator freshly created (or reset) for a team of `n_agents`.
pub open spec fn fresh_state(n_agents: nat) -> TeamRewardView {
    TeamRewardView { step_reward: 0, n_dead: 0, gems_collected: 0, agents_arrived: 0, n_agents }
}

/// The effect of one event on the aggregator.
///
/// A death voids the positive reward of the step and adds the death penalty.
/// Once an agent has died in the step, other events are dropped entirely.
/// Otherwise a gem or an exit is counted for the episode and rewarded; the exit
/// of the last agent of the team also earns the end-of-game bonus.
pub open spec fn apply_event(s: TeamRewardView, e: RewardEvent) -> TeamRewardView {
    match e {
        RewardEvent::AgentDied { .. } => TeamRewardView {
            n_dead: s.n_dead + 1,
            step_reward: (if s.step_reward < 0 { s.step_reward } else { 0 })
                + REWARD_AGENT_DIED,
            ..s
        },
        RewardEvent::AgentExit { .. } => if s.n_dead > 0 {
            s
        } else {
            TeamRewardView {
                agents_arrived: s.agents_arrived + 1,
                step_reward: s.step_reward + REWARD_AGENT_JUST_ARRIVED + (if s.agents_arrived
                    + 1 == s.n_agents {
                    REWARD_END_GAME as int
                } else {
                    0
                }),
                ..s
            }
        },
        RewardEvent::GemCollected { .. } => if s.n_dead > 0 {
            s
        } else {
            TeamRewardView {
                gems_collected: s.gems_collected + 1,
                step_reward: s.step_reward + REWARD_GEM_COLLECTED,
                ..s
            }
        },
    }
}

/// The reward of the current step: minus the number of deaths if any agent
/// died, otherwise the accumulated reward.
pub open spec fn step_outcome(s: TeamRewardView) -> int {
    if s.n_dead > 0 {
        -(s.n_dead as int)
    } else {
        s.step_reward
    }
}

/// The state after the step reward has been consumed: step counters cleared,
/// episode counters kept.
pub open spec fn after_consume(s: TeamRewardView) -> TeamRewardView {
    TeamRewardView { step_reward: 0, n_dead: 0, ..s }
}

/// Recording event `e` in state `s` keeps every counter within its machine
/// type: only what the event actually changes is bounded.
pub open spec fn can_apply(s: TeamRewardView, e: RewardEvent) -> bool {
    match e {
        RewardEvent::AgentDied { .. } => s.n_dead < i32::MAX && s.step_reward >= i32::MIN + 1,
        RewardEvent::GemCollected { .. } => s.n_dead > 0 || (s.gems_collected < u32::MAX
            && s.step_reward + REWARD_GEM_COLLECTED <= i32::MAX),
        RewardEvent::AgentExit { .. } => s.n_dead > 0 || (s.agents_arrived < u32::MAX
            && s.step_reward + REWARD_AGENT_JUST_ARRIVED + (if s.agents_arrived + 1 == s.n_agents {
            REWARD_END_GAME as int
        } else {
            0
        }) <= i32::MAX),
    }
}

/// Aggregates the events of a simulation step into one team reward, and counts
/// gems collected and agents arrived over the episode.
#[derive(Debug)]
pub struct TeamReward {
    step_reward: i32,
    n_dead: u32,
    episode_gems_collected: u32,
    episode_agents_arrived: u32,
    n_agents: u32,
}

impl View for TeamReward {
    type V = TeamRewardView;

    closed spec fn view(&self) -> TeamRewardView {
        TeamRewardView {
            step_reward: self.step_reward as int,
            n_dead: self.n_dead as nat,
            gems_collected: self.episode_gems_collected as nat,
            agents_arrived: self.episode_agents_arrived as nat,
            n_agents: self.n_agents as nat,
        }
    }
}

impl TeamReward {
    /// Well-formedness: the number of deaths of a step can always be negated as an `i32`.
    pub closed spec fn wf(&self) -> bool {
        self.n_dead <= i32::MAX
    }

    pub fn new(n_agents: u32) -> (r: Self)
        ensures
            r.wf(),
            r@ == fresh_state(n_agents as nat),
    {
        TeamReward {
            step_reward: 0,
            n_dead: 0,
            episode_gems_collected: 0,
            episode_agents_arrived: 0,
            n_agents,
        }
    }

    /// Records one event of the current step.
    pub fn update(&mut self, event: &RewardEvent)
        requires
            old(self).wf(),
            can_apply(old(self)@, *event),
        ensures
            final(self).wf(),
            final(self)@ == apply_event(old(self)@, *event),
    {
        if let RewardEvent::AgentDied { .. } = event {
            self.n_dead = self.n_dead + 1;
            let r: i32 = if self.step_reward < 0 { self.step_reward } else { 0 };
            self.step_reward = r + REWARD_AGENT_DIED;
            return;
        }
        // After a death in this step, no further reward accrues.
        if self.n_dead > 0 {
            return;
        }
        let event_reward: i32 = match event {
            RewardEvent::AgentExit { .. } => {
                self.episode_agents_arrived = self.episode_agents_arrived + 1;
                if self.episode_agents_arrived == self.n_agents {
                    REWARD_AGENT_JUST_ARRIVED + REWARD_END_GAME
                } else {
                    REWARD_AGENT_JUST_ARRIVED
                }
            },
            RewardEvent::GemCollected { .. } => {
                self.episode_gems_collected = self.episode_gems_collected + 1;
                REWARD_GEM_COLLECTED
            },
            // Deaths were handled above.
            RewardEvent::AgentDied { .. } => 0,
        };
        self.step_reward = self.step_reward + event_reward;
    }

    /// Records one event of the current step (same as `update`, taking the event by value).
    pub fn notify_old(&mut self, event: RewardEvent)
        requires
            old(self).wf(),
            can_apply(old(self)@, event),
        ensures
            final(self).wf(),
            final(self)@ == apply_event(old(self)@, event),
    {
        self.update(&event);
    }

    /// Returns the reward of the step and clears the step counters.
    pub fn consume_step_reward(&mut self) -> (r: i32)
        requires
            old(self).wf(),
        ensures
            final(self).wf(),
            r as int == step_outcome(old(self)@),
            final(self)@ == after_consume(old(self)@),
    {
        let n_deads = self.n_dead;
        let reward = self.step_reward;
        self.n_dead = 0;
        self.step_reward = 0;
        if n_deads > 0 {
            return -(n_deads as i32);
        }
        reward
    }

    pub fn episode_gems_collected(&self) -> (r: u32)
        ensures
            r as nat == self@.gems_collected,
    {
        self.episode_gems_collected
    }

    pub fn episode_agents_arrived(&self) -> (r: u32)
        ensures
            r as nat == self@.agents_arrived,
    {
        self.episode_agents_arrived
    }

    /// The size of the team.
    pub fn n_agents(&self) -> (r: u32)
        ensures
            r as nat == self@.n_agents,
    {
        self.n_agents
    }

    /// Clears the step and episode counters; the team size is kept.
    pub fn reset(&mut self)
        ensures
            final(self).wf(),
            final(self)@ == fresh_state(old(self)@.n_agents),
    {
        self.n_dead = 0;
        self.step_reward = 0;
        self.episode_agents_arrived = 0;
        self.episode_gems_collected = 0;
    }
}

impl Clone for TeamReward {
    fn clone(&self) -> (r: Self)
        ensures
            r@ == self@,
            r.wf() == self.wf(),
    {
        TeamReward {
            step_reward: self.step_reward,
            n_dead: self.n_dead,
            episode_gems_collected: self.episode_gems_collected,
            episode_agents_arrived: self.episode_agents_arrived,
            n_agents: self.n_agents,
        }
    }
}

/// After a reset, consuming the step reward yields zero, and the team size is
/// the one the aggregator had before.
pub proof fn lemma_reset_then_consume_is_zero(s: TeamRewardView)
    ensures
        step_outcome(fresh_state(s.n_agents)) == 0,
        fresh_state(s.n_agents).n_agents == s.n_agents,
        fresh_state(s.n_agents).gems_collected == 0,
        fresh_state(s.n_agents).agents_arrived == 0,
{
}

/// The state after a sequence of events, applied in order.
pub open spec fn apply_events(s: TeamRewardView, es: Seq<RewardEvent>) -> TeamRewardView
    decreases es.len(),
{
    if es.len() == 0 {
        s
    } else {
        apply_event(apply_events(s, es.drop_last()), es.last())
    }
}

/// The number of deaths in a sequence of events.
pub open spec fn count_deaths(es: Seq<RewardEvent>) -> nat
    decreases es.len(),
{
    if es.len() == 0 {
        0
    } else {
        count_deaths(es.drop_last()) + if es.last() is AgentDied {
            1nat
        } else {
            0nat
        }
    }
}

proof fn lemma_deaths_counted(s: TeamRewardView, es: Seq<RewardEvent>)
    ensures
        apply_events(s, es).n_dead == s.n_dead + count_deaths(es),
    decreases es.len(),
{
    if es.len() > 0 {
        lemma_deaths_counted(s, es.drop_last());
    }
}

/// Whenever agents died during a step, the step reward is minus the number of
/// deaths, whatever other events the step held and in whatever order.
pub proof fn lemma_deaths_decide_step_reward(s: TeamRewardView, es: Seq<RewardEvent>)
    requires
        s.n_dead == 0,
        count_deaths(es) > 0,
    ensures
        step_outcome(apply_events(s, es)) == -(count_deaths(es) as int),
{
    lemma_deaths_counted(s, es);
}

/// Once an agent has died in a step, events other than deaths change nothing.
pub proof fn lemma_events_after_death_are_dropped(s: TeamRewardView, e: RewardEvent)
    requires
        s.n_dead > 0,
        !(e is AgentDied),
    ensures
        apply_event(s, e) == s,
{
}

/// Consuming the step reward keeps the episode counters and the team size.
pub proof fn lemma_consume_keeps_episode_counters(s: TeamRewardView)
    ensures
        after_consume(s).gems_collected == s.gems_collected,
        after_consume(s).agents_arrived == s.agents_arrived,
        after_consume(s).n_agents == s.n_agents,
        step_outcome(after_consume(s)) == 0,
{
}

} // verus!
