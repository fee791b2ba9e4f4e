//! The stored records of the bot: registrations, guild settings, pools,
//! catalog teams, results and tie-breaker picks.
use vstd::prelude::*;

use crate::scoring::FinishedMatch;
use crate::text::{spec_uppercase, uppercase};

verus! {

/// A team claimed by a user.
#[derive(Debug, Clone)]
pub struct Registration {
    pub user_id: u64,
    pub team_id: i64,
    pub team_name: String,
}

/// Bot-wide settings.
#[derive(Debug, Clone, Copy)]
pub struct BotConfig {
    pub active_pool_id: i64,
}

/// A user's tie-breaker player.
#[derive(Debug, Clone)]
pub struct TiebreakerPick {
    pub user_id: u64,
    pub player_id: i64,
    pub player_name: String,
    pub team_id: i64,
    pub team_name: String,
}

/// A guild's settings: the pool its commands act on.
#[derive(Debug, Clone, Copy)]
pub struct GuildConfig {
    pub guild_id: u64,
    pub default_pool_id: i64,
}

/// A guild's pool on a season.
#[derive(Debug, Clone, Copy)]
pub struct Pool {
    pub id: i64,
    pub guild_id: u64,
    pub season_id: i64,
    pub announce_channel_id: Option<u64>,
}

/// A pool with its season and league.
#[derive(Debug, Clone)]
pub struct PoolMeta {
    pub pool: Pool,
    pub season_id: i64,
    pub external_season_id: String,
    pub league_slug: String,
    pub league_name: String,
}

/// A pool with its league.
#[derive(Debug, Clone)]
pub struct PoolLeague {
    pub pool: Pool,
    pub league_slug: String,
    pub league_name: String,
}

/// A team of a league's stored catalog.
#[derive(Debug, Clone)]
pub struct Team {
    pub league_id: i64,
    pub team_id: i64,
    pub name: String,
    pub short_name: Option<String>,
    pub code: Option<String>,
}

/// A stored World Cup result.
#[derive(Debug, Clone)]
pub struct WcMatchResult {
    pub season_id: i64,
    pub match_id: i64,
    pub home_team_id: i64,
    pub away_team_id: i64,
    pub home_goals: i64,
    pub away_goals: i64,
    pub stage: Option<String>,
}

impl WcMatchResult {
    /// The result as a finished match for scoring.
    pub fn as_finished_match(&self) -> (r: FinishedMatch)
        ensures
            r == (FinishedMatch {
                home_team_id: self.home_team_id,
                away_team_id: self.away_team_id,
                home_goals: self.home_goals,
                away_goals: self.away_goals,
            }),
    {
        FinishedMatch {
            home_team_id: self.home_team_id,
            away_team_id: self.away_team_id,
            home_goals: self.home_goals,
            away_goals: self.away_goals,
        }
    }
}

/// A stored NFL result.
#[derive(Debug, Clone)]
pub struct NflMatchResult {
    pub season_id: i64,
    pub game_id: i64,
    pub home_team_id: i64,
    pub away_team_id: i64,
    pub home_score: i64,
    pub away_score: i64,
    pub finished_at: Option<String>,
}

impl NflMatchResult {
    /// The result as a finished match for scoring: points stand for goals.
    pub fn as_finished_match(&self) -> (r: FinishedMatch)
        ensures
            r == (FinishedMatch {
                home_team_id: self.home_team_id,
                away_team_id: self.away_team_id,
                home_goals: self.home_score,
                away_goals: self.away_score,
            }),
    {
        FinishedMatch {
            home_team_id: self.home_team_id,
            away_team_id: self.away_team_id,
            home_goals: self.home_score,
            away_goals: self.away_score,
        }
    }
}

/// A World Cup tie-breaker pick as shown.
#[derive(Debug, Clone)]
pub struct WcTiebreakerPick {
    pub player_id: i64,
    pub player_name: String,
    pub team_name: String,
}

/// A World Cup player's goal total.
#[derive(Debug, Clone)]
pub struct WcPlayerGoalTotal {
    pub season_id: i64,
    pub player_id: i64,
    pub goals: i64,
    pub updated_at: String,
}

/// A World Cup match already scored for a pool.
#[derive(Debug, Clone, Copy)]
pub struct WcProcessedMatch {
    pub pool_id: i64,
    pub match_id: i64,
}

/// The football-data.org competition code of a league: its slug in upper case.
pub fn competition_code(slug: &str) -> (r: String)
    ensures
        r@ == spec_uppercase(slug@),
{
    uppercase(slug)
}

} // verus!
