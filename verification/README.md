# league_bot

A Discord fantasy-league bot for the FIFA World Cup and the Premier League:
members claim or draft teams, earn points when their teams play, pick a
tie-breaker player, and follow standings and which teams are still in.

- `src/` is the verified library. Every function states its behaviour in
  `requires`/`ensures` and Verus proves it:
  - `soccar` — World Cup group tables ranked by the FIFA rules; the teams
    that no score of the remaining group matches can lift into the top three
    (exactly those in a group of at most four teams; in a larger group, those
    that three others surely stay above); the early third-place cut against
    each open group's weakest third (on the fewest points a third can finish
    on); and the classification of every team;
  - `scoring`, `standings` — points per match, per team and per user, table
    order and shared ranks;
  - `draft`, `registration`, `season`, `config` — the draft order and every
    decision and answer of the draft, claim, season and configuration commands;
  - `api`, `espn`, `gridiron`, `league`, `records` — the records read from
    football-data.org and ESPN, and lookups over them;
  - `soccer_poll` — which matches are scored, when a stored result is scored
    again, and the result announcement;
  - `text`, `sorting` — text handling and stable sorting used throughout.
- `app/` is the bot around it: the Discord commands, the SQLite store, the
  HTTP clients and the poller. It reads, asks the library, writes and replies.
- `tests/` runs the library on concrete cases.
