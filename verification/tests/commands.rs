use league_bot::commands::{guild_id, parse_user_mentions};

#[test]
fn parses_discord_mentions() {
    assert_eq!(parse_user_mentions("pick @alice and <@123> plus <@!456>"), vec![123, 456]);
}

#[test]
fn mentions_are_deduplicated_and_sorted() {
    assert_eq!(parse_user_mentions("<@9> <@!!3> <@9> <@x> <@5"), vec![3, 5, 9]);
    assert_eq!(parse_user_mentions("no mentions here"), Vec::<u64>::new());
}

#[test]
fn guild_is_required() {
    assert_eq!(guild_id(Some(77)), Ok(77));
    assert_eq!(guild_id(None), Err("This command must be used in a server.".to_string()));
}
