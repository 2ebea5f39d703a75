use moose_irc2::config::{default_moose_url, default_port, parse_duration_ms, DurationError};
use moose_irc2::connection::Security;
use moose_irc2::handler::{handle_message, HandlerAction, HandlerStep};
use moose_irc2::helpers::{client_config, irc_preamble, is_me, join_channels, join_part_channels, part_channels};
use moose_irc2::ircstate::IrcState;
use moose_irc2::moosecmd::{parse_moose_args, MComm};
use moose_irc2::parse::Message;
use moose_irc2::receiver::on_timeout;
use moose_irc2::sender::Priority;
use moose_irc2::webreq::{format_search_results, resolve_outcome, search_url, SearchEntry};

#[test]
fn test_irc_preamble_order_and_password() {
    let pre = irc_preamble("Bot", "");
    assert_eq!(pre.len(), 2);
    assert_eq!(pre[0].to_server_vec(), b"NICK :Bot".to_vec());
    assert_eq!(pre[1].to_server_vec(), b"USER Bot 0 * :moose-irc2".to_vec());
    let pre = irc_preamble("Bot", "sekrit");
    assert_eq!(pre.len(), 3);
    assert_eq!(pre[2].to_server_vec(), b"PASS :sekrit".to_vec());
}

#[test]
fn test_batching_bound() {
    // names pack into as few lines as possible, each payload within 505
    // bytes, every name exactly once
    let mut channels: Vec<String> = Vec::new();
    for i in 0..40 {
        let mut name = String::from("#");
        for _ in 0..49 {
            name.push('x');
        }
        name.push_str(&i.to_string());
        channels.push(name);
    }
    let lines = join_part_channels(&channels);
    assert!(lines.len() >= 5, "2000+ bytes of names cannot fit fewer lines");
    let mut seen: Vec<String> = Vec::new();
    for line in &lines {
        assert!(line.len() <= 505);
        for name in String::from_utf8(line.clone()).unwrap().split(',') {
            seen.push(name.to_string());
        }
    }
    assert_eq!(seen, channels);
}

#[test]
fn test_join_and_part_channels() {
    let channels = vec!["#a".to_string(), "#b".to_string()];
    let joins = join_channels(&channels);
    assert_eq!(joins.len(), 1);
    assert_eq!(joins[0].to_server_vec(), b"JOIN :#a,#b".to_vec());
    let parts = part_channels(&channels);
    assert_eq!(parts.len(), 1);
    assert_eq!(parts[0].to_server_vec(), b"PART :#a,#b".to_vec());
    assert!(join_channels(&Vec::new()).is_empty());
}

#[test]
fn test_is_me() {
    assert!(is_me("Bot", 0, "Bot"));
    assert!(!is_me("Bot", 0, "Bot_"));
    assert!(is_me("Bot", 2, "Bot__"));
    assert!(!is_me("Bot", 2, "Bot_"));
    assert!(!is_me("Bot", 2, "Bob__"));
    assert!(!is_me("Bot", 1, "Bot=x"));
}

#[test]
fn test_client_config() {
    let c = client_config("irc.example.test", 6697, true);
    assert_eq!(c.server, "irc.example.test");
    assert_eq!(c.port, 6697);
    assert!(matches!(
        c.security,
        Security::Secured { root_cert_path: None, client_cert_path: None, client_key_path: None }
    ));
    let c = client_config("irc.example.test", 6667, false);
    assert!(matches!(c.security, Security::Unsecured));
}

#[test]
fn test_defaults() {
    assert_eq!(default_port(true), 6697);
    assert_eq!(default_port(false), 6667);
    assert_eq!(default_moose_url(), "https://moose2.ghetty.space");
}

#[test]
fn test_parse_duration_strings() {
    assert_eq!(parse_duration_ms("350ms"), Ok(350));
    assert_eq!(parse_duration_ms("10s"), Ok(10000));
    assert_eq!(parse_duration_ms("2 secs"), Ok(2000));
    assert_eq!(parse_duration_ms("3seconds"), Ok(3000));
    assert_eq!(parse_duration_ms("1500"), Ok(1500));
    assert_eq!(parse_duration_ms("1500us"), Ok(1));
    assert_eq!(parse_duration_ms("999999ns"), Ok(0));
    assert_eq!(parse_duration_ms(""), Err(DurationError::Empty));
    assert_eq!(parse_duration_ms("ms"), Err(DurationError::NoNumber));
    assert_eq!(parse_duration_ms("5 fortnights"), Err(DurationError::BadUnit));
    assert_eq!(
        parse_duration_ms("99999999999999999999999999"),
        Err(DurationError::TooLarge)
    );
    assert_eq!(
        parse_duration_ms("99999999999999999999s"),
        Err(DurationError::TooLarge)
    );
}

#[test]
fn test_parse_moose_args_grammar() {
    assert!(parse_moose_args("hello there").is_none());
    assert!(matches!(parse_moose_args(".bots"), Some(MComm::Bots)));
    assert!(matches!(parse_moose_args("!help"), Some(MComm::Help)));
    assert!(matches!(parse_moose_args(".moose -h"), Some(MComm::Help)));
    assert!(
        matches!(parse_moose_args(".moose"), Some(MComm::Irc(n)) if n == b"random".to_vec())
    );
    assert!(
        matches!(parse_moose_args("mooseme --latest"), Some(MComm::Irc(n)) if n == b"latest".to_vec())
    );
    assert!(
        matches!(parse_moose_args(".moose bab the moose"), Some(MComm::Irc(n)) if n == b"bab the moose".to_vec())
    );
    assert!(
        matches!(parse_moose_args(".moose -- bab"), Some(MComm::Irc(n)) if n == b"bab".to_vec())
    );
    assert!(
        matches!(parse_moose_args(".mooseimg bab"), Some(MComm::Image(n)) if n == b"bab".to_vec())
    );
    assert!(
        matches!(parse_moose_args(".moosesearch big"), Some(MComm::Search(n)) if n == b"big".to_vec())
    );
    assert!(
        matches!(parse_moose_args(".moose -s big"), Some(MComm::Search(n)) if n == b"big".to_vec())
    );
    assert!(
        matches!(parse_moose_args(".moose -i bab"), Some(MComm::Image(n)) if n == b"bab".to_vec())
    );
}

#[test]
fn test_search_disabled_reply_percent_encodes_query() {
    let mut state = IrcState::new(
        "Bot".to_string(),
        None,
        vec![],
        "https://moose2.ghetty.space".to_string(),
        0,
    );
    let m = Message::new(b":alice PRIVMSG #chan :.moosesearch a b");
    let step = handle_message(&mut state, &m, true);
    match step {
        HandlerStep::Done(acts) => match &acts[0] {
            HandlerAction::Send(env) => {
                assert!(matches!(env.priority, Priority::Low));
                assert_eq!(
                    env.message.params[1].as_slice(),
                    b"Search has been disabled on this server. See: https://moose2.ghetty.space/gallery/0?q=a%20b"
                );
            }
            _ => panic!("expected a queued reply"),
        },
        _ => panic!("expected an immediate step"),
    }
}

#[test]
fn test_search_url_percent_encodes() {
    let url = search_url("https://moose2.ghetty.space", b"a&b c");
    assert_eq!(url, "https://moose2.ghetty.space/search?p=0&q=a%26b%20c");
}

#[test]
fn test_bots_reply_names_service() {
    let mut state = IrcState::new(
        "Bot".to_string(),
        None,
        vec![],
        "https://moose2.ghetty.space".to_string(),
        0,
    );
    let m = Message::new(b":alice PRIVMSG #chan :.bots");
    match handle_message(&mut state, &m, false) {
        HandlerStep::Done(acts) => match &acts[0] {
            HandlerAction::Send(env) => {
                assert_eq!(
                    env.message.params[1].as_slice(),
                    b"Moose :: Make moose @ https://moose2.ghetty.space :: See .moose --help for usage"
                );
            }
            _ => panic!("expected a queued reply"),
        },
        _ => panic!("expected an immediate step"),
    }
}

#[test]
fn test_resolve_outcome_status() {
    assert_eq!(
        resolve_outcome("error", "no such moose".to_string()),
        Err("no such moose".to_string())
    );
    assert_eq!(resolve_outcome("ok", "bab".to_string()), Ok("bab".to_string()));
}

#[test]
fn test_format_search_results() {
    assert_eq!(format_search_results(&Vec::new()), "Error: No results found.");
    let results = vec![
        SearchEntry { name: "bab".to_string(), page: 0 },
        SearchEntry { name: "big moose".to_string(), page: 12 },
    ];
    assert_eq!(
        format_search_results(&results),
        "\u{2}bab\u{2} p.0, \u{2}big moose\u{2} p.12"
    );
}

#[test]
fn test_on_timeout_probe_then_dead() {
    let (dead, probe) = on_timeout(false);
    assert!(!dead);
    assert_eq!(probe.unwrap().to_server_vec(), b"PING :PING".to_vec());
    let (dead, probe) = on_timeout(true);
    assert!(dead);
    assert!(probe.is_none());
}
