use moose_irc2::handler::{
    handle_invite_outcome, handle_lines_outcome, handle_message, handle_resolve_outcome,
    FetchKind, HandlerAction, HandlerStep,
};
use moose_irc2::invite::{apply_invite, InviteMsg};
use moose_irc2::ircstate::IrcState;
use moose_irc2::parse::Message;
use moose_irc2::sender::Priority;

fn fresh_state() -> IrcState {
    IrcState::new(
        "Bot".to_string(),
        None,
        vec!["#moose".to_string()],
        "https://moose2.ghetty.space".to_string(),
        0,
    )
}

fn only_send(step: HandlerStep) -> (Priority, Message) {
    match step {
        HandlerStep::Done(mut acts) => {
            assert_eq!(acts.len(), 1);
            match acts.pop().unwrap() {
                HandlerAction::Send(env) => (env.priority, env.message),
                _ => panic!("expected a queued message"),
            }
        }
        _ => panic!("expected an immediate step"),
    }
}

#[test]
fn test_collision_monotonicity() {
    // four consecutive collision replies: three renames, then a QUIT
    let mut state = fresh_state();
    let expected: [&[u8]; 3] = [b"Bot_", b"Bot__", b"Bot___"];
    for nick in expected {
        let m = Message::new(b"433");
        let (prio, out) = only_send(handle_message(&mut state, &m, false));
        assert!(matches!(prio, Priority::High));
        assert_eq!(out.command.as_deref(), Some(b"NICK".as_slice()));
        assert_eq!(out.params[0].as_slice(), nick);
    }
    assert_eq!(state.current_nick, "Bot___");
    let m = Message::new(b"436");
    let (prio, out) = only_send(handle_message(&mut state, &m, false));
    assert!(matches!(prio, Priority::High));
    assert_eq!(out.command.as_deref(), Some(b"QUIT".as_slice()));
    assert!(out.params.is_empty());
    assert_eq!(state.current_nick, "Bot___");
}

#[test]
fn test_ping_gets_ponged() {
    let mut state = fresh_state();
    let m = Message::new(b"PING :xyz");
    let (prio, out) = only_send(handle_message(&mut state, &m, false));
    assert!(matches!(prio, Priority::High));
    assert_eq!(out.command.as_deref(), Some(b"PONG".as_slice()));
    assert_eq!(out.params[0].as_slice(), b"xyz");
}

#[test]
fn test_server_error_quits() {
    let mut state = fresh_state();
    let m = Message::new(b"ERROR :Closing Link");
    let (prio, out) = only_send(handle_message(&mut state, &m, false));
    assert!(matches!(prio, Priority::High));
    assert_eq!(out.command.as_deref(), Some(b"QUIT".as_slice()));
}

#[test]
fn test_erroneous_nickname_quits() {
    let mut state = fresh_state();
    let m = Message::new(b"432");
    let (prio, out) = only_send(handle_message(&mut state, &m, false));
    assert!(matches!(prio, Priority::High));
    assert_eq!(out.command.as_deref(), Some(b"QUIT".as_slice()));
}

#[test]
fn test_self_invite_scenario() {
    // INVITE Bot #x from alice: a Joined event for the persistence set,
    // and a high-priority JOIN #x once the event is accepted
    let mut state = fresh_state();
    let m = Message::new(b":alice INVITE Bot #x");
    let step = handle_message(&mut state, &m, false);
    let (channel, inviter) = match step {
        HandlerStep::AskInvite { channel, inviter } => (channel, inviter),
        _ => panic!("expected the invite question"),
    };
    assert_eq!(channel.as_slice(), b"#x");
    assert_eq!(inviter.as_slice(), b"alice");

    let mut invites: Vec<String> = Vec::new();
    let (changed, quit) = apply_invite(&mut invites, InviteMsg::Joined("#x".to_string()));
    assert!(changed && !quit);
    assert_eq!(invites, vec!["#x".to_string()]);

    let mut acts = handle_invite_outcome(true, channel, inviter);
    assert_eq!(acts.len(), 1);
    match acts.pop().unwrap() {
        HandlerAction::Send(env) => {
            assert!(matches!(env.priority, Priority::High));
            assert_eq!(env.message.command.as_deref(), Some(b"JOIN".as_slice()));
            assert_eq!(env.message.params[0].as_slice(), b"#x");
        }
        _ => panic!("expected a queued JOIN"),
    }
}

#[test]
fn test_invite_rejected_notifies_inviter() {
    let mut acts = handle_invite_outcome(false, b"#x".to_vec(), b"alice".to_vec());
    assert_eq!(acts.len(), 1);
    match acts.pop().unwrap() {
        HandlerAction::Send(env) => {
            assert!(matches!(env.priority, Priority::Notify));
            assert_eq!(env.message.command.as_deref(), Some(b"NOTICE".as_slice()));
            assert_eq!(env.message.params[0].as_slice(), b"alice");
            assert_eq!(env.message.params[1].as_slice(), b"Invites are disabled.");
        }
        _ => panic!("expected a queued NOTICE"),
    }
}

#[test]
fn test_ctcp_version_scenario() {
    // a \x01VERSION\x01 private message to the bot gets exactly one
    // NOTICE back with the application name and version in \x01 marks
    let mut state = fresh_state();
    let m = Message::new(b":alice!user@host PRIVMSG Bot :\x01VERSION\x01");
    let step = handle_message(&mut state, &m, false);
    match step {
        HandlerStep::Done(acts) => {
            assert_eq!(acts.len(), 1);
            match &acts[0] {
                HandlerAction::Send(env) => {
                    assert!(matches!(env.priority, Priority::High));
                    assert_eq!(env.message.command.as_deref(), Some(b"NOTICE".as_slice()));
                    assert_eq!(env.message.params[0].as_slice(), b"alice");
                    assert_eq!(
                        env.message.params[1].as_slice(),
                        b"\x01VERSION moose-irc2/0.1.0\x01"
                    );
                }
                _ => panic!("expected a queued NOTICE"),
            }
        }
        _ => panic!("expected an immediate step"),
    }
}

#[test]
fn test_self_part_reports_channel_lost() {
    let mut state = fresh_state();
    let m = Message::new(b":Bot!u@h PART #moose");
    let step = handle_message(&mut state, &m, false);
    match step {
        HandlerStep::Done(acts) => {
            assert_eq!(acts.len(), 1);
            assert!(matches!(&acts[0], HandlerAction::InviteKicked(c) if c.as_slice() == b"#moose"));
        }
        _ => panic!("expected an immediate step"),
    }
}

#[test]
fn test_kick_of_someone_else_is_ignored() {
    let mut state = fresh_state();
    let m = Message::new(b":op KICK #moose carol :bye");
    let step = handle_message(&mut state, &m, false);
    assert!(matches!(step, HandlerStep::Done(acts) if acts.is_empty()));
}

#[test]
fn test_welcome_sends_auth_then_join_batch() {
    let mut state = IrcState::new(
        "Bot".to_string(),
        Some("hunter2".to_string()),
        vec!["#a".to_string(), "#b".to_string()],
        "https://moose2.ghetty.space".to_string(),
        0,
    );
    let m = Message::new(b"001 Bot :Welcome");
    let step = handle_message(&mut state, &m, false);
    match step {
        HandlerStep::Done(acts) => {
            assert_eq!(acts.len(), 2);
            match &acts[0] {
                HandlerAction::Send(env) => {
                    assert!(matches!(env.priority, Priority::High));
                    assert_eq!(env.message.to_server_vec(), b"NICKSERV IDENTIFY hunter2".to_vec());
                }
                _ => panic!("expected the auth line first"),
            }
            match &acts[1] {
                HandlerAction::Send(env) => {
                    assert!(matches!(env.priority, Priority::High));
                    assert_eq!(env.message.command.as_deref(), Some(b"JOIN".as_slice()));
                    assert_eq!(env.message.params[0].as_slice(), b"#a,#b");
                }
                _ => panic!("expected the JOIN batch"),
            }
        }
        _ => panic!("expected an immediate step"),
    }
}

#[test]
fn test_moose_command_becomes_fetch() {
    let mut state = fresh_state();
    let m = Message::new(b":alice PRIVMSG #chan :.moose bab the moose");
    let step = handle_message(&mut state, &m, false);
    match step {
        HandlerStep::Fetch { kind, channel, sender } => {
            assert!(
                matches!(&kind, FetchKind::Resolve { query, image } if query.as_slice() == b"bab the moose" && !image)
            );
            assert_eq!(channel.as_slice(), b"#chan");
            assert_eq!(sender.as_slice(), b"alice");
        }
        _ => panic!("expected a fetch step"),
    }
}

#[test]
fn test_resolve_failure_reports_upstream_text() {
    let step = handle_resolve_outcome(
        false,
        Err("no such moose".to_string()),
        true,
        "https://moose2.ghetty.space",
        b"#chan".to_vec(),
        b"alice".to_vec(),
    );
    match step {
        HandlerStep::Done(acts) => {
            assert_eq!(acts.len(), 1);
            match &acts[0] {
                HandlerAction::Send(env) => {
                    assert!(matches!(env.priority, Priority::Low));
                    assert_eq!(env.message.params[1].as_slice(), b"no such moose");
                }
                _ => panic!("expected a queued reply"),
            }
        }
        _ => panic!("expected an immediate step"),
    }
}

#[test]
fn test_resolve_image_answers_with_image_url() {
    let step = handle_resolve_outcome(
        true,
        Ok("bab".to_string()),
        false,
        "https://moose2.ghetty.space",
        b"#chan".to_vec(),
        b"alice".to_vec(),
    );
    match step {
        HandlerStep::Done(acts) => match &acts[0] {
            HandlerAction::Send(env) => {
                assert!(matches!(env.priority, Priority::Low));
                assert_eq!(
                    env.message.params[1].as_slice(),
                    b"https://moose2.ghetty.space/img/bab"
                );
            }
            _ => panic!("expected a queued reply"),
        },
        _ => panic!("expected an immediate step"),
    }
}

#[test]
fn test_resolve_without_token_is_refused_with_notice() {
    let step = handle_resolve_outcome(
        false,
        Ok("bab".to_string()),
        false,
        "https://moose2.ghetty.space",
        b"#chan".to_vec(),
        b"alice".to_vec(),
    );
    match step {
        HandlerStep::Done(acts) => match &acts[0] {
            HandlerAction::Send(env) => {
                assert!(matches!(env.priority, Priority::Notify));
                assert_eq!(env.message.params[0].as_slice(), b"alice");
                assert_eq!(
                    env.message.params[1].as_slice(),
                    b"Please wait awhile before asking for another moose."
                );
            }
            _ => panic!("expected a queued notice"),
        },
        _ => panic!("expected an immediate step"),
    }
}

#[test]
fn test_resolve_with_token_fetches_lines() {
    let step = handle_resolve_outcome(
        false,
        Ok("bab".to_string()),
        true,
        "https://moose2.ghetty.space",
        b"#chan".to_vec(),
        b"alice".to_vec(),
    );
    assert!(matches!(
        step,
        HandlerStep::Fetch { kind: FetchKind::Lines { moose }, .. } if moose == "bab"
    ));
}

#[test]
fn test_lines_outcome_sends_one_reply_per_line() {
    let acts = handle_lines_outcome(
        Ok("one\r\ntwo\nthree\n".to_string()),
        b"#chan".to_vec(),
    );
    assert_eq!(acts.len(), 3);
    let expect: [&[u8]; 3] = [b"one", b"two", b"three"];
    for (a, want) in acts.iter().zip(expect.iter()) {
        match a {
            HandlerAction::Send(env) => {
                assert!(matches!(env.priority, Priority::Low));
                assert_eq!(env.message.command.as_deref(), Some(b"PRIVMSG".as_slice()));
                assert_eq!(env.message.params[0].as_slice(), b"#chan");
                assert_eq!(env.message.params[1].as_slice(), *want);
            }
            _ => panic!("expected queued replies"),
        }
    }
}

#[test]
fn test_quit_sentinel_stops_invite_task() {
    let mut invites = vec!["#x".to_string()];
    let (changed, quit) = apply_invite(&mut invites, InviteMsg::Quit);
    assert!(!changed && quit);
    let (changed, quit) = apply_invite(&mut invites, InviteMsg::Kicked("#x".to_string()));
    assert!(changed && !quit);
    assert!(invites.is_empty());
    let (changed, quit) = apply_invite(&mut invites, InviteMsg::Kicked("#x".to_string()));
    assert!(!changed && !quit);
    let (changed, _) = apply_invite(&mut invites, InviteMsg::Joined("#y".to_string()));
    assert!(changed);
    let (changed, _) = apply_invite(&mut invites, InviteMsg::Joined("#y".to_string()));
    assert!(!changed, "a second join of the same channel changes nothing");
}
