use moose_irc2::parse::Message;

fn assert_all_of_the_parameters(
    m: Message,
    nick: Option<&[u8]>,
    user: Option<&[u8]>,
    host: Option<&[u8]>,
    command: Option<&[u8]>,
    params: Vec<&[u8]>,
) {
    assert_eq!(m.nick.as_deref(), nick);
    assert_eq!(m.user.as_deref(), user);
    assert_eq!(m.host.as_deref(), host);
    assert_eq!(m.command.as_deref(), command);
    assert_eq!(m.params.len(), params.len());
    for i in 0..params.len() {
        assert_eq!(m.params[i].as_slice(), params[i]);
    }
}

#[test]
fn test_irc_message_parse_full() {
    let m = Message::new(b":happy!test@case command 1 2 3 :trailing param.");
    assert_all_of_the_parameters(
        m,
        Some(b"happy"),
        Some(b"test"),
        Some(b"case"),
        Some(b"command"),
        vec![b"1", b"2", b"3", b"trailing param."],
    );
}

#[test]
fn test_irc_message_parse_no_prefix() {
    let m = Message::new(b"command 1 2 3 :trailing param.");
    assert_all_of_the_parameters(
        m,
        None,
        None,
        None,
        Some(b"command"),
        vec![b"1", b"2", b"3", b"trailing param."],
    );
}

#[test]
fn test_irc_message_parse_prefix_server() {
    let m = Message::new(b":some.irc.server command 1 2 3 :trailing param.");
    assert_all_of_the_parameters(
        m,
        Some(b"some.irc.server"),
        None,
        None,
        Some(b"command"),
        vec![b"1", b"2", b"3", b"trailing param."],
    );
}

#[test]
fn test_irc_message_parse_prefix_user_host_swap() {
    let m = Message::new(b":happy@case!test command 1 2 3 :trailing param.");
    assert_all_of_the_parameters(
        m,
        Some(b"happy"),
        Some(b"test"),
        Some(b"case"),
        Some(b"command"),
        vec![b"1", b"2", b"3", b"trailing param."],
    );
}

#[test]
fn test_irc_message_parse_prefix_blank() {
    let m = Message::new(b": com arg1 arg2");
    assert_all_of_the_parameters(
        m,
        Some(b""),
        None,
        None,
        Some(b"com"),
        vec![b"arg1", b"arg2"],
    );
}

#[test]
fn test_irc_message_parse_prefix_no_user() {
    let m = Message::new(b":x@y com arg1 arg2");
    assert_all_of_the_parameters(
        m,
        Some(b"x"),
        None,
        Some(b"y"),
        Some(b"com"),
        vec![b"arg1", b"arg2"],
    );
}

#[test]
fn test_irc_message_parse_prefix_no_host() {
    let m = Message::new(b":x!y com arg1 arg2");
    assert_all_of_the_parameters(
        m,
        Some(b"x"),
        Some(b"y"),
        None,
        Some(b"com"),
        vec![b"arg1", b"arg2"],
    );
}

#[test]
fn test_irc_message_parse_prefix_only() {
    let m = Message::new(b":x!y@z");
    assert_all_of_the_parameters(m, Some(b"x"), Some(b"y"), Some(b"z"), None, vec![]);
}

#[test]
fn test_irc_message_parse_command_only() {
    let m = Message::new(b"PING");
    assert_all_of_the_parameters(m, None, None, None, Some(b"PING"), vec![]);
}

#[test]
fn test_irc_message_parse_command_trailing_only() {
    let m = Message::new(b"PING : PONG");
    assert_all_of_the_parameters(m, None, None, None, Some(b"PING"), vec![b" PONG"]);
}

#[test]
fn test_irc_message_parse_command_trailing_blank() {
    let m = Message::new(b"PING :");
    assert_all_of_the_parameters(m, None, None, None, Some(b"PING"), vec![b""]);
}

#[test]
fn test_irc_message_parse_weird_spacing() {
    let m = Message::new(b":x     command    arg1  arg2        :     afdasfda  fdas   a .");
    assert_all_of_the_parameters(
        m,
        Some(b"x"),
        None,
        None,
        Some(b"command"),
        vec![b"arg1", b"arg2", b"     afdasfda  fdas   a ."],
    );
}

#[test]
fn test_irc_message_parse_weird_spacing_no_trailer() {
    let m = Message::new(b":x     command    arg1  arg2             afdasfda  fdas   a .  ");
    assert_all_of_the_parameters(
        m,
        Some(b"x"),
        None,
        None,
        Some(b"command"),
        vec![b"arg1", b"arg2", b"afdasfda", b"fdas", b"a", b"."],
    );
}

#[test]
fn test_irc_message_parse_weird_spacing_no_param() {
    let m = Message::new(b":x     command                 ");
    assert_all_of_the_parameters(m, Some(b"x"), None, None, Some(b"command"), vec![]);
}

#[test]
fn test_irc_message_is_empty() {
    let t1 = Message::new(b"");
    assert!(t1.is_empty());
}

#[test]
fn test_to_server_vec_uses_fallback_command() {
    let m = Message::new(b"");
    assert_eq!(m.to_server_vec(), b"PING".to_vec());
}

#[test]
fn test_to_server_vec_trailing_colon_only_on_last() {
    let m = Message::new(b"PRIVMSG #chan :hello there");
    assert_eq!(m.to_server_vec(), b"PRIVMSG #chan :hello there".to_vec());
}
