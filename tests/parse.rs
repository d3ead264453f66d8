use neo8ball::parse::Message;

fn params_of(m: &Message) -> Vec<Vec<u8>> {
    let mut it = m.parameters();
    let mut out = Vec::new();
    while let Some(p) = it.next() {
        out.push(p.to_vec());
    }
    out
}

fn assert_all_of_the_parameters(
    m: Message,
    nick: Option<&[u8]>,
    user: Option<&[u8]>,
    host: Option<&[u8]>,
    command: Option<&[u8]>,
    params: Option<Vec<&[u8]>>,
) {
    assert_eq!(m.nick, nick);
    assert_eq!(m.user, user);
    assert_eq!(m.host, host);
    assert_eq!(m.command, command);
    let got = params_of(&m);
    if let Some(params) = params {
        assert_eq!(got.len(), params.len());
        for (param, check_param) in got.iter().zip(params) {
            assert_eq!(param.as_slice(), check_param);
        }
    } else {
        assert!(got.is_empty());
    }
}

#[test]
fn test_irc_message_parse_full() {
    let m = Message::new(b":happy!test@case command 1 2 3 :trailing param.");
    assert_all_of_the_parameters(
        m,
        Some(b"happy"),
        Some(b"test"),
        Some(b"case"),
        Some(b"command"),
        Some(vec![b"1", b"2", b"3", b"trailing param."]),
    );
}

#[test]
fn test_irc_message_parse_no_prefix() {
    let m = Message::new(b"command 1 2 3 :trailing param.");
    assert_all_of_the_parameters(
        m,
        None,
        None,
        None,
        Some(b"command"),
        Some(vec![b"1", b"2", b"3", b"trailing param."]),
    );
}

#[test]
fn test_irc_message_parse_prefix_server() {
    let m = Message::new(b":some.irc.server command 1 2 3 :trailing param.");
    assert_all_of_the_parameters(
        m,
        Some(b"some.irc.server"),
        None,
        None,
        Some(b"command"),
        Some(vec![b"1", b"2", b"3", b"trailing param."]),
    );
}

#[test]
fn test_irc_message_parse_prefix_user_host_swap() {
    let m = Message::new(b":happy@case!test command 1 2 3 :trailing param.");
    assert_all_of_the_parameters(
        m,
        Some(b"happy"),
        Some(b"test"),
        Some(b"case"),
        Some(b"command"),
        Some(vec![b"1", b"2", b"3", b"trailing param."]),
    );
}

#[test]
fn test_irc_message_parse_prefix_blank() {
    let m = Message::new(b": com arg1 arg2");
    assert_all_of_the_parameters(
        m,
        Some(b""),
        None,
        None,
        Some(b"com"),
        Some(vec![b"arg1", b"arg2"]),
    );
}

#[test]
fn test_irc_message_parse_prefix_no_user() {
    let m = Message::new(b":x@y com arg1 arg2");
    assert_all_of_the_parameters(
        m,
        Some(b"x"),
        None,
        Some(b"y"),
        Some(b"com"),
        Some(vec![b"arg1", b"arg2"]),
    );
}

#[test]
fn test_irc_message_parse_prefix_no_host() {
    let m = Message::new(b":x!y com arg1 arg2");
    assert_all_of_the_parameters(
        m,
        Some(b"x"),
        Some(b"y"),
        None,
        Some(b"com"),
        Some(vec![b"arg1", b"arg2"]),
    );
}

#[test]
fn test_irc_message_parse_prefix_only() {
    let m = Message::new(b":x!y@z");
    assert_all_of_the_parameters(m, Some(b"x"), Some(b"y"), Some(b"z"), None, None);
}

#[test]
fn test_irc_message_parse_command_only() {
    let m = Message::new(b"PING");
    assert_all_of_the_parameters(m, None, None, None, Some(b"PING"), None);
}

#[test]
fn test_irc_message_parse_command_trailing_only() {
    let m = Message::new(b"PING : PONG");
    assert_all_of_the_parameters(m, None, None, None, Some(b"PING"), Some(vec![b" PONG"]));
}

#[test]
fn test_irc_message_parse_command_trailing_blank() {
    let m = Message::new(b"PING :");
    assert_all_of_the_parameters(m, None, None, None, Some(b"PING"), Some(vec![b""]));
}

#[test]
fn test_irc_message_parse_weird_spacing() {
    let m = Message::new(b":x     command    arg1  arg2        :     afdasfda  fdas   a .");
    assert_all_of_the_parameters(
        m,
        Some(b"x"),
        None,
        None,
        Some(b"command"),
        Some(vec![b"arg1", b"arg2", b"     afdasfda  fdas   a ."]),
    );
}

#[test]
fn test_irc_message_parse_weird_spacing_no_trailer() {
    let m = Message::new(b":x     command    arg1  arg2             afdasfda  fdas   a .  ");
    assert_all_of_the_parameters(
        m,
        Some(b"x"),
        None,
        None,
        Some(b"command"),
        Some(vec![b"arg1", b"arg2", b"afdasfda", b"fdas", b"a", b"."]),
    );
}

#[test]
fn test_irc_message_parse_weird_spacing_no_param() {
    let m = Message::new(b":x     command                 ");
    assert_all_of_the_parameters(m, Some(b"x"), None, None, Some(b"command"), None);
}

#[test]
fn test_irc_message_is_empty() {
    let t1 = Message::new(b"");
    assert!(t1.is_empty());
}

#[test]
fn message_of_spaces_is_empty() {
    assert!(Message::new(b"     ").is_empty());
    assert!(!Message::new(b"PING").is_empty());
    assert!(Message::default().is_empty());
}

#[test]
fn round_trip_full_prefix() {
    let m = Message::new(b":nick!user@host CMD a1 a2 :trailing");
    assert_eq!(m.nick, Some(&b"nick"[..]));
    assert_eq!(m.user, Some(&b"user"[..]));
    assert_eq!(m.host, Some(&b"host"[..]));
    assert_eq!(m.command, Some(&b"CMD"[..]));
    assert_eq!(params_of(&m), vec![b"a1".to_vec(), b"a2".to_vec(), b"trailing".to_vec()]);
    assert_eq!(m.params, Some(&b"a1 a2 :trailing"[..]));
}
