use std::collections::HashMap;

use neo8ball::client::{Client, ClientReadStat, ClientWriteStat, IrcState};
use neo8ball::helpers::CaseMapping;
use neo8ball::config::{Config, General};
use neo8ball::parse::Message;
use neo8ball::plugin::{Plugin, PluginReadStat};

const DEFAULT_GREETER: &str = "CAP REQ :multi-prefix\r
NICK bot\r
USER bot +i * :bot\r
";

fn default_conf() -> Config {
    let mut commands = HashMap::new();
    commands.insert("test".to_owned(), "./test".to_owned());
    Config {
        general: General {
            nick: "bot".to_owned(),
            server: "localhost".to_owned(),
            port: 9643,
            tls: false,
            command_prefix: ".!".to_owned(),
            server_password: String::new(),
            sasl_password: String::new(),
            nickserv_password: String::new(),
            channels: Vec::new(),
            invite_file: String::new(),
        },
        commands,
    }
}

/// One write to a sink that takes everything.
fn write_data(c: &mut Client, sink: &mut Vec<u8>) -> ClientWriteStat {
    if c.is_empty() {
        return ClientWriteStat::Eof;
    }
    let chunk = c.write_chunk();
    sink.extend_from_slice(&chunk);
    c.finish_write(Some(chunk.len()))
}

fn read_expect(c: &mut Client, data: &[u8], exp_res: ClientReadStat) {
    let status = c.receive_bytes(data);
    assert_eq!(status, exp_res);
}

fn write_expect(c: &mut Client, exp_res: ClientWriteStat, exp_data: &[u8]) {
    let mut sink = Vec::new();
    let status = write_data(c, &mut sink);
    assert_eq!(status, exp_res);
    assert_eq!(sink, exp_data);
}

fn greeted_client() -> Client {
    let conf = default_conf();
    let mut c = Client::new(&conf, 7);
    let mut sink = Vec::new();
    write_data(&mut c, &mut sink);
    c
}

#[test]
fn client_irc_client_greeter() {
    let conf = default_conf();
    let mut fake_io: Vec<u8> = Vec::new();
    let mut c = Client::new(&conf, 1);
    write_data(&mut c, &mut fake_io);
    assert_eq!(fake_io, DEFAULT_GREETER.as_bytes());
}

#[test]
fn client_irc_client_ping_pong() {
    let mut c = greeted_client();
    // the dangling P is kept for the next read
    read_expect(&mut c, b"PING :xyz\r\nPIN", ClientReadStat::HasWritableData);
    write_expect(&mut c, ClientWriteStat::Okay, b"PONG :xyz\r\n");
}

#[test]
fn client_irc_client_truncations() {
    let mut c = greeted_client();
    read_expect(&mut c, b"PING :xyz\r\nPIN", ClientReadStat::HasWritableData);
    write_expect(&mut c, ClientWriteStat::Okay, b"PONG :xyz\r\n");

    // the rest of the truncated line
    read_expect(&mut c, b"G asdf\r\n", ClientReadStat::HasWritableData);
    write_expect(&mut c, ClientWriteStat::Okay, b"PONG asdf\r\n");

    read_expect(&mut c, b"PING :1234\r\n", ClientReadStat::HasWritableData);
    write_expect(&mut c, ClientWriteStat::Okay, b"PONG :1234\r\n");
}

#[test]
fn client_irc_client_multiple_messages() {
    let mut c = greeted_client();
    let test_data = b"PING :1234\r\nPING :1234\r\nPING :1234\r\nPING :1234\r\nPING :1234\r\nPING :1234\r\nPING :1234\r\nPING :1234\r\nPING :1234\r\nPING :1234\r\nPING :1234\r\n";
    let test_data_exp = b"PONG :1234\r\nPONG :1234\r\nPONG :1234\r\nPONG :1234\r\nPONG :1234\r\nPONG :1234\r\nPONG :1234\r\nPONG :1234\r\nPONG :1234\r\nPONG :1234\r\nPONG :1234\r\n";
    read_expect(&mut c, test_data, ClientReadStat::HasWritableData);
    write_expect(&mut c, ClientWriteStat::Okay, test_data_exp);
}

#[test]
fn client_irc_client_unknown_cmd() {
    let mut c = greeted_client();
    read_expect(&mut c, b"UNKNOWN", ClientReadStat::Okay);
    write_expect(&mut c, ClientWriteStat::Eof, b"");
}

#[test]
fn client_irc_client_nick_conflict() {
    let mut c = greeted_client();
    read_expect(
        &mut c,
        b":bot!bot@bot.localhost 433 :name in use\r\n",
        ClientReadStat::HasWritableData,
    );
    let mut fake_io = Vec::new();
    let status = write_data(&mut c, &mut fake_io);
    assert_eq!(status, ClientWriteStat::Okay);
    let m = Message::new(&fake_io[..fake_io.len() - 2]);
    assert_eq!(m.command.unwrap(), b"NICK");
    assert_eq!(&m.params.unwrap()[..4], b"bot_");
    assert_ne!(m.params.unwrap(), b"bot");
}

#[test]
fn mod_irc_client_greeter() {
    let conf = default_conf();
    let mut fake_io: Vec<u8> = Vec::new();
    let mut c = Client::new(&conf, 1);
    write_data(&mut c, &mut fake_io);
    assert_eq!(fake_io, DEFAULT_GREETER.as_bytes());
}

#[test]
fn mod_irc_client_ping_pong() {
    let mut c = greeted_client();
    // the dangling P is kept for the next read
    read_expect(&mut c, b"PING :xyz\r\nPIN", ClientReadStat::HasWritableData);
    write_expect(&mut c, ClientWriteStat::Okay, b"PONG :xyz\r\n");
}

#[test]
fn mod_irc_client_truncations() {
    let mut c = greeted_client();
    read_expect(&mut c, b"PING :xyz\r\nPIN", ClientReadStat::HasWritableData);
    write_expect(&mut c, ClientWriteStat::Okay, b"PONG :xyz\r\n");

    // the rest of the truncated line
    read_expect(&mut c, b"G asdf\r\n", ClientReadStat::HasWritableData);
    write_expect(&mut c, ClientWriteStat::Okay, b"PONG asdf\r\n");

    read_expect(&mut c, b"PING :1234\r\n", ClientReadStat::HasWritableData);
    write_expect(&mut c, ClientWriteStat::Okay, b"PONG :1234\r\n");
}

#[test]
fn mod_irc_client_multiple_messages() {
    let mut c = greeted_client();
    let test_data = b"PING :1234\r\nPING :1234\r\nPING :1234\r\nPING :1234\r\nPING :1234\r\nPING :1234\r\nPING :1234\r\nPING :1234\r\nPING :1234\r\nPING :1234\r\nPING :1234\r\n";
    let test_data_exp = b"PONG :1234\r\nPONG :1234\r\nPONG :1234\r\nPONG :1234\r\nPONG :1234\r\nPONG :1234\r\nPONG :1234\r\nPONG :1234\r\nPONG :1234\r\nPONG :1234\r\nPONG :1234\r\n";
    read_expect(&mut c, test_data, ClientReadStat::HasWritableData);
    write_expect(&mut c, ClientWriteStat::Okay, test_data_exp);
}

#[test]
fn mod_irc_client_unknown_cmd() {
    let mut c = greeted_client();
    read_expect(&mut c, b"UNKNOWN", ClientReadStat::Okay);
    write_expect(&mut c, ClientWriteStat::Eof, b"");
}

#[test]
fn mod_irc_client_nick_conflict() {
    let mut c = greeted_client();
    read_expect(
        &mut c,
        b":bot!bot@bot.localhost 433 :name in use\r\n",
        ClientReadStat::HasWritableData,
    );
    let mut fake_io = Vec::new();
    let status = write_data(&mut c, &mut fake_io);
    assert_eq!(status, ClientWriteStat::Okay);
    let m = Message::new(&fake_io[..fake_io.len() - 2]);
    assert_eq!(m.command.unwrap(), b"NICK");
    assert_eq!(&m.params.unwrap()[..4], b"bot_");
    assert_ne!(m.params.unwrap(), b"bot");
}

#[test]
fn nick_collision_suffix_is_four_digits() {
    let mut c = greeted_client();
    read_expect(&mut c, b":srv 436 bot :collision\r\n", ClientReadStat::HasWritableData);
    let mut out = Vec::new();
    write_data(&mut c, &mut out);
    assert_eq!(out.len(), "NICK bot_0000\r\n".len());
    assert_eq!(&out[..9], b"NICK bot_");
    assert!(out[9..13].iter().all(|b| b.is_ascii_digit()));
    assert_eq!(&out[13..], b"\r\n");
    assert_eq!(c.state.nick.as_bytes(), &out[5..13]);
    assert_ne!(c.state.nick, "bot");
}

#[test]
fn error_and_numeric_failures() {
    let mut c = greeted_client();
    read_expect(
        &mut c,
        b"ERROR :Closing link\r\n",
        ClientReadStat::Error(":Closing link".to_owned()),
    );
    let mut c = greeted_client();
    read_expect(&mut c, b"ERROR\r\n", ClientReadStat::HasWritableData);
    write_expect(&mut c, ClientWriteStat::Okay, b"QUIT :bye\r\n");
    let mut c = greeted_client();
    read_expect(
        &mut c,
        b":srv 464 bot :bad\r\n",
        ClientReadStat::Error("Invalid password given in PASS command.".to_owned()),
    );
    let mut c = greeted_client();
    read_expect(&mut c, b":srv 465 bot :banned\r\n", ClientReadStat::Error("We are banned.".to_owned()));
    let mut c = greeted_client();
    read_expect(&mut c, b":srv 904 bot :fail\r\n", ClientReadStat::Error("We had an SASL problem.".to_owned()));
    let mut c = greeted_client();
    read_expect(&mut c, b":srv 903 bot :ok\r\n", ClientReadStat::Error("We had an SASL problem.".to_owned()));
    let mut c = greeted_client();
    read_expect(
        &mut c,
        b":srv CAP bot NAK :multi-prefix\r\n",
        ClientReadStat::Error("We did not receive and ACK for multi-prefix".to_owned()),
    );
}

#[test]
fn lines_after_an_error_are_not_handled() {
    let mut c = greeted_client();
    read_expect(
        &mut c,
        b":srv 465 bot :banned\r\nPING :x\r\n",
        ClientReadStat::Error("We are banned.".to_owned()),
    );
    write_expect(&mut c, ClientWriteStat::Eof, b"");
}

#[test]
fn cap_ack_ends_negotiation() {
    let mut c = greeted_client();
    read_expect(&mut c, b":srv CAP bot ACK :multi-prefix\r\n", ClientReadStat::HasWritableData);
    write_expect(&mut c, ClientWriteStat::Okay, b"CAP END\r\n");
}

#[test]
fn version_query_gets_notice() {
    let mut c = greeted_client();
    read_expect(
        &mut c,
        b":alice!a@h PRIVMSG BOT :\x01VERSION\x01\r\n",
        ClientReadStat::HasWritableData,
    );
    write_expect(&mut c, ClientWriteStat::Okay, b"NOTICE alice :\x01r8ball: v0.0.0\x01\r\n");
}

#[test]
fn welcome_joins_configured_channels_and_tracks_membership() {
    let mut conf = default_conf();
    conf.general.channels = vec!["#a".to_owned(), "#b".to_owned()];
    let mut c = Client::new(&conf, 3);
    let mut sink = Vec::new();
    write_data(&mut c, &mut sink);
    read_expect(&mut c, b":srv 004 bot srv v1\r\n", ClientReadStat::HasWritableData);
    write_expect(&mut c, ClientWriteStat::Okay, b"JOIN #a,#b\r\n");
    assert!(c.state.channels.is_empty());
    read_expect(&mut c, b":bot!b@h JOIN #a\r\n:bot!b@h JOIN #b\r\n:x!y@z JOIN #c\r\n", ClientReadStat::Okay);
    assert_eq!(c.state.channels, vec!["#a".to_owned(), "#b".to_owned()]);
    read_expect(&mut c, b":BOT!b@h PART #a\r\n", ClientReadStat::Okay);
    assert_eq!(c.state.channels, vec!["#b".to_owned()]);
    read_expect(&mut c, b":op!o@h KICK #b bot :bye\r\n", ClientReadStat::Okay);
    assert!(c.state.channels.is_empty());
}

#[test]
fn server_renames_us() {
    let mut c = greeted_client();
    read_expect(&mut c, b":bot!b@h NICK newbot\r\n", ClientReadStat::Okay);
    assert_eq!(c.state.nick, "newbot");
    read_expect(&mut c, b":other!b@h NICK x\r\n", ClientReadStat::Okay);
    assert_eq!(c.state.nick, "newbot");
}

#[test]
fn eof_and_full_buffer() {
    let mut c = greeted_client();
    read_expect(&mut c, b"", ClientReadStat::Eof);
    let big = vec![b'x'; c.read_capacity()];
    read_expect(&mut c, &big, ClientReadStat::Okay);
    assert_eq!(c.read_capacity(), 0);
    read_expect(&mut c, b"", ClientReadStat::ReadBufferFull);
}

#[test]
fn short_and_blocked_writes_keep_order() {
    let mut c = greeted_client();
    read_expect(&mut c, b"PING :a\r\nPING :b\r\n", ClientReadStat::HasWritableData);
    assert_eq!(c.finish_write(None), ClientWriteStat::Blocked);
    let chunk = c.write_chunk();
    assert_eq!(chunk, b"PONG :a\r\nPONG :b\r\n".to_vec());
    assert_eq!(c.finish_write(Some(3)), ClientWriteStat::Okay);
    read_expect(&mut c, b"PING :c\r\n", ClientReadStat::HasWritableData);
    write_expect(&mut c, ClientWriteStat::Okay, b"G :a\r\nPONG :b\r\nPONG :c\r\n");
    write_expect(&mut c, ClientWriteStat::Eof, b"");
}

#[test]
fn plugin_ingestion() {
    let mut c = greeted_client();
    let mut plug = Plugin::new();
    assert_eq!(plug.receive(b"PRIVMSG #chan :Hello, World!\n"), PluginReadStat::Okay);
    let step = c.process_plugin(&mut plug, PluginReadStat::Okay);
    assert!(step.read_more && !step.has_data);
    let step = c.process_plugin(&mut plug, PluginReadStat::Eof);
    assert!(!step.read_more && step.has_data);
    write_expect(&mut c, ClientWriteStat::Okay, b"PRIVMSG #chan :Hello, World!\r\n");
    assert!(plug.get_buf().is_empty());
}

#[test]
fn plugin_partial_line_is_kept() {
    let mut c = greeted_client();
    let mut plug = Plugin::new();
    plug.receive(b"PRIVMSG #a :one\nPRIVMSG #a :tw");
    let step = c.process_plugin(&mut plug, PluginReadStat::Blocked);
    assert!(step.has_data);
    assert_eq!(plug.get_buf(), b"PRIVMSG #a :tw");
    plug.receive(b"o\n");
    c.process_plugin(&mut plug, PluginReadStat::Eof);
    write_expect(&mut c, ClientWriteStat::Okay, b"PRIVMSG #a :one\r\nPRIVMSG #a :two\r\n");
}

#[test]
fn collision_rename_with_given_suffix() {
    let mut c = greeted_client();
    let line = c.state.collision_rename(&vec!['1', '2', '3', '4']);
    assert_eq!(line, b"NICK bot_1234\r\n".to_vec());
    assert_eq!(c.state.nick, "bot_1234");
    let line = c.state.collision_rename(&vec!['9', '0', '0', '9']);
    assert_eq!(line, b"NICK bot_1234_9009\r\n".to_vec());
}

#[test]
fn ready_state_machine() {
    let conf = default_conf();
    let mut c = Client::new(&conf, 5);
    assert_eq!(c.state.ready_state(), IrcState::Unknown);
    assert_eq!(c.state.casemapping(), CaseMapping::Rfc1459);
    let mut sink = Vec::new();
    write_data(&mut c, &mut sink);
    assert_eq!(c.state.ready_state(), IrcState::PreAuth);
    read_expect(&mut c, b":srv 004 bot srv v1\r\n", ClientReadStat::HasWritableData);
    assert_eq!(c.state.ready_state(), IrcState::Authenticated);
    read_expect(&mut c, b":srv 005 bot CASEMAPPING=ascii :are supported\r\n", ClientReadStat::Okay);
    assert_eq!(c.state.ready_state(), IrcState::Ready(true));
}

#[test]
fn original_nick_is_kept_across_collisions() {
    let mut c = greeted_client();
    assert!(c.state.original_nick().is_none());
    read_expect(&mut c, b":srv 433 * bot :in use\r\n", ClientReadStat::HasWritableData);
    assert_eq!(c.state.original_nick().map(|s| s.as_str()), Some("bot"));
    read_expect(&mut c, b":srv 433 * x :in use\r\n", ClientReadStat::HasWritableData);
    assert_eq!(c.state.original_nick().map(|s| s.as_str()), Some("bot"));
    assert_eq!(c.state.nick.len(), "bot_1234_5678".len());
}

#[test]
fn new_client_starts_with_defaults() {
    let c = Client::new(&default_conf(), 11);
    assert_eq!(c.state.nick, "bot");
    assert!(c.state.umode.is_empty());
    assert!(c.state.channel_modes.is_empty());
    assert!(c.state.original_nick().is_none());
    assert_eq!(c.read_capacity(), neo8ball::client::BUF_SIZ);
}
