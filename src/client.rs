//! The protocol state machine: consumes server lines, keeps the session state
//! and queues outbound bytes.
use vstd::prelude::*;
use vstd::string::StringSliceAdditionalSpecFns;

use std::collections::{HashMap, HashSet, VecDeque};

use rand::rngs::SmallRng;

use crate::bytes::{bytes_eq, extend_bytes};
use crate::config::Config;
use crate::helpers::{
    cap_acked, case_cmp, case_eq, channel_bytes, crlf, join_channels, pack_channel_list, parse_cap,
    CaseMapping,
};
use crate::iter::{BufIterator, TruncStatus};
use crate::plugin::{Plugin, PluginReadStat};
use crate::parse::{message_is_empty, opt_view, params_list, parse_message, Message, MessageView};
use crate::text::{lossy_text, push_char, text_of};

verus! {

/// Size of the read buffer; an IRC line is at most 512 bytes.
pub const BUF_SIZ: usize = 16384;

#[verifier::external_type_specification]
#[verifier::external_body]
pub struct ExSmallRng(SmallRng);

/// Relies on rand's `SeedableRng::seed_from_u64` for `SmallRng`: a generator
/// started from `seed`.
#[verifier::external_body]
fn seeded_rng(seed: u64) -> SmallRng {
    <SmallRng as rand::SeedableRng>::seed_from_u64(seed)
}

/// Relies on rand's `Rng::gen_range` over `'0'..':'`: a character in that
/// range, that is an ASCII digit.
#[verifier::external_body]
fn random_digit(rng: &mut SmallRng) -> (c: char)
    ensures
        '0' <= c <= '9',
{
    rand::Rng::gen_range(rng, '0'..':')
}

/// Where the session stands.
#[derive(PartialEq, Eq, Structural, Clone, Copy, Debug)]
pub enum IrcState {
    Unknown,
    PreAuth,
    Authenticated,
    /// Carries whether ISUPPORT was seen.
    Ready(bool),
}

/// Outcome of handling server lines.
#[derive(Debug, PartialEq)]
pub enum IrcProto {
    Okay,
    /// Bytes were queued for the server.
    Data,
    Error(String),
}

/// Outcome of a receive.
#[derive(Debug, PartialEq)]
pub enum ClientReadStat {
    Error(String),
    ReadBufferFull,
    HasWritableData,
    Blocked,
    Okay,
    Eof,
}

/// Outcome of a write.
#[derive(PartialEq, Eq, Structural, Clone, Copy, Debug)]
pub enum ClientWriteStat {
    Blocked,
    Okay,
    Eof,
}

/// The session state.
pub struct State {
    pub nick: String,
    pub channels: Vec<String>,
    /// User-mode letters currently set.
    pub umode: HashSet<u8>,
    /// Administrative mode flags per channel.
    pub channel_modes: HashMap<String, u64>,
    ready_state: IrcState,
    /// The nickname first asked for, once a collision changed it.
    original_nick: Option<String>,
    casemapping: CaseMapping,
    /// Valid channel prefixes.
    chantypes: Vec<u8>,
    /// Mode letter and nick prefix pairs.
    mode_prefix: Vec<(u8, u8)>,
}

/// The parts of the session state that the protocol changes.
pub struct Session {
    pub nick: Seq<char>,
    pub original_nick: Option<Seq<char>>,
    pub channels: Seq<Seq<char>>,
    pub ready: IrcState,
    pub casemapping: CaseMapping,
}

/// An outcome, with its text as characters.
pub enum ProtoView {
    Okay,
    Data,
    Error(Seq<char>),
}

impl IrcProto {
    pub open spec fn view(&self) -> ProtoView {
        match self {
            IrcProto::Okay => ProtoView::Okay,
            IrcProto::Data => ProtoView::Data,
            IrcProto::Error(s) => ProtoView::Error(s@),
        }
    }
}

pub open spec fn nick_bytes(s: Session) -> Seq<u8> {
    vstd::utf8::encode_utf8(s.nick)
}

/// Four ASCII digits.
pub open spec fn digit_suffix(d: Seq<char>) -> bool {
    d.len() == 4 && forall|i: int| 0 <= i < d.len() ==> '0' <= #[trigger] d[i] <= '9'
}

/// `chans` without the channels whose name is `chan`.
pub open spec fn without(chans: Seq<Seq<char>>, chan: Seq<u8>) -> Seq<Seq<char>>
    decreases chans.len(),
{
    if chans.len() == 0 {
        chans
    } else if vstd::utf8::encode_utf8(chans.last()) == chan {
        without(chans.drop_last(), chan)
    } else {
        without(chans.drop_last(), chan).push(chans.last())
    }
}

pub open spec fn opt_bytes(o: Option<Seq<u8>>) -> Seq<u8> {
    match o {
        Some(x) => x,
        None => Seq::empty(),
    }
}

pub open spec fn is_cmd(cmd: Option<Seq<u8>>, name: &str) -> bool {
    cmd == Some(name.spec_bytes())
}

/// One message's effect: the new session, the bytes queued for the server and
/// the outcome. `d` is the digit suffix a nickname collision appends.
#[verifier::opaque]
pub open spec fn step(s: Session, m: MessageView, d: Seq<char>) -> (Session, Seq<u8>, ProtoView) {
    let cmd = m.command;
    let ps = params_list(m.params);
    let me = nick_bytes(s);
    let cm = s.casemapping;
    if m.nick is None {
        if is_cmd(cmd, "PING") {
            (s, "PONG ".spec_bytes() + opt_bytes(m.params) + crlf(), ProtoView::Data)
        } else if is_cmd(cmd, "ERROR") {
            match m.params {
                Some(p) => (s, Seq::empty(), ProtoView::Error(lossy_text(p))),
                None => (s, "QUIT :bye\r\n".spec_bytes(), ProtoView::Data),
            }
        } else {
            (s, Seq::empty(), ProtoView::Okay)
        }
    } else {
        let sender = m.nick->Some_0;
        let is_me = case_eq(cm, sender, me);
        if is_cmd(cmd, "NICK") {
            if is_me && ps.len() > 0 {
                (Session { nick: lossy_text(ps[0]), ..s }, Seq::empty(), ProtoView::Okay)
            } else {
                (s, Seq::empty(), ProtoView::Okay)
            }
        } else if is_cmd(cmd, "PRIVMSG") {
            if ps.len() >= 2 && case_eq(cm, ps[0], me) && ps[1] == "\x01VERSION\x01".spec_bytes() {
                (
                    s,
                    "NOTICE ".spec_bytes() + sender + " :\x01r8ball: v0.0.0\x01\r\n".spec_bytes(),
                    ProtoView::Data,
                )
            } else {
                (s, Seq::empty(), ProtoView::Okay)
            }
        } else if is_cmd(cmd, "JOIN") {
            if is_me && ps.len() > 0 {
                (
                    Session { channels: s.channels.push(lossy_text(ps[0])), ..s },
                    Seq::empty(),
                    ProtoView::Okay,
                )
            } else {
                (s, Seq::empty(), ProtoView::Okay)
            }
        } else if is_cmd(cmd, "PART") {
            if is_me && ps.len() > 0 {
                (Session { channels: without(s.channels, ps[0]), ..s }, Seq::empty(), ProtoView::Okay)
            } else {
                (s, Seq::empty(), ProtoView::Okay)
            }
        } else if is_cmd(cmd, "KICK") {
            if ps.len() >= 2 && case_eq(cm, ps[1], me) {
                (Session { channels: without(s.channels, ps[0]), ..s }, Seq::empty(), ProtoView::Okay)
            } else {
                (s, Seq::empty(), ProtoView::Okay)
            }
        } else if is_cmd(cmd, "004") {
            (
                Session { ready: IrcState::Authenticated, channels: Seq::empty(), ..s },
                pack_channel_list(
                    "JOIN".spec_bytes(),
                    s.channels.map_values(|c: Seq<char>| vstd::utf8::encode_utf8(c)),
                ),
                ProtoView::Data,
            )
        } else if is_cmd(cmd, "005") {
            (Session { ready: IrcState::Ready(true), ..s }, Seq::empty(), ProtoView::Okay)
        } else if is_cmd(cmd, "433") || is_cmd(cmd, "436") {
            let nick = s.nick.push('_') + d;
            (
                Session {
                    nick: nick,
                    original_nick: if s.original_nick is None {
                        Some(s.nick)
                    } else {
                        s.original_nick
                    },
                    ..s
                },
                "NICK ".spec_bytes() + vstd::utf8::encode_utf8(nick) + crlf(),
                ProtoView::Data,
            )
        } else if is_cmd(cmd, "464") {
            (s, Seq::empty(), ProtoView::Error("Invalid password given in PASS command."@))
        } else if is_cmd(cmd, "465") {
            (s, Seq::empty(), ProtoView::Error("We are banned."@))
        } else if is_cmd(cmd, "CAP") {
            if cap_acked(ps) {
                (s, "CAP END\r\n".spec_bytes(), ProtoView::Data)
            } else {
                (s, Seq::empty(), ProtoView::Error("We did not receive and ACK for multi-prefix"@))
            }
        } else if is_cmd(cmd, "902") || is_cmd(cmd, "903") || is_cmd(cmd, "904") || is_cmd(
            cmd,
            "905",
        ) || is_cmd(cmd, "906") {
            (s, Seq::empty(), ProtoView::Error("We had an SASL problem."@))
        } else {
            (s, Seq::empty(), ProtoView::Okay)
        }
    }
}

pub open spec fn channel_names(chans: Seq<String>) -> Seq<Seq<char>> {
    chans.map_values(|c: String| c@)
}

impl State {
    /// The session this state holds.
    pub closed spec fn session(&self) -> Session {
        Session {
            nick: self.nick@,
            original_nick: match self.original_nick {
                Some(n) => Some(n@),
                None => None,
            },
            channels: channel_names(self.channels@),
            ready: self.ready_state,
            casemapping: self.casemapping,
        }
    }
}

impl State {
    /// Where the session stands.
    pub fn ready_state(&self) -> (r: IrcState)
        ensures
            r == self.session().ready,
    {
        self.ready_state
    }

    /// The nickname first asked for, once a collision changed it.
    pub fn original_nick(&self) -> (r: Option<&String>)
        ensures
            match r {
                Some(n) => self.session().original_nick == Some(n@),
                None => self.session().original_nick is None,
            },
    {
        self.original_nick.as_ref()
    }

    /// The case mapping names are compared with.
    pub fn casemapping(&self) -> (r: CaseMapping)
        ensures
            r == self.session().casemapping,
    {
        self.casemapping
    }
}

impl State {
    /// Takes a new nickname after a collision: remembers the nickname first
    /// asked for, appends `_` and `suffix`, and returns the `NICK` line that
    /// asks for the new name.
    pub fn collision_rename(&mut self, suffix: &Vec<char>) -> (r: Vec<u8>)
        ensures
            ({
                let s = old(self).session();
                let nick = s.nick.push('_') + suffix@;
                &&& final(self).session() == Session {
                    nick: nick,
                    original_nick: if s.original_nick is None {
                        Some(s.nick)
                    } else {
                        s.original_nick
                    },
                    ..s
                }
                &&& r@ == "NICK ".spec_bytes() + vstd::utf8::encode_utf8(nick) + crlf()
            }),
    {
        if self.original_nick.is_none() {
            self.original_nick = Some(self.nick.clone());
        }
        push_char(&mut self.nick, '_');
        let ghost base = self.nick@;
        let mut k: usize = 0;
        while k < suffix.len()
            invariant
                k <= suffix@.len(),
                self.nick@ == base + suffix@.take(k as int),
                self.session().original_nick == (if old(self).session().original_nick is None {
                    Some(old(self).session().nick)
                } else {
                    old(self).session().original_nick
                }),
                base == old(self).session().nick.push('_'),
                self.channels@ == old(self).channels@,
                self.ready_state == old(self).ready_state,
                self.casemapping == old(self).casemapping,
            decreases suffix@.len() - k,
        {
            push_char(&mut self.nick, suffix[k]);
            k = k + 1;
            assert(self.nick@ =~= base + suffix@.take(k as int));
        }
        assert(suffix@.take(k as int) =~= suffix@);
        let mut out: Vec<u8> = Vec::new();
        extend_bytes(&mut out, "NICK ".as_bytes());
        extend_bytes(&mut out, self.nick.as_str().as_bytes());
        extend_bytes(&mut out, &[13u8, 10u8]);
        out
    }
}

fn cmd_is(cmd: Option<&[u8]>, name: &str) -> (r: bool)
    ensures
        r == is_cmd(opt_view(cmd), name),
{
    match cmd {
        Some(c) => bytes_eq(c, name.as_bytes()),
        None => false,
    }
}

/// `chans` without the channels whose name is `chan`.
fn remove_channel(chans: &Vec<String>, chan: &[u8]) -> (r: Vec<String>)
    ensures
        channel_names(r@) == without(channel_names(chans@), chan@),
{
    let mut r: Vec<String> = Vec::new();
    let mut i: usize = 0;
    while i < chans.len()
        invariant
            i <= chans@.len(),
            channel_names(r@) == without(channel_names(chans@.take(i as int)), chan@),
        decreases chans@.len() - i,
    {
        let c = &chans[i];
        let keep = !bytes_eq(c.as_str().as_bytes(), chan);
        if keep {
            r.push(c.clone());
        }
        assert(channel_names(chans@.take(i + 1 as int)).drop_last() =~= channel_names(
            chans@.take(i as int),
        ));
        i = i + 1;
        assert(channel_names(r@) =~= without(channel_names(chans@.take(i as int)), chan@));
    }
    assert(chans@.take(i as int) =~= chans@);
    r
}

/// Whether `sender` is our own nick.
fn is_me(state: &State, sender: Option<&[u8]>) -> (r: bool)
    ensures
        r == match opt_view(sender) {
            Some(n) => case_eq(state.session().casemapping, n, nick_bytes(state.session())),
            None => false,
        },
{
    match sender {
        Some(n) => case_cmp(&state.casemapping, n, state.nick.as_str().as_bytes()),
        None => false,
    }
}

/// The login preamble: capability request, nickname and user registration.
pub open spec fn login_bytes(nick: Seq<u8>, user: Seq<u8>) -> Seq<u8> {
    "CAP REQ :multi-prefix\r\nNICK ".spec_bytes() + nick + "\r\nUSER ".spec_bytes() + user
        + " +i * :".spec_bytes() + nick + crlf()
}

fn login_command(nick: &[u8], user: &[u8]) -> (r: Vec<u8>)
    ensures
        r@ == login_bytes(nick@, user@),
{
    let mut r: Vec<u8> = Vec::new();
    extend_bytes(&mut r, "CAP REQ :multi-prefix\r\nNICK ".as_bytes());
    extend_bytes(&mut r, nick);
    extend_bytes(&mut r, "\r\nUSER ".as_bytes());
    extend_bytes(&mut r, user);
    extend_bytes(&mut r, " +i * :".as_bytes());
    extend_bytes(&mut r, nick);
    extend_bytes(&mut r, &[13u8, 10u8]);
    r
}

fn clone_strings(v: &Vec<String>) -> (r: Vec<String>)
    ensures
        channel_names(r@) == channel_names(v@),
{
    let mut r: Vec<String> = Vec::new();
    let mut i: usize = 0;
    while i < v.len()
        invariant
            i <= v@.len(),
            channel_names(r@) == channel_names(v@.take(i as int)),
        decreases v@.len() - i,
    {
        let ghost old_r = r@;
        let c = v[i].as_str().to_owned();
        r.push(c);
        assert(channel_names(r@) =~= channel_names(old_r).push(c@));
        assert(channel_names(v@.take(i + 1)) =~= channel_names(v@.take(i as int)).push(v@[i as int]@));
        i = i + 1;
    }
    assert(v@.take(i as int) =~= v@);
    r
}

/// Handles one message: updates `state` and returns the outcome with the
/// bytes to queue for the server.
#[verifier::rlimit(60)]
fn handle_message(state: &mut State, rng: &mut SmallRng, m: &Message) -> (r: (
    IrcProto,
    Vec<u8>,
    Ghost<Seq<char>>,
))
    ensures
        digit_suffix(r.2@),
        step(old(state).session(), m@, r.2@) == (final(state).session(), r.1@, r.0.view()),
{
    reveal(step);
    let ghost s0 = state.session();
    let ghost d0: Seq<char> = seq!['0', '0', '0', '0'];
    assert(digit_suffix(d0));
    let mut out: Vec<u8> = Vec::new();
    let crlf_bytes: [u8; 2] = [13u8, 10u8];
    if m.nick.is_none() {
        if cmd_is(m.command, "PING") {
            extend_bytes(&mut out, "PONG ".as_bytes());
            match m.params {
                Some(p) => extend_bytes(&mut out, p),
                None => {},
            }
            extend_bytes(&mut out, &crlf_bytes);
            assert(step(s0, m@, d0).1 =~= out@);
            return (IrcProto::Data, out, Ghost(d0));
        } else if cmd_is(m.command, "ERROR") {
            match m.params {
                Some(p) => {
                    let t = text_of(p);
                    assert(step(s0, m@, d0).1 =~= out@);
                    return (IrcProto::Error(t), out, Ghost(d0));
                },
                None => {
                    extend_bytes(&mut out, "QUIT :bye\r\n".as_bytes());
                    assert(step(s0, m@, d0).1 =~= out@);
                    return (IrcProto::Data, out, Ghost(d0));
                },
            }
        } else {
            assert(step(s0, m@, d0).1 =~= out@);
            return (IrcProto::Okay, out, Ghost(d0));
        }
    }
    let sender = m.nick.unwrap();
    let is_me = is_me(state, m.nick);
    let mut params = m.parameters();
    let p0 = params.next();
    let p1 = params.next();
    let ghost ps = params_list(m@.params);
    assert(p0 is None ==> ps.len() == 0);
    assert(p0 is Some ==> ps.len() >= 1 && ps[0] == p0->Some_0@);
    assert(p0 is Some && p1 is None ==> ps.len() == 1);
    assert(p0 is Some && p1 is Some ==> ps.len() >= 2 && ps[1] == p1->Some_0@);
    if cmd_is(m.command, "NICK") {
        if is_me && p0.is_some() {
            state.nick = text_of(p0.unwrap());
        }
        assert(step(s0, m@, d0).0 == state.session());
        assert(step(s0, m@, d0).1 =~= out@);
        return (IrcProto::Okay, out, Ghost(d0));
    }
    if cmd_is(m.command, "PRIVMSG") {
        if p0.is_some() && p1.is_some() && case_cmp(
            &state.casemapping,
            p0.unwrap(),
            state.nick.as_str().as_bytes(),
        ) && bytes_eq(p1.unwrap(), "\x01VERSION\x01".as_bytes()) {
            extend_bytes(&mut out, "NOTICE ".as_bytes());
            extend_bytes(&mut out, sender);
            extend_bytes(&mut out, " :\x01r8ball: v0.0.0\x01\r\n".as_bytes());
            assert(step(s0, m@, d0).1 =~= out@);
            return (IrcProto::Data, out, Ghost(d0));
        }
        assert(step(s0, m@, d0).1 =~= out@);
        return (IrcProto::Okay, out, Ghost(d0));
    }
    if cmd_is(m.command, "JOIN") {
        if is_me && p0.is_some() {
            let ch = text_of(p0.unwrap());
            state.channels.push(ch);
            assert(state.session().channels =~= s0.channels.push(ch@));
        }
        assert(step(s0, m@, d0).0 == state.session());
        assert(step(s0, m@, d0).1 =~= out@);
        return (IrcProto::Okay, out, Ghost(d0));
    }
    if cmd_is(m.command, "PART") {
        if is_me && p0.is_some() {
            state.channels = remove_channel(&state.channels, p0.unwrap());
        }
        assert(step(s0, m@, d0).0 == state.session());
        assert(step(s0, m@, d0).1 =~= out@);
        return (IrcProto::Okay, out, Ghost(d0));
    }
    if cmd_is(m.command, "KICK") {
        if p0.is_some() && p1.is_some() && case_cmp(
            &state.casemapping,
            p1.unwrap(),
            state.nick.as_str().as_bytes(),
        ) {
            state.channels = remove_channel(&state.channels, p0.unwrap());
        }
        assert(step(s0, m@, d0).0 == state.session());
        assert(step(s0, m@, d0).1 =~= out@);
        return (IrcProto::Okay, out, Ghost(d0));
    }
    if cmd_is(m.command, "004") {
        let joins = join_channels(&state.channels);
        assert(channel_bytes(state.channels@) =~= s0.channels.map_values(
            |c: Seq<char>| vstd::utf8::encode_utf8(c),
        ));
        extend_bytes(&mut out, joins.as_slice());
        state.channels = Vec::new();
        state.ready_state = IrcState::Authenticated;
        assert(state.session().channels =~= Seq::<Seq<char>>::empty());
        assert(step(s0, m@, d0).0 == state.session());
        assert(step(s0, m@, d0).1 =~= out@);
        return (IrcProto::Data, out, Ghost(d0));
    }
    if cmd_is(m.command, "005") {
        state.ready_state = IrcState::Ready(true);
        assert(step(s0, m@, d0).0 == state.session());
        assert(step(s0, m@, d0).1 =~= out@);
        return (IrcProto::Okay, out, Ghost(d0));
    }
    if cmd_is(m.command, "433") || cmd_is(m.command, "436") {
        let mut suffix: Vec<char> = Vec::new();
        while suffix.len() < 4
            invariant
                suffix@.len() <= 4,
                forall|i: int| 0 <= i < suffix@.len() ==> '0' <= #[trigger] suffix@[i] <= '9',
            decreases 4 - suffix@.len(),
        {
            suffix.push(random_digit(rng));
        }
        let line = state.collision_rename(&suffix);
        assert(step(s0, m@, suffix@).0 == state.session());
        return (IrcProto::Data, line, Ghost(suffix@));
    }
    if cmd_is(m.command, "464") {
        let t = "Invalid password given in PASS command.".to_owned();
        assert(step(s0, m@, d0).1 =~= out@);
        return (IrcProto::Error(t), out, Ghost(d0));
    }
    if cmd_is(m.command, "465") {
        let t = "We are banned.".to_owned();
        assert(step(s0, m@, d0).1 =~= out@);
        return (IrcProto::Error(t), out, Ghost(d0));
    }
    if cmd_is(m.command, "CAP") {
        if parse_cap(m) {
            extend_bytes(&mut out, "CAP END\r\n".as_bytes());
            assert(step(s0, m@, d0).1 =~= out@);
            return (IrcProto::Data, out, Ghost(d0));
        }
        let t = "We did not receive and ACK for multi-prefix".to_owned();
        assert(step(s0, m@, d0).1 =~= out@);
        return (IrcProto::Error(t), out, Ghost(d0));
    }
    if cmd_is(m.command, "902") || cmd_is(m.command, "903") || cmd_is(m.command, "904")
        || cmd_is(m.command, "905") || cmd_is(m.command, "906") {
        let t = "We had an SASL problem.".to_owned();
        assert(step(s0, m@, d0).1 =~= out@);
        return (IrcProto::Error(t), out, Ghost(d0));
    }
    assert(step(s0, m@, d0).1 =~= out@);
    (IrcProto::Okay, out, Ghost(d0))
}

/// Combines the outcome so far with a message's outcome.
pub open spec fn merge(o0: ProtoView, o1: ProtoView) -> ProtoView {
    if o1 is Error {
        o1
    } else if o0 is Data || o1 is Data {
        ProtoView::Data
    } else {
        ProtoView::Okay
    }
}

/// The effect of a sequence of lines: each non-empty `Full` line is parsed
/// and handled in turn (with its entry of `ds` as collision suffix), a `Part`
/// line is left alone, and nothing after an error is handled.
pub open spec fn run(s: Session, ls: Seq<TruncStatus<Seq<u8>>>, ds: Seq<Seq<char>>) -> (
    Session,
    Seq<u8>,
    ProtoView,
)
    decreases ls.len(),
{
    if ls.len() == 0 {
        (s, Seq::empty(), ProtoView::Okay)
    } else {
        let (s0, out0, o0) = run(s, ls.drop_last(), ds.drop_last());
        if o0 is Error {
            (s0, out0, o0)
        } else {
            match ls.last() {
                TruncStatus::Part(_) => (s0, out0, o0),
                TruncStatus::Full(line) => {
                    let m = parse_message(line);
                    if message_is_empty(m) {
                        (s0, out0, o0)
                    } else {
                        let (s1, out1, o1) = step(s0, m, ds.last());
                        (s1, out0 + out1, merge(o0, o1))
                    }
                },
            }
        }
    }
}

pub open spec fn digit_suffixes(ds: Seq<Seq<char>>, n: int) -> bool {
    ds.len() == n && forall|i: int| 0 <= i < n ==> digit_suffix(#[trigger] ds[i])
}

/// The trailing partial line of `ls`, or nothing.
pub open spec fn tail_part(ls: Seq<TruncStatus<Seq<u8>>>) -> Seq<u8> {
    if ls.len() > 0 && ls.last() is Part {
        ls.last()->Part_0
    } else {
        Seq::empty()
    }
}

/// How an outcome is reported to the caller of a receive.
pub open spec fn reports(r: ClientReadStat, o: ProtoView) -> bool {
    match o {
        ProtoView::Okay => r is Okay,
        ProtoView::Data => r is HasWritableData,
        ProtoView::Error(t) => r is Error && r->Error_0@ == t,
    }
}

proof fn lemma_run_after_error(
    s: Session,
    ls: Seq<TruncStatus<Seq<u8>>>,
    ds: Seq<Seq<char>>,
    k: int,
)
    requires
        0 <= k <= ls.len(),
        ds.len() == ls.len(),
        run(s, ls.take(k), ds.take(k)).2 is Error,
    ensures
        run(s, ls, ds) == run(s, ls.take(k), ds.take(k)),
    decreases ls.len() - k,
{
    if k < ls.len() {
        assert(ls.take(k + 1).drop_last() =~= ls.take(k));
        assert(ds.take(k + 1).drop_last() =~= ds.take(k));
        lemma_run_after_error(s, ls, ds, k + 1);
        assert(ls.take(k + 1).drop_last() =~= ls.take(k));
        assert(ds.take(k + 1).drop_last() =~= ds.take(k));
    } else {
        assert(ls.take(k) =~= ls);
        assert(ds.take(k) =~= ds);
    }
}

/// Appends `src` to the queue `dst`.
fn enqueue(dst: &mut VecDeque<u8>, src: &[u8])
    ensures
        final(dst)@ == old(dst)@ + src@,
{
    let ghost start = dst@;
    let mut i: usize = 0;
    while i < src.len()
        invariant
            i <= src@.len(),
            dst@ == start + src@.subrange(0, i as int),
        decreases src@.len() - i,
    {
        dst.push_back(src[i]);
        i = i + 1;
        assert(src@.subrange(0, i as int) == src@.subrange(0, i - 1 as int).push(src@[i - 1]));
    }
    assert(src@.subrange(0, i as int) == src@);
}

/// Copies `buf[from..to]` to the front of `buf`.
fn move_to_front(buf: &mut Vec<u8>, from: usize, to: usize)
    requires
        from <= to <= old(buf)@.len(),
    ensures
        final(buf)@.len() == old(buf)@.len(),
        final(buf)@.take(to - from) == old(buf)@.subrange(from as int, to as int),
{
    let ghost p = buf@.subrange(from as int, to as int);
    let n = to - from;
    let mut k: usize = 0;
    while k < n
        invariant
            buf@.len() == old(buf)@.len(),
            from <= to <= buf@.len(),
            n == to - from,
            p == old(buf)@.subrange(from as int, to as int),
            k <= n,
            forall|j: int| 0 <= j < k ==> #[trigger] buf@[j] == p[j],
            forall|j: int| k + from <= j < to ==> #[trigger] buf@[j] == p[j - from],
        decreases n - k,
    {
        let b = buf[from + k];
        buf[k] = b;
        k = k + 1;
    }
    assert(buf@.take(n as int) =~= p);
}

/// The bytes a drain of plugin output queues: each `Full` line followed by
/// CRLF.
pub open spec fn full_lines_out(ls: Seq<TruncStatus<Seq<u8>>>) -> Seq<u8>
    decreases ls.len(),
{
    if ls.len() == 0 {
        Seq::empty()
    } else {
        full_lines_out(ls.drop_last()) + match ls.last() {
            TruncStatus::Full(x) => x + crlf(),
            TruncStatus::Part(_) => Seq::empty(),
        }
    }
}

pub open spec fn has_full(ls: Seq<TruncStatus<Seq<u8>>>) -> bool {
    exists|i: int| 0 <= i < ls.len() && #[trigger] ls[i] is Full
}

/// What one step of reading a plugin came to.
#[derive(PartialEq, Eq, Structural, Clone, Copy, Debug)]
pub struct PluginProgress {
    /// Whether the plugin should be read again now.
    pub read_more: bool,
    /// Whether bytes were queued for the server.
    pub has_data: bool,
}

/// Client for one IRC connection: session state, a read buffer holding
/// the unfinished tail of the last read, and a queue of bytes for the
/// server.
pub struct Client {
    pub state: State,
    read_buffer: Vec<u8>,
    read_head: usize,
    write_buffer: VecDeque<u8>,
    rng: SmallRng,
    /// Every byte ever queued for the server.
    queued: Ghost<Seq<u8>>,
    /// Every byte ever handed to the server.
    sent: Ghost<Seq<u8>>,
}

impl Client {
    pub closed spec fn wf(&self) -> bool {
        &&& self.read_buffer@.len() == BUF_SIZ
        &&& self.read_head <= BUF_SIZ
        &&& self.sent@ + self.write_buffer@ == self.queued@
    }

    pub closed spec fn session(&self) -> Session {
        self.state.session()
    }

    /// The valid channel prefixes.
    pub closed spec fn chantypes(&self) -> Seq<u8> {
        self.state.chantypes@
    }

    /// The mode letter and nick prefix pairs.
    pub closed spec fn mode_prefix(&self) -> Seq<(u8, u8)> {
        self.state.mode_prefix@
    }

    /// The user-mode letters set.
    pub closed spec fn umode(&self) -> Set<u8> {
        self.state.umode@
    }

    /// The administrative mode flags per channel.
    pub closed spec fn channel_modes(&self) -> Map<String, u64> {
        self.state.channel_modes@
    }

    /// The bytes queued and not yet written.
    pub closed spec fn pending(&self) -> Seq<u8> {
        self.write_buffer@
    }

    /// The unfinished line kept from earlier reads.
    pub closed spec fn partial(&self) -> Seq<u8> {
        self.read_buffer@.take(self.read_head as int)
    }

    pub closed spec fn queued_log(&self) -> Seq<u8> {
        self.queued@
    }

    pub closed spec fn sent_log(&self) -> Seq<u8> {
        self.sent@
    }

    /// Handles the lines of `read_buffer[..len]`; keeps an unfinished last
    /// line at the front of the buffer.
    fn handle_data(&mut self, len: usize) -> (r: IrcProto)
        requires
            old(self).wf(),
            len <= BUF_SIZ,
        ensures
            final(self).wf(),
            final(self).sent_log() == old(self).sent_log(),
            ({
                let ls = crate::iter::lines(old(self).read_buffer@.take(len as int));
                exists|ds: Seq<Seq<char>>|
                    #![trigger run(old(self).session(), ls, ds)]
                    digit_suffixes(ds, ls.len() as int) && {
                        let (s1, out, o) = run(old(self).session(), ls, ds);
                        &&& final(self).session() == s1
                        &&& final(self).pending() == old(self).pending() + out
                        &&& final(self).queued_log() == old(self).queued_log() + out
                        &&& r.view() == o
                        &&& final(self).partial() == if o is Error {
                            old(self).partial()
                        } else {
                            tail_part(ls)
                        }
                    }
            }),
    {
        let ghost input = self.read_buffer@.take(len as int);
        let ghost ls = crate::iter::lines(input);
        let ghost s0 = self.state.session();
        let ghost pending0 = self.write_buffer@;
        let ghost queued0 = self.queued@;
        let ghost mut ds: Seq<Seq<char>> = Seq::empty();
        let ghost d0: Seq<char> = seq!['0', '0', '0', '0'];
        let ghost mut k: int = 0;
        proof {
            assert(digit_suffix(d0));
            crate::iter::lemma_line_discipline(input, 0);
        }
        let mut ret = IrcProto::Okay;
        let mut partial_idx: usize = 0;
        let mut partial_end: usize = 0;
        let buf = &self.read_buffer.as_slice()[0..len];
        assert(buf@ == input);
        let mut iter = BufIterator::new(buf);
        loop
            invariant_except_break
                ls == ls.take(k) + iter.remaining(),
                forall|i: int| 0 <= i < k ==> #[trigger] ls[i] is Full,
                digit_suffixes(ds, k),
                partial_idx == 0 && partial_end == 0,
                ({
                    let (s1, out, o) = run(s0, ls.take(k), ds);
                    &&& self.state.session() == s1
                    &&& self.write_buffer@ == pending0 + out
                    &&& ret.view() == o
                }),
            invariant
                self.read_buffer@.len() == BUF_SIZ,
                self.read_head <= BUF_SIZ,
                self.read_buffer@ == old(self).read_buffer@,
                self.read_head == old(self).read_head,
                self.sent@ == old(self).sent@,
                self.queued@ == old(self).queued@,
                old(self).sent@ + pending0 == queued0,
                pending0 == old(self).write_buffer@,
                queued0 == old(self).queued@,
                s0 == old(self).state.session(),
                len <= BUF_SIZ,
                buf@ == input,
                input == self.read_buffer@.take(len as int),
                ls == crate::iter::lines(input),
                iter.wf(),
                iter.buf() == input,
                0 <= k <= ls.len(),
                digit_suffix(d0),
                !(ret.view() is Error),
                forall|i: int|
                    0 <= i < ls.len() ==> match #[trigger] ls[i] {
                        TruncStatus::Part(x) => i == ls.len() - 1,
                        TruncStatus::Full(x) => true,
                    },
            ensures
                self.read_buffer@ == old(self).read_buffer@,
                self.read_head == old(self).read_head,
                self.sent@ == old(self).sent@,
                self.queued@ == old(self).queued@,
                digit_suffixes(ds, ls.len() as int),
                !(ret.view() is Error),
                ({
                    let (s1, out, o) = run(s0, ls, ds);
                    &&& self.state.session() == s1
                    &&& self.write_buffer@ == pending0 + out
                    &&& ret.view() == o
                }),
                partial_idx <= partial_end <= len,
                input.subrange(partial_idx as int, partial_end as int) == tail_part(ls),
            decreases ls.len() - k,
        {
            let ghost rem = iter.remaining();
            let line = iter.next();
            match line {
                None => {
                    assert(ls.take(k) =~= ls);
                    proof {
                        if ls.len() > 0 {
                            assert(ls[ls.len() - 1] is Full);
                        }
                        assert(input.subrange(0, 0) =~= Seq::<u8>::empty());
                    }
                    break;
                },
                Some(TruncStatus::Part(data)) => {
                    proof {
                        assert(ls[k] == rem[0]);
                        assert(k == ls.len() - 1);
                        assert(ls.take(k + 1) =~= ls);
                        let ds_old = ds;
                        ds = ds.push(d0);
                        assert(ds.drop_last() =~= ds_old);
                        assert(ls.drop_last() =~= ls.take(k));
                        assert(ls.last() is Part);
                        assert(run(s0, ls, ds) == run(s0, ls.take(k), ds_old));
                    }
                    partial_idx = len - data.len();
                    partial_end = len;
                    break;
                },
                Some(TruncStatus::Full(data)) => {
                    let msg = Message::new(data);
                    let ghost lk = ls.take(k + 1);
                    proof {
                        assert(ls[k] == rem[0]);
                        assert(lk.drop_last() =~= ls.take(k));
                        assert(ds.push(d0).drop_last() =~= ds);
                        assert(ls =~= lk + iter.remaining());
                    }
                    if msg.is_empty() {
                        proof {
                            ds = ds.push(d0);
                            k = k + 1;
                        }
                    } else {
                        let (res, out, d) = handle_message(&mut self.state, &mut self.rng, &msg);
                        enqueue(&mut self.write_buffer, out.as_slice());
                        proof {
                            assert(ds.push(d@).drop_last() =~= ds);
                            ds = ds.push(d@);
                            k = k + 1;
                        }
                        assert(self.write_buffer@ =~= pending0 + run(s0, ls.take(k), ds).1);
                        match res {
                            IrcProto::Error(t) => {
                                let ghost ds_ext = ds + Seq::new(
                                    (ls.len() - k) as nat,
                                    |i: int| d0,
                                );
                                proof {
                                    assert(ds_ext.take(k) =~= ds);
                                    assert forall|i: int| 0 <= i < ls.len() implies digit_suffix(
                                        #[trigger] ds_ext[i],
                                    ) by {
                                        if i < k {
                                            assert(ds_ext[i] == ds[i]);
                                        }
                                    }
                                    lemma_run_after_error(s0, ls, ds_ext, k);
                                }
                                self.queued = Ghost(self.queued@ + run(s0, ls.take(k), ds).1);
                                assert(self.sent@ + self.write_buffer@ =~= self.queued@);
                                assert(run(s0, ls, ds_ext) == run(s0, ls.take(k), ds));
                                return IrcProto::Error(t);
                            },
                            IrcProto::Data => {
                                ret = IrcProto::Data;
                            },
                            IrcProto::Okay => {},
                        }
                    }
                },
            }
        }
        let ghost out = run(s0, ls, ds).1;
        move_to_front(&mut self.read_buffer, partial_idx, partial_end);
        self.read_head = partial_end - partial_idx;
        self.queued = Ghost(self.queued@ + out);
        proof {
            assert(self.partial() =~= tail_part(ls));
            assert(self.sent@ + self.write_buffer@ =~= self.queued@);
        }
        ret
    }

    /// A client for `config` whose nickname suffixes come from a generator
    /// seeded with `seed`; the login preamble is queued.
    pub fn new(config: &Config, seed: u64) -> (r: Client)
        ensures
            r.wf(),
            r.session() == (Session {
                nick: config.general.nick@,
                original_nick: None,
                channels: channel_names(config.general.channels@),
                ready: IrcState::Unknown,
                casemapping: CaseMapping::Rfc1459,
            }),
            r.pending() == login_bytes(
                vstd::utf8::encode_utf8(config.general.nick@),
                vstd::utf8::encode_utf8(config.general.nick@),
            ),
            r.partial().len() == 0,
            r.sent_log().len() == 0,
            r.queued_log() == r.pending(),
            r.chantypes() == seq![35u8, 38u8],
            r.mode_prefix().len() == 0,
            r.umode() == Set::<u8>::empty(),
            r.channel_modes() == Map::<String, u64>::empty(),
    {
        let state = State {
            nick: config.general.nick.clone(),
            channels: clone_strings(&config.general.channels),
            umode: HashSet::new(),
            channel_modes: HashMap::new(),
            ready_state: IrcState::Unknown,
            original_nick: None,
            casemapping: CaseMapping::Rfc1459,
            chantypes: vec![35u8, 38u8],
            mode_prefix: Vec::new(),
        };
        let login = login_command(state.nick.as_str().as_bytes(), state.nick.as_str().as_bytes());
        let mut write_buffer: VecDeque<u8> = VecDeque::new();
        enqueue(&mut write_buffer, login.as_slice());
        let ghost q = write_buffer@;
        let r = Client {
            state,
            read_buffer: vec![0u8; BUF_SIZ],
            read_head: 0,
            write_buffer,
            rng: seeded_rng(seed),
            queued: Ghost(q),
            sent: Ghost(Seq::empty()),
        };
        assert(r.partial() =~= Seq::<u8>::empty());
        assert(r.sent@ + r.write_buffer@ =~= r.queued@);
        r
    }

    /// How many bytes the next read may bring.
    pub fn read_capacity(&self) -> (r: usize)
        requires
            self.wf(),
        ensures
            r == BUF_SIZ - self.partial().len(),
    {
        BUF_SIZ - self.read_head
    }

    /// Takes the bytes of one read from the server; an empty `data` is the
    /// end of the stream. The lines of the kept partial line followed by
    /// `data` are handled as [`run`] says, and an unfinished last line is
    /// kept for the next read.
    pub fn receive_bytes(&mut self, data: &[u8]) -> (r: ClientReadStat)
        requires
            old(self).wf(),
            data@.len() <= BUF_SIZ - old(self).partial().len(),
        ensures
            final(self).wf(),
            final(self).sent_log() == old(self).sent_log(),
            old(self).partial().len() == BUF_SIZ ==> r is ReadBufferFull,
            old(self).partial().len() < BUF_SIZ && data@.len() == 0 ==> r is Eof,
            r is ReadBufferFull || r is Eof ==> {
                &&& final(self).session() == old(self).session()
                &&& final(self).pending() == old(self).pending()
                &&& final(self).queued_log() == old(self).queued_log()
                &&& final(self).partial() == old(self).partial()
            },
            old(self).partial().len() < BUF_SIZ && data@.len() > 0 ==> {
                let ls = crate::iter::lines(old(self).partial() + data@);
                exists|ds: Seq<Seq<char>>|
                    #![trigger run(old(self).session(), ls, ds)]
                    digit_suffixes(ds, ls.len() as int) && {
                        let (s1, out, o) = run(old(self).session(), ls, ds);
                        &&& final(self).session() == s1
                        &&& final(self).pending() == old(self).pending() + out
                        &&& final(self).queued_log() == old(self).queued_log() + out
                        &&& reports(r, o)
                        &&& final(self).partial() == if o is Error {
                            old(self).partial()
                        } else {
                            tail_part(ls)
                        }
                    }
            },
    {
        if self.read_head == BUF_SIZ {
            return ClientReadStat::ReadBufferFull;
        }
        if data.len() == 0 {
            return ClientReadStat::Eof;
        }
        let ghost before = self.partial();
        let head = self.read_head;
        let mut i: usize = 0;
        while i < data.len()
            invariant
                self.read_buffer@.len() == BUF_SIZ,
                self.read_head == head,
                head + data@.len() <= BUF_SIZ,
                i <= data@.len(),
                self.read_buffer@.take(head + i) == before + data@.take(i as int),
                self.sent@ + self.write_buffer@ == self.queued@,
                self.state == old(self).state,
                self.write_buffer == old(self).write_buffer,
                self.queued == old(self).queued,
                self.sent == old(self).sent,
                before == old(self).partial(),
            decreases data@.len() - i,
        {
            let ghost prev = self.read_buffer@;
            self.read_buffer[head + i] = data[i];
            assert(self.read_buffer@.take(head + i) =~= prev.take(head + i));
            assert(self.read_buffer@.take(head + i + 1) =~= prev.take(head + i).push(
                data@[i as int],
            ));
            assert(data@.take(i + 1) =~= data@.take(i as int).push(data@[i as int]));
            i = i + 1;
        }
        assert(data@.take(i as int) =~= data@);
        assert(self.partial() =~= before);
        let res = self.handle_data(head + data.len());
        match res {
            IrcProto::Okay => ClientReadStat::Okay,
            IrcProto::Data => ClientReadStat::HasWritableData,
            IrcProto::Error(e) => ClientReadStat::Error(e),
        }
    }

    /// Queues each complete line of the plugin's pending output, CRLF
    /// terminated, and keeps only an unfinished last line in the plugin.
    /// Returns whether a line was queued.
    pub fn process_plugbuff(&mut self, plug: &mut Plugin) -> (r: bool)
        requires
            old(self).wf(),
            old(plug).wf(),
        ensures
            final(self).wf(),
            final(plug).wf(),
            final(self).session() == old(self).session(),
            final(self).partial() == old(self).partial(),
            final(self).sent_log() == old(self).sent_log(),
            ({
                let ls = crate::iter::lines(old(plug).pending());
                &&& final(self).pending() == old(self).pending() + full_lines_out(ls)
                &&& final(self).queued_log() == old(self).queued_log() + full_lines_out(ls)
                &&& r == has_full(ls)
                &&& final(plug).pending() == tail_part(ls)
                &&& final(plug).discarding() == old(plug).discarding()
            }),
    {
        let ghost ls = crate::iter::lines(plug.pending());
        let ghost pending0 = self.write_buffer@;
        let mut has_data = false;
        let mut has_trunc = false;
        let mut slice_at: usize = 0;
        let mut part_len: usize = 0;
        let pending_len = plug.get_buf().len();
        let ghost mut k: int = 0;
        proof {
            crate::iter::lemma_line_discipline(plug.pending(), 0);
        }
        let mut iter = plug.iter();
        loop
            invariant_except_break
                ls == ls.take(k) + iter.remaining(),
                forall|i: int| 0 <= i < k ==> #[trigger] ls[i] is Full,
                self.write_buffer@ == pending0 + full_lines_out(ls.take(k)),
                has_data == has_full(ls.take(k)),
                !has_trunc,
            invariant
                iter.wf(),
                iter.buf() == plug.pending(),
                plug.wf(),
                pending_len == plug.pending().len(),
                ls == crate::iter::lines(plug.pending()),
                0 <= k <= ls.len(),
                pending0 == old(self).write_buffer@,
                self.state == old(self).state,
                self.read_buffer == old(self).read_buffer,
                self.read_head == old(self).read_head,
                self.sent == old(self).sent,
                self.queued == old(self).queued,
                forall|i: int|
                    0 <= i < ls.len() ==> match #[trigger] ls[i] {
                        TruncStatus::Part(x) => i == ls.len() - 1,
                        TruncStatus::Full(x) => true,
                    },
            ensures
                self.write_buffer@ == pending0 + full_lines_out(ls),
                has_data == has_full(ls),
                has_trunc ==> part_len < pending_len ==> slice_at == plug.end() - part_len && plug.start() < slice_at,
                has_trunc ==> part_len <= pending_len && tail_part(ls) == plug.pending().subrange(pending_len - part_len, pending_len as int),
                !has_trunc ==> tail_part(ls).len() == 0,
            decreases ls.len() - k,
        {
            let ghost rem = iter.remaining();
            match iter.next() {
                None => {
                    assert(ls.take(k) =~= ls);
                    proof {
                        if ls.len() > 0 {
                            assert(ls[ls.len() - 1] is Full);
                        }
                    }
                    break;
                },
                Some(TruncStatus::Part(p)) => {
                    proof {
                        assert(ls[k] == rem[0]);
                        assert(k == ls.len() - 1);
                        assert(ls.drop_last() =~= ls.take(k));
                        assert forall|i: int| 0 <= i < ls.len() && #[trigger] ls[i] is Full implies 0 <= i < k by {}
                        assert(has_full(ls) == has_full(ls.take(k))) by {
                            if has_full(ls) {
                                let i = choose|i: int| 0 <= i < ls.len() && #[trigger] ls[i] is Full;
                                assert(ls.take(k)[i] is Full);
                            }
                            if has_full(ls.take(k)) {
                                let i = choose|i: int| 0 <= i < k && #[trigger] ls.take(k)[i] is Full;
                                assert(ls[i] is Full);
                            }
                        }
                    }
                    proof {
                        plug.lemma_wf_bounds();
                    }
                    has_trunc = true;
                    part_len = p.len();
                    slice_at = plug.get_slice_pos(p);
                    break;
                },
                Some(TruncStatus::Full(d)) => {
                    let ghost lk = ls.take(k + 1);
                    proof {
                        assert(ls[k] == rem[0]);
                        assert(lk.drop_last() =~= ls.take(k));
                        assert(ls =~= lk + iter.remaining());
                    }
                    has_data = true;
                    enqueue(&mut self.write_buffer, d);
                    enqueue(&mut self.write_buffer, &[13u8, 10u8]);
                    proof {
                        k = k + 1;
                        assert(self.write_buffer@ =~= pending0 + full_lines_out(ls.take(k)));
                        assert(ls.take(k)[k - 1] is Full);
                    }
                },
            }
        }
        let ghost plug_pending = plug.pending();
        proof {
            plug.lemma_wf_bounds();
        }
        if has_trunc {
            if part_len < pending_len {
                plug.split_at(slice_at);
            } else {
                assert(plug_pending.subrange(0, pending_len as int) =~= plug_pending);
            }
        } else {
            plug.reset_buf();
        }
        self.queued = Ghost(self.queued@ + full_lines_out(ls));
        assert(self.sent@ + self.write_buffer@ =~= self.queued@);
        proof {
            if !has_trunc {
                assert(plug.pending() =~= tail_part(ls));
            }
        }
        has_data
    }

    /// Decides what follows one read of a plugin that ended in `stat`: a
    /// full buffer is drained and read again, the end of the output or a read
    /// that would block drains the buffer and ends the reading, and a read
    /// that brought data asks for another read.
    pub fn process_plugin(&mut self, plug: &mut Plugin, stat: PluginReadStat) -> (r:
        PluginProgress)
        requires
            old(self).wf(),
            old(plug).wf(),
        ensures
            final(self).wf(),
            final(plug).wf(),
            final(self).session() == old(self).session(),
            final(self).partial() == old(self).partial(),
            final(self).sent_log() == old(self).sent_log(),
            r.read_more == (stat == PluginReadStat::Okay || stat == PluginReadStat::ReadBufferFull),
            stat == PluginReadStat::Okay ==> {
                &&& !r.has_data
                &&& final(self).pending() == old(self).pending()
                &&& final(self).queued_log() == old(self).queued_log()
                &&& final(plug).pending() == old(plug).pending()
                &&& final(plug).discarding() == old(plug).discarding()
            },
            stat != PluginReadStat::Okay ==> {
                let ls = crate::iter::lines(old(plug).pending());
                &&& final(self).pending() == old(self).pending() + full_lines_out(ls)
                &&& final(self).queued_log() == old(self).queued_log() + full_lines_out(ls)
                &&& r.has_data == has_full(ls)
                &&& final(plug).pending() == tail_part(ls)
                &&& final(plug).discarding() == old(plug).discarding()
            },
    {
        match stat {
            PluginReadStat::Okay => PluginProgress { read_more: true, has_data: false },
            PluginReadStat::ReadBufferFull => {
                let has_data = self.process_plugbuff(plug);
                PluginProgress { read_more: true, has_data }
            },
            PluginReadStat::Eof | PluginReadStat::Blocked => {
                let has_data = self.process_plugbuff(plug);
                PluginProgress { read_more: false, has_data }
            },
        }
    }

    /// Whether nothing is queued for the server.
    pub fn is_empty(&self) -> (r: bool)
        ensures
            r == (self.pending().len() == 0),
    {
        self.write_buffer.len() == 0
    }

    /// The next bytes to write: the first `BUF_SIZ` queued bytes, or all of
    /// them when fewer are queued.
    pub fn write_chunk(&self) -> (r: Vec<u8>)
        ensures
            r@ == self.pending().take(
                if self.pending().len() < BUF_SIZ {
                    self.pending().len() as int
                } else {
                    BUF_SIZ as int
                },
            ),
    {
        let n = if self.write_buffer.len() < BUF_SIZ {
            self.write_buffer.len()
        } else {
            BUF_SIZ
        };
        let mut r: Vec<u8> = Vec::new();
        let mut i: usize = 0;
        while i < n
            invariant
                i <= n,
                n <= self.write_buffer@.len(),
                r@ == self.write_buffer@.take(i as int),
            decreases n - i,
        {
            r.push(self.write_buffer[i]);
            i = i + 1;
            assert(r@ =~= self.write_buffer@.take(i as int));
        }
        r
    }

    /// Records the result of writing [`Client::write_chunk`]: `Some(n)` when
    /// `n` bytes of it were written, `None` when the write would block.
    /// Written bytes leave the front of the queue; the rest stays in order.
    /// The first bytes written (the login) move the session to `PreAuth`.
    pub fn finish_write(&mut self, written: Option<usize>) -> (r: ClientWriteStat)
        requires
            old(self).wf(),
            written matches Some(n) ==> n <= old(self).pending().len() && n <= BUF_SIZ,
        ensures
            final(self).wf(),
            final(self).session() == (if written matches Some(n) && n > 0 && old(
                self,
            ).session().ready == IrcState::Unknown {
                Session { ready: IrcState::PreAuth, ..old(self).session() }
            } else {
                old(self).session()
            }),
            final(self).partial() == old(self).partial(),
            final(self).queued_log() == old(self).queued_log(),
            match written {
                None => {
                    &&& r == ClientWriteStat::Blocked
                    &&& final(self).pending() == old(self).pending()
                    &&& final(self).sent_log() == old(self).sent_log()
                },
                Some(n) => {
                    &&& r == ClientWriteStat::Okay
                    &&& final(self).pending() == old(self).pending().skip(n as int)
                    &&& final(self).sent_log() == old(self).sent_log() + old(self).pending().take(
                        n as int,
                    )
                },
            },
    {
        match written {
            None => ClientWriteStat::Blocked,
            Some(n) => {
                let ghost p = self.write_buffer@;
                let mut i: usize = 0;
                while i < n
                    invariant
                        i <= n,
                        n <= p.len(),
                        self.write_buffer@ == p.skip(i as int),
                        self.sent@ == old(self).sent@ + p.take(i as int),
                        self.queued == old(self).queued,
                        old(self).sent@ + p == self.queued@,
                        p == old(self).write_buffer@,
                        self.state == old(self).state,
                        self.read_buffer == old(self).read_buffer,
                        self.read_head == old(self).read_head,
                    decreases n - i,
                {
                    let b = self.write_buffer.pop_front();
                    proof {
                        self.sent@ = self.sent@.push(p[i as int]);
                    }
                    i = i + 1;
                    assert(self.write_buffer@ =~= p.skip(i as int));
                    assert(self.sent@ =~= old(self).sent@ + p.take(i as int));
                }
                assert(self.sent@ + self.write_buffer@ =~= self.queued@);
                if n > 0 && self.state.ready_state == IrcState::Unknown {
                    self.state.ready_state = IrcState::PreAuth;
                }
                ClientWriteStat::Okay
            },
        }
    }
}

/// Nickname collision: a `433` or `436` from the server renames us to the
/// old nickname, `_` and the four drawn digits, remembers the nickname first
/// asked for, and queues the `NICK` line for the new name.
pub proof fn lemma_nick_collision(s: Session, m: MessageView, d: Seq<char>)
    requires
        m.nick is Some,
        m.command == Some("433".spec_bytes()) || m.command == Some("436".spec_bytes()),
    ensures
        ({
            let nick = s.nick.push('_') + d;
            step(s, m, d) == (
                Session {
                    nick: nick,
                    original_nick: if s.original_nick is None {
                        Some(s.nick)
                    } else {
                        s.original_nick
                    },
                    ..s
                },
                "NICK ".spec_bytes() + vstd::utf8::encode_utf8(nick) + crlf(),
                ProtoView::Data,
            )
        }),
{
    reveal(step);
    broadcast use vstd::string::is_ascii_spec_bytes;

    reveal_strlit("433");
    reveal_strlit("436");
    reveal_strlit("NICK");
    reveal_strlit("PRIVMSG");
    reveal_strlit("JOIN");
    reveal_strlit("PART");
    reveal_strlit("KICK");
    reveal_strlit("004");
    reveal_strlit("005");
    assert(vstd::string::is_ascii("433"));
    assert(vstd::string::is_ascii("436"));
    assert(vstd::string::is_ascii("NICK"));
    assert(vstd::string::is_ascii("PRIVMSG"));
    assert(vstd::string::is_ascii("JOIN"));
    assert(vstd::string::is_ascii("PART"));
    assert(vstd::string::is_ascii("KICK"));
    assert(vstd::string::is_ascii("004"));
    assert(vstd::string::is_ascii("005"));
    let c = m.command->Some_0;
    assert(c.len() == 3 && c[0] == 52u8);
    assert("NICK".spec_bytes().len() == 4);
    assert("PRIVMSG".spec_bytes().len() == 7);
    assert("JOIN".spec_bytes().len() == 4);
    assert("PART".spec_bytes().len() == 4);
    assert("KICK".spec_bytes().len() == 4);
    assert("004".spec_bytes()[0] == 48u8);
    assert("005".spec_bytes()[0] == 48u8);
}

/// Write order: the bytes handed to the server so far, followed by the
/// bytes still queued, are exactly the bytes ever queued, in order. Queueing
/// only appends (see [`Client::receive_bytes`], [`Client::process_plugin`])
/// and a write, short or blocked, only moves bytes from the front of the
/// queue to the sent bytes ([`Client::finish_write`]).
pub proof fn lemma_write_order(c: &Client)
    requires
        c.wf(),
    ensures
        c.sent_log() + c.pending() == c.queued_log(),
{
}

} // verus!
