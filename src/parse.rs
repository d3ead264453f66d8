//! A zero-copy parser for IRC v2 messages (without tags): prefix, command and
//! a lazily split parameter list, all as views into the line.
use vstd::prelude::*;

use crate::bytes::{eq_pred, find_byte, lemma_scan_bounds, lemma_scan_to, ne_pred, scan, skip_byte};

verus! {

pub const SPACE: u8 = 32;

pub const COLON: u8 = 58;

pub const BANG: u8 = 33;

pub const AT: u8 = 64;

/// The first space at or after `i` (or the length).
pub open spec fn next_space(s: Seq<u8>, i: int) -> int {
    scan(s, i, eq_pred(SPACE))
}

/// The first non-space at or after `i` (or the length).
pub open spec fn next_token(s: Seq<u8>, i: int) -> int {
    scan(s, i, ne_pred(SPACE))
}

/// Everything from the first non-space at or after `i`, if there is one.
pub open spec fn rest_from(s: Seq<u8>, i: int) -> Option<Seq<u8>> {
    let t = next_token(s, i);
    if t < s.len() {
        Some(s.subrange(t, s.len() as int))
    } else {
        None
    }
}

/// What a parsed message holds, as byte sequences.
pub struct MessageView {
    pub nick: Option<Seq<u8>>,
    pub user: Option<Seq<u8>>,
    pub host: Option<Seq<u8>>,
    pub command: Option<Seq<u8>>,
    pub params: Option<Seq<u8>>,
}

pub open spec fn empty_message() -> MessageView {
    MessageView { nick: None, user: None, host: None, command: None, params: None }
}

pub open spec fn message_is_empty(m: MessageView) -> bool {
    m.nick is None && m.user is None && m.host is None && m.command is None && m.params is None
}

/// Splits a prefix (without its colon) into nick, user and host:
/// `nick!user@host`, also accepting `nick@host!user`, `nick@host`,
/// `nick!user` and a bare `nick`.
pub open spec fn split_prefix(b: Seq<u8>) -> (Option<Seq<u8>>, Option<Seq<u8>>, Option<Seq<u8>>) {
    let u = scan(b, 0, eq_pred(BANG));
    let h = scan(b, 0, eq_pred(AT));
    let n = b.len() as int;
    if u == n && h == n {
        (Some(b), None, None)
    } else if u == n {
        (Some(b.subrange(0, h)), None, Some(b.subrange(h + 1, n)))
    } else if h == n {
        (Some(b.subrange(0, u)), Some(b.subrange(u + 1, n)), None)
    } else if u < h {
        (Some(b.subrange(0, u)), Some(b.subrange(u + 1, h)), Some(b.subrange(h + 1, n)))
    } else {
        (Some(b.subrange(0, h)), Some(b.subrange(u + 1, n)), Some(b.subrange(h + 1, u)))
    }
}

/// The message that a line (without delimiters) holds. Tokens are separated
/// by runs of spaces; a first token starting with `:` is the prefix, the next
/// token is the command, and the parameters are everything from the token
/// after it to the end of the line.
pub open spec fn parse_message(s: Seq<u8>) -> MessageView {
    let t0 = next_token(s, 0);
    if t0 >= s.len() {
        empty_message()
    } else {
        let e0 = next_space(s, t0);
        if s[t0] == COLON {
            let (n, u, h) = split_prefix(s.subrange(t0 + 1, e0));
            let t1 = next_token(s, e0);
            if t1 >= s.len() {
                MessageView { nick: n, user: u, host: h, command: None, params: None }
            } else {
                let e1 = next_space(s, t1);
                MessageView {
                    nick: n,
                    user: u,
                    host: h,
                    command: Some(s.subrange(t1, e1)),
                    params: rest_from(s, e1),
                }
            }
        } else {
            MessageView {
                nick: None,
                user: None,
                host: None,
                command: Some(s.subrange(t0, e0)),
                params: rest_from(s, e0),
            }
        }
    }
}

/// The parameters of a raw parameter list from position `pos` on: tokens
/// separated by runs of spaces, up to a token starting with `:`, which takes
/// the rest of the list (without the colon) as the last parameter.
pub open spec fn params_from(p: Seq<u8>, pos: int) -> Seq<Seq<u8>>
    decreases p.len() + 1 - pos,
    via params_from_decreases
{
    if pos < 0 || pos >= p.len() {
        Seq::empty()
    } else {
        let i = next_token(p, pos);
        if i >= p.len() {
            Seq::empty()
        } else if p[i] == COLON {
            seq![p.subrange(i + 1, p.len() as int)]
        } else {
            let e = next_space(p, i);
            seq![p.subrange(i, e)] + params_from(p, e + 1)
        }
    }
}

#[via_fn]
proof fn params_from_decreases(p: Seq<u8>, pos: int) {
    if 0 <= pos < p.len() {
        lemma_scan_bounds(p, pos, ne_pred(SPACE));
        let i = next_token(p, pos);
        if i < p.len() {
            lemma_scan_bounds(p, i, eq_pred(SPACE));
        }
    }
}

/// The parameters of an optional raw parameter list.
pub open spec fn params_list(p: Option<Seq<u8>>) -> Seq<Seq<u8>> {
    match p {
        Some(p) => params_from(p, 0),
        None => Seq::empty(),
    }
}

pub open spec fn opt_view(o: Option<&[u8]>) -> Option<Seq<u8>> {
    match o {
        Some(x) => Some(x@),
        None => None,
    }
}

/// A non-general purpose IRCv2 parsed message: views into a line that holds
/// no delimiters, as handed out by the line iterator.
pub struct Message<'a> {
    pub nick: Option<&'a [u8]>,
    pub user: Option<&'a [u8]>,
    pub host: Option<&'a [u8]>,
    pub command: Option<&'a [u8]>,
    /// The unparsed parameters; [`Message::parameters`] splits them.
    pub params: Option<&'a [u8]>,
}

impl<'a> View for Message<'a> {
    type V = MessageView;

    open spec fn view(&self) -> MessageView {
        MessageView {
            nick: opt_view(self.nick),
            user: opt_view(self.user),
            host: opt_view(self.host),
            command: opt_view(self.command),
            params: opt_view(self.params),
        }
    }
}

/// Hands out the parameters of a message one at a time.
pub struct MessageParamIter<'a> {
    pos: usize,
    params: Option<&'a [u8]>,
}

impl<'a> MessageParamIter<'a> {
    pub closed spec fn wf(&self) -> bool {
        match self.params {
            Some(p) => self.pos <= p@.len(),
            None => true,
        }
    }

    /// The parameters still to come.
    pub closed spec fn remaining(&self) -> Seq<Seq<u8>> {
        match self.params {
            Some(p) => params_from(p@, self.pos as int),
            None => Seq::empty(),
        }
    }

    /// The next parameter, if any.
    pub fn next(&mut self) -> (r: Option<&'a [u8]>)
        requires
            old(self).wf(),
        ensures
            final(self).wf(),
            match r {
                None => old(self).remaining().len() == 0 && final(self).remaining().len() == 0,
                Some(x) => old(self).remaining() == seq![x@] + final(self).remaining(),
            },
    {
        if self.params.is_none() {
            return None;
        }
        let params = self.params.unwrap();
        if self.pos >= params.len() {
            return None;
        }
        let start = skip_byte(params, self.pos, SPACE);
        proof {
            lemma_scan_bounds(params@, self.pos as int, ne_pred(SPACE));
        }
        if start >= params.len() {
            self.pos = params.len();
            return None;
        }
        if params[start] == COLON {
            self.pos = params.len();
            return Some(&params[start + 1..params.len()]);
        }
        let end = find_byte(params, start, SPACE);
        proof {
            lemma_scan_bounds(params@, start as int, eq_pred(SPACE));
        }
        let ghost old_pos = self.pos as int;
        assert(params_from(params@, old_pos) == seq![params@.subrange(start as int, end as int)]
            + params_from(params@, end + 1));
        if end < params.len() {
            self.pos = end + 1;
        } else {
            self.pos = end;
            assert(params_from(params@, end as int) =~= params_from(params@, end + 1));
        }
        Some(&params[start..end])
    }
}

/// Splits a prefix into nick, user and host; see [`split_prefix`].
fn parse_prefix<'b>(b: &'b [u8]) -> (r: (Option<&'b [u8]>, Option<&'b [u8]>, Option<&'b [u8]>))
    ensures
        (opt_view(r.0), opt_view(r.1), opt_view(r.2)) == split_prefix(b@),
{
    let user_start = find_byte(b, 0, BANG);
    let host_start = find_byte(b, 0, AT);
    proof {
        lemma_scan_bounds(b@, 0, eq_pred(BANG));
        lemma_scan_bounds(b@, 0, eq_pred(AT));
    }
    let n = b.len();
    if user_start == n && host_start == n {
        (Some(b), None, None)
    } else if user_start == n {
        (Some(&b[0..host_start]), None, Some(&b[host_start + 1..n]))
    } else if host_start == n {
        (Some(&b[0..user_start]), Some(&b[user_start + 1..n]), None)
    } else if user_start < host_start {
        (
            Some(&b[0..user_start]),
            Some(&b[user_start + 1..host_start]),
            Some(&b[host_start + 1..n]),
        )
    } else {
        (
            Some(&b[0..host_start]),
            Some(&b[user_start + 1..n]),
            Some(&b[host_start + 1..user_start]),
        )
    }
}

/// The rest of `raw` from the first non-space at or after `from`.
fn rest_of<'b>(raw: &'b [u8], from: usize) -> (r: Option<&'b [u8]>)
    requires
        from <= raw@.len(),
    ensures
        opt_view(r) == rest_from(raw@, from as int),
{
    let t = skip_byte(raw, from, SPACE);
    if t < raw.len() {
        Some(&raw[t..raw.len()])
    } else {
        None
    }
}

impl<'a> Message<'a> {
    /// Whether no field is present.
    pub fn is_empty(&self) -> (r: bool)
        ensures
            r == message_is_empty(self@),
    {
        self.nick.is_none() && self.user.is_none() && self.host.is_none()
            && self.command.is_none() && self.params.is_none()
    }

    /// An iterator over the parameters.
    pub fn parameters(&self) -> (r: MessageParamIter<'a>)
        ensures
            r.wf(),
            r.remaining() == params_list(self@.params),
    {
        MessageParamIter { pos: 0, params: self.params }
    }

    /// Parses one line, which holds no delimiters.
    pub fn new(raw: &'a [u8]) -> (r: Self)
        ensures
            r@ == parse_message(raw@),
    {
        let t0 = skip_byte(raw, 0, SPACE);
        proof {
            lemma_scan_bounds(raw@, 0, ne_pred(SPACE));
        }
        if t0 >= raw.len() {
            return Message::default();
        }
        let e0 = find_byte(raw, t0, SPACE);
        proof {
            lemma_scan_bounds(raw@, t0 as int, eq_pred(SPACE));
        }
        if raw[t0] == COLON {
            let (nick, user, host) = parse_prefix(&raw[t0 + 1..e0]);
            let t1 = skip_byte(raw, e0, SPACE);
            proof {
                lemma_scan_bounds(raw@, e0 as int, ne_pred(SPACE));
            }
            if t1 >= raw.len() {
                return Message { nick, user, host, command: None, params: None };
            }
            let e1 = find_byte(raw, t1, SPACE);
            proof {
                lemma_scan_bounds(raw@, t1 as int, eq_pred(SPACE));
            }
            Message {
                nick,
                user,
                host,
                command: Some(&raw[t1..e1]),
                params: rest_of(raw, e1),
            }
        } else {
            Message {
                nick: None,
                user: None,
                host: None,
                command: Some(&raw[t0..e0]),
                params: rest_of(raw, e0),
            }
        }
    }
}

impl<'a> Default for Message<'a> {
    fn default() -> (r: Self)
        ensures
            r@ == empty_message(),
    {
        Message { nick: None, user: None, host: None, command: None, params: None }
    }
}

/// A byte sequence without spaces, colons, `!`, `@` or line delimiters.
pub open spec fn plain(x: Seq<u8>) -> bool {
    forall|j: int|
        0 <= j < x.len() ==> {
            let b = #[trigger] x[j];
            b != SPACE && b != COLON && b != BANG && b != AT && b != 10 && b != 13
        }
}

/// `:nick!user@host cmd a1 a2 :trailing`.
pub open spec fn full_line(
    n: Seq<u8>,
    u: Seq<u8>,
    h: Seq<u8>,
    c: Seq<u8>,
    a1: Seq<u8>,
    a2: Seq<u8>,
    t: Seq<u8>,
) -> Seq<u8> {
    seq![COLON] + n + seq![BANG] + u + seq![AT] + h + seq![SPACE] + c + seq![SPACE] + a1 + seq![
        SPACE,
    ] + a2 + seq![SPACE, COLON] + t
}

proof fn lemma_split_full_prefix(n: Seq<u8>, u: Seq<u8>, h: Seq<u8>)
    requires
        plain(n),
        plain(u),
        plain(h),
    ensures
        split_prefix(n + seq![BANG] + u + seq![AT] + h) == (Some(n), Some(u), Some(h)),
{
    let b = n + seq![BANG] + u + seq![AT] + h;
    let nb = n.len() as int;
    let nu: int = nb + 1 + u.len();
    assert forall|j: int| 0 <= j < nb implies !eq_pred(BANG)(#[trigger] b[j]) by {
        assert(b[j] == n[j]);
    }
    assert(b[nb] == BANG);
    lemma_scan_to(b, 0, nb, eq_pred(BANG));
    assert forall|j: int| 0 <= j < nu implies !eq_pred(AT)(#[trigger] b[j]) by {
        if j < nb {
            assert(b[j] == n[j]);
        } else if j > nb {
            assert(b[j] == u[j - nb - 1]);
        }
    }
    assert(b[nu] == AT);
    lemma_scan_to(b, 0, nu, eq_pred(AT));
    assert(b.subrange(0, nb) =~= n);
    assert(b.subrange(nb + 1, nu) =~= u);
    assert(b.subrange(nu + 1, b.len() as int) =~= h);
}

proof fn lemma_params_round_trip(a1: Seq<u8>, a2: Seq<u8>, t: Seq<u8>)
    requires
        plain(a1),
        plain(a2),
        plain(t),
        a1.len() > 0,
        a2.len() > 0,
    ensures
        params_from(a1 + seq![SPACE] + a2 + seq![SPACE, COLON] + t, 0) == seq![a1, a2, t],
{
    let q = a1 + seq![SPACE] + a2 + seq![SPACE, COLON] + t;
    let e1 = a1.len() as int;
    let i2 = e1 + 1;
    let e2: int = i2 + a2.len();
    assert(q[0] == a1[0]);
    lemma_scan_to(q, 0, 0, ne_pred(SPACE));
    assert forall|j: int| 0 <= j < e1 implies !eq_pred(SPACE)(#[trigger] q[j]) by {
        assert(q[j] == a1[j]);
    }
    assert(q[e1] == SPACE);
    lemma_scan_to(q, 0, e1, eq_pred(SPACE));
    assert(q[i2] == a2[0]);
    lemma_scan_to(q, i2, i2, ne_pred(SPACE));
    assert forall|j: int| i2 <= j < e2 implies !eq_pred(SPACE)(#[trigger] q[j]) by {
        assert(q[j] == a2[j - i2]);
    }
    assert(q[e2] == SPACE);
    lemma_scan_to(q, i2, e2, eq_pred(SPACE));
    assert(q[e2 + 1] == COLON);
    lemma_scan_to(q, e2 + 1, e2 + 1, ne_pred(SPACE));
    assert(q.subrange(0, e1) =~= a1);
    assert(q.subrange(i2, e2) =~= a2);
    assert(q.subrange(e2 + 2, q.len() as int) =~= t);
    assert(params_from(q, e2 + 1) =~= seq![t]);
    assert(params_from(q, i2) =~= seq![a2] + seq![t]);
    assert(params_from(q, 0) =~= seq![a1] + (seq![a2] + seq![t]));
    assert(params_from(q, 0) =~= seq![a1, a2, t]);
}

/// Round trip of a full message: parsing `:n!u@h c a1 a2 :t` gives back
/// each component, and the parameters `a1`, `a2` and `t`. The command and
/// the two middle parameters are tokens, so they cannot be empty.
pub proof fn lemma_full_line_round_trip(
    n: Seq<u8>,
    u: Seq<u8>,
    h: Seq<u8>,
    c: Seq<u8>,
    a1: Seq<u8>,
    a2: Seq<u8>,
    t: Seq<u8>,
)
    requires
        plain(n),
        plain(u),
        plain(h),
        plain(c),
        plain(a1),
        plain(a2),
        plain(t),
        c.len() > 0,
        a1.len() > 0,
        a2.len() > 0,
    ensures
        ({
            let m = parse_message(full_line(n, u, h, c, a1, a2, t));
            &&& m.nick == Some(n)
            &&& m.user == Some(u)
            &&& m.host == Some(h)
            &&& m.command == Some(c)
            &&& params_list(m.params) == seq![a1, a2, t]
        }),
{
    let s = full_line(n, u, h, c, a1, a2, t);
    let b = n + seq![BANG] + u + seq![AT] + h;
    let q = a1 + seq![SPACE] + a2 + seq![SPACE, COLON] + t;
    let pb: int = 1 + b.len() as int;
    let pc = pb + 1;
    let ec: int = pc + c.len();
    assert(s =~= seq![COLON] + b + seq![SPACE] + c + seq![SPACE] + q);
    assert(s.subrange(1, pb) =~= b);
    assert(s.subrange(pc, ec) =~= c);
    assert(s.subrange(ec + 1, s.len() as int) =~= q);
    lemma_split_full_prefix(n, u, h);
    lemma_params_round_trip(a1, a2, t);
    assert(s[0] == COLON);
    lemma_scan_to(s, 0, 0, ne_pred(SPACE));
    assert forall|j: int| 0 <= j < pb implies !eq_pred(SPACE)(#[trigger] s[j]) by {
        if j > 0 {
            assert(s[j] == b[j - 1]);
        }
    }
    assert(s[pb] == SPACE);
    lemma_scan_to(s, 0, pb, eq_pred(SPACE));
    assert(s[pc] == c[0]);
    lemma_scan_to(s, pb, pc, ne_pred(SPACE));
    assert forall|j: int| pc <= j < ec implies !eq_pred(SPACE)(#[trigger] s[j]) by {
        assert(s[j] == c[j - pc]);
    }
    assert(s[ec] == SPACE);
    lemma_scan_to(s, pc, ec, eq_pred(SPACE));
    assert(s[ec + 1] == a1[0]);
    lemma_scan_to(s, ec, ec + 1, ne_pred(SPACE));
}

} // verus!
