//! IRC case mapping, JOIN/PART line packing and CAP acknowledgement checks.
use vstd::prelude::*;
use vstd::string::StringSliceAdditionalSpecFns;

use crate::bytes::{bytes_eq, eq_pred, extend_bytes, find_byte, lemma_scan_bounds, scan};
use crate::parse::{params_list, Message, MessageParamIter, SPACE};

verus! {

/// How a server folds the case of nicknames and channel names.
#[derive(PartialEq, Eq, Structural, Clone, Copy, Debug)]
pub enum CaseMapping {
    Ascii,
    Rfc1459,
    /// Folded as `Ascii`.
    Unicode,
}

/// The upper case of one byte: `a..z` always, and under RFC 1459 also
/// `{|}` to `[\]` and `^` to `~`.
pub open spec fn upper_byte(casemap: CaseMapping, c: u8) -> u8 {
    if 97 <= c <= 122 {
        (c - 32) as u8
    } else if casemap == CaseMapping::Rfc1459 && 123 <= c <= 125 {
        (c - 32) as u8
    } else if casemap == CaseMapping::Rfc1459 && c == 94 {
        126
    } else {
        c
    }
}

pub open spec fn irc_upper(casemap: CaseMapping, s: Seq<u8>) -> Seq<u8> {
    Seq::new(s.len(), |i: int| upper_byte(casemap, s[i]))
}

/// Whether two names are equal under a case mapping.
pub open spec fn case_eq(casemap: CaseMapping, a: Seq<u8>, b: Seq<u8>) -> bool {
    irc_upper(casemap, a) == irc_upper(casemap, b)
}

/// Upper-cases `the_str` byte by byte under `casemap`.
pub fn irc_uppercase(casemap: &CaseMapping, the_str: &[u8]) -> (r: Vec<u8>)
    ensures
        r@ == irc_upper(*casemap, the_str@),
{
    let mut r: Vec<u8> = Vec::new();
    let mut i: usize = 0;
    while i < the_str.len()
        invariant
            i <= the_str@.len(),
            r@ == irc_upper(*casemap, the_str@.subrange(0, i as int)),
        decreases the_str@.len() - i,
    {
        let c = the_str[i];
        let u: u8 = if 97 <= c && c <= 122 {
            c - 32
        } else if *casemap == CaseMapping::Rfc1459 && 123 <= c && c <= 125 {
            c - 32
        } else if *casemap == CaseMapping::Rfc1459 && c == 94 {
            126
        } else {
            c
        };
        r.push(u);
        i = i + 1;
        assert(r@ =~= irc_upper(*casemap, the_str@.subrange(0, i as int)));
    }
    assert(the_str@.subrange(0, i as int) =~= the_str@);
    r
}

/// Whether `lhs` and `rhs` are equal under `casemap`.
pub fn case_cmp(casemap: &CaseMapping, lhs: &[u8], rhs: &[u8]) -> (r: bool)
    ensures
        r == case_eq(*casemap, lhs@, rhs@),
{
    let a = irc_uppercase(casemap, lhs);
    let b = irc_uppercase(casemap, rhs);
    bytes_eq(a.as_slice(), b.as_slice())
}

pub open spec fn crlf() -> Seq<u8> {
    seq![13u8, 10u8]
}

/// The bytes of a string (its UTF-8 encoding).
pub open spec fn str_bytes(s: String) -> Seq<u8> {
    vstd::utf8::encode_utf8(s@)
}

/// The channels packed so far, with the length of the current line and
/// whether that line still lacks its command: a channel that would bring the
/// line to 510 bytes or more starts a new line.
pub open spec fn pack_state(cmd: Seq<u8>, chans: Seq<Seq<u8>>) -> (Seq<u8>, int, bool)
    decreases chans.len(),
{
    if chans.len() == 0 {
        (Seq::empty(), 0, true)
    } else {
        let (out0, l0, first0) = pack_state(cmd, chans.drop_last());
        let ch = chans.last();
        let (out1, l1, first1) = if ch.len() + l0 >= 510 {
            (out0 + crlf(), 0, true)
        } else {
            (out0, l0, first0)
        };
        if first1 {
            (out1 + cmd + seq![SPACE] + ch, cmd.len() + ch.len() + 1 as int, false)
        } else {
            (out1 + seq![44u8] + ch, l1 + ch.len() + 1, false)
        }
    }
}

/// `<cmd> c1,c2,...\r\n` lines holding all of `chans` in order.
pub open spec fn pack_channel_list(cmd: Seq<u8>, chans: Seq<Seq<u8>>) -> Seq<u8> {
    pack_state(cmd, chans).0 + crlf()
}

pub open spec fn channel_bytes(channels: Seq<String>) -> Seq<Seq<u8>> {
    channels.map_values(|s: String| str_bytes(s))
}

proof fn lemma_pack_line_len(cmd: Seq<u8>, chans: Seq<Seq<u8>>)
    ensures
        0 <= pack_state(cmd, chans).1 <= pack_state(cmd, chans).0.len(),
        pack_state(cmd, chans).2 ==> pack_state(cmd, chans).1 == 0,
    decreases chans.len(),
{
    if chans.len() > 0 {
        lemma_pack_line_len(cmd, chans.drop_last());
    }
}

/// Channel names joined by commas.
pub open spec fn join_commas(g: Seq<Seq<u8>>) -> Seq<u8>
    decreases g.len(),
{
    if g.len() == 0 {
        Seq::empty()
    } else if g.len() == 1 {
        g[0]
    } else {
        join_commas(g.drop_last()) + seq![44u8] + g.last()
    }
}

/// `<cmd> c1,c2,...` for the group `g`.
pub open spec fn line_of(cmd: Seq<u8>, g: Seq<Seq<u8>>) -> Seq<u8> {
    cmd + seq![SPACE] + join_commas(g)
}

/// The lines for the groups `gs`, each terminated by CRLF.
pub open spec fn lines_concat(cmd: Seq<u8>, gs: Seq<Seq<Seq<u8>>>) -> Seq<u8>
    decreases gs.len(),
{
    if gs.len() == 0 {
        Seq::empty()
    } else {
        lines_concat(cmd, gs.drop_last()) + line_of(cmd, gs.last()) + crlf()
    }
}

/// The groups laid end to end.
pub open spec fn flatten(gs: Seq<Seq<Seq<u8>>>) -> Seq<Seq<u8>>
    decreases gs.len(),
{
    if gs.len() == 0 {
        Seq::empty()
    } else {
        flatten(gs.drop_last()) + gs.last()
    }
}

/// How packing groups the channels into lines.
pub open spec fn pack_groups(cmd: Seq<u8>, chans: Seq<Seq<u8>>) -> Seq<Seq<Seq<u8>>>
    decreases chans.len(),
{
    if chans.len() == 0 {
        Seq::empty()
    } else {
        let gs = pack_groups(cmd, chans.drop_last());
        let ch = chans.last();
        if gs.len() == 0 || ch.len() + pack_state(cmd, chans.drop_last()).1 >= 510 {
            gs.push(seq![ch])
        } else {
            gs.update(gs.len() - 1, gs.last().push(ch))
        }
    }
}

/// Whether each channel fits on a line of its own after `cmd`.
pub open spec fn channels_fit(cmd: Seq<u8>, chans: Seq<Seq<u8>>) -> bool {
    forall|i: int| 0 <= i < chans.len() ==> cmd.len() + #[trigger] chans[i].len() + 1 <= 510
}

proof fn lemma_pack_groups(cmd: Seq<u8>, chans: Seq<Seq<u8>>)
    requires
        channels_fit(cmd, chans),
    ensures
        ({
            let gs = pack_groups(cmd, chans);
            let (out, l, first) = pack_state(cmd, chans);
            &&& flatten(gs) == chans
            &&& forall|i: int| 0 <= i < gs.len() ==> (#[trigger] gs[i]).len() > 0
            &&& forall|i: int| 0 <= i < gs.len() ==> line_of(cmd, #[trigger] gs[i]).len() <= 510
            &&& chans.len() == 0 ==> gs.len() == 0 && out.len() == 0 && first && l == 0
            &&& chans.len() > 0 ==> {
                &&& gs.len() > 0
                &&& !first
                &&& out == lines_concat(cmd, gs.drop_last()) + line_of(cmd, gs.last())
                &&& l == line_of(cmd, gs.last()).len()
            }
        }),
    decreases chans.len(),
{
    if chans.len() > 0 {
        let pre = chans.drop_last();
        assert forall|i: int| 0 <= i < pre.len() implies cmd.len() + #[trigger] pre[i].len() + 1
            <= 510 by {
            assert(pre[i] == chans[i]);
        }
        lemma_pack_groups(cmd, pre);
        let gs0 = pack_groups(cmd, pre);
        let (out0, l0, first0) = pack_state(cmd, pre);
        let ch = chans.last();
        assert(cmd.len() + ch.len() + 1 <= 510);
        let gs = pack_groups(cmd, chans);
        if gs0.len() == 0 || ch.len() + l0 >= 510 {
            assert(gs == gs0.push(seq![ch]));
            assert(gs.drop_last() =~= gs0);
            assert(join_commas(seq![ch]) == ch);
            assert(flatten(gs) =~= flatten(gs0) + seq![ch]);
            assert(chans =~= pre + seq![ch]);
            if gs0.len() > 0 {
                assert(lines_concat(cmd, gs0) == lines_concat(cmd, gs0.drop_last()) + line_of(
                    cmd,
                    gs0.last(),
                ) + crlf());
                assert(pack_state(cmd, chans).0 =~= lines_concat(cmd, gs.drop_last()) + line_of(
                    cmd,
                    gs.last(),
                ));
            } else {
                assert(pack_state(cmd, chans).0 =~= lines_concat(cmd, gs.drop_last()) + line_of(
                    cmd,
                    gs.last(),
                ));
            }
            assert forall|i: int| 0 <= i < gs.len() implies line_of(cmd, #[trigger] gs[i]).len()
                <= 510 && gs[i].len() > 0 by {
                if i < gs0.len() {
                    assert(gs[i] == gs0[i]);
                }
            }
        } else {
            let g = gs0.last();
            let g2 = g.push(ch);
            assert(gs == gs0.update(gs0.len() - 1, g2));
            assert(gs.drop_last() =~= gs0.drop_last());
            assert(join_commas(g2) == join_commas(g) + seq![44u8] + ch) by {
                assert(g2.drop_last() =~= g);
            }
            assert(line_of(cmd, g2) =~= line_of(cmd, g) + seq![44u8] + ch);
            assert(flatten(gs) =~= flatten(gs0.drop_last()) + g2);
            assert(flatten(gs0) == flatten(gs0.drop_last()) + g);
            assert(chans =~= pre + seq![ch]);
            assert(flatten(gs) =~= chans);
            assert(pack_state(cmd, chans).0 =~= lines_concat(cmd, gs.drop_last()) + line_of(
                cmd,
                gs.last(),
            ));
            assert forall|i: int| 0 <= i < gs.len() implies line_of(cmd, #[trigger] gs[i]).len()
                <= 510 && gs[i].len() > 0 by {
                if i < gs0.len() - 1 {
                    assert(gs[i] == gs0[i]);
                }
            }
        }
    }
}

/// Packing: when every channel fits on a line after the command, the output
/// is a sequence of `<cmd> c1,c2,...\r\n` lines, each at most 512 bytes
/// long with its CRLF, whose comma-separated channels, line after line, are
/// the input list in order. Without channels the output is a bare CRLF.
pub proof fn lemma_channel_packing(cmd: Seq<u8>, chans: Seq<Seq<u8>>)
    requires
        channels_fit(cmd, chans),
    ensures
        ({
            let gs = pack_groups(cmd, chans);
            &&& chans.len() > 0 ==> pack_channel_list(cmd, chans) == lines_concat(cmd, gs)
            &&& chans.len() == 0 ==> pack_channel_list(cmd, chans) == crlf()
            &&& flatten(gs) == chans
            &&& forall|i: int|
                0 <= i < gs.len() ==> (#[trigger] gs[i]).len() > 0 && line_of(cmd, gs[i]).len()
                    + 2 <= 512
        }),
{
    lemma_pack_groups(cmd, chans);
    let gs = pack_groups(cmd, chans);
    if chans.len() == 0 {
        assert(pack_channel_list(cmd, chans) =~= crlf());
    }
}

fn join_part_channels(command: &[u8], channels: &Vec<String>) -> (r: Vec<u8>)
    ensures
        r@ == pack_channel_list(command@, channel_bytes(channels@)),
{
    let ghost chans = channel_bytes(channels@);
    let mut ret: Vec<u8> = Vec::new();
    let mut line_start: usize = 0;
    let mut first = true;
    let mut i: usize = 0;
    while i < channels.len()
        invariant
            i <= channels@.len(),
            chans == channel_bytes(channels@),
            line_start <= ret@.len(),
            pack_state(command@, chans.take(i as int)) == (ret@, ret@.len() - line_start, first),
        decreases channels@.len() - i,
    {
        let channel = channels[i].as_str().as_bytes();
        assert(channel@ == chans[i as int]);
        assert(chans.take(i + 1 as int).drop_last() =~= chans.take(i as int));
        let lsize = ret.len() - line_start;
        if lsize >= 510 || channel.len() >= 510 - lsize {
            extend_bytes(&mut ret, &[13u8, 10u8]);
            line_start = ret.len();
            first = true;
        }
        if !first {
            ret.push(44u8);
        } else {
            line_start = ret.len();
            extend_bytes(&mut ret, command);
            ret.push(SPACE);
            first = false;
        }
        extend_bytes(&mut ret, channel);
        i = i + 1;
        proof {
            lemma_pack_line_len(command@, chans.take(i - 1 as int));
        }
        assert(pack_state(command@, chans.take(i as int)).0 =~= ret@);
    }
    assert(chans.take(i as int) =~= chans);
    extend_bytes(&mut ret, &[13u8, 10u8]);
    ret
}

/// `JOIN` lines for `channels`.
pub fn join_channels(channels: &Vec<String>) -> (r: Vec<u8>)
    ensures
        r@ == pack_channel_list("JOIN".spec_bytes(), channel_bytes(channels@)),
{
    join_part_channels("JOIN".as_bytes(), channels)
}

/// `PART` lines for `channels`.
pub fn part_channels(channels: &Vec<String>) -> (r: Vec<u8>)
    ensures
        r@ == pack_channel_list("PART".spec_bytes(), channel_bytes(channels@)),
{
    join_part_channels("PART".as_bytes(), channels)
}

/// The pieces of `s` between single spaces from `start` on, empty pieces
/// included.
pub open spec fn pieces_from(s: Seq<u8>, start: int) -> Seq<Seq<u8>>
    decreases s.len() + 1 - start,
    via pieces_from_decreases
{
    if start < 0 || start > s.len() {
        Seq::empty()
    } else {
        let e = scan(s, start, eq_pred(SPACE));
        if e < s.len() {
            seq![s.subrange(start, e)] + pieces_from(s, e + 1)
        } else {
            seq![s.subrange(start, s.len() as int)]
        }
    }
}

#[via_fn]
proof fn pieces_from_decreases(s: Seq<u8>, start: int) {
    if 0 <= start <= s.len() {
        lemma_scan_bounds(s, start, eq_pred(SPACE));
    }
}

/// Whether the parameters of a `CAP` reply acknowledge `multi-prefix`: a
/// target, then `ACK`, then a space-separated list holding `multi-prefix`.
pub open spec fn cap_acked(ps: Seq<Seq<u8>>) -> bool {
    &&& ps.len() >= 3
    &&& ps[1] == "ACK".spec_bytes()
    &&& pieces_from(ps[2], 0).contains("multi-prefix".spec_bytes())
}

proof fn lemma_contains_cons(a: Seq<u8>, rest: Seq<Seq<u8>>, w: Seq<u8>)
    ensures
        (seq![a] + rest).contains(w) == (a == w || rest.contains(w)),
{
    let s = seq![a] + rest;
    if s.contains(w) {
        let k = choose|k: int| 0 <= k < s.len() && s[k] == w;
        if k > 0 {
            assert(rest[k - 1] == w);
        }
    }
    if rest.contains(w) {
        let k = choose|k: int| 0 <= k < rest.len() && rest[k] == w;
        assert(s[k + 1] == w);
    }
    if a == w {
        assert(s[0] == w);
    }
}

/// Whether the space-separated `list` holds `word`.
fn list_has(list: &[u8], word: &[u8]) -> (r: bool)
    ensures
        r == pieces_from(list@, 0).contains(word@),
{
    let mut start: usize = 0;
    loop
        invariant
            start <= list@.len(),
            pieces_from(list@, 0).contains(word@) == pieces_from(list@, start as int).contains(
                word@,
            ),
        decreases list@.len() - start,
    {
        let e = find_byte(list, start, SPACE);
        proof {
            lemma_scan_bounds(list@, start as int, eq_pred(SPACE));
        }
        let piece = &list[start..e];
        if bytes_eq(piece, word) {
            proof {
                if e < list@.len() {
                    lemma_contains_cons(piece@, pieces_from(list@, e + 1), word@);
                } else {
                    assert(pieces_from(list@, start as int)[0] == word@);
                }
            }
            return true;
        }
        if e >= list.len() {
            proof {
                assert(pieces_from(list@, start as int) =~= seq![piece@]);
                lemma_contains_cons(piece@, Seq::empty(), word@);
                assert(seq![piece@] + Seq::<Seq<u8>>::empty() =~= seq![piece@]);
            }
            return false;
        }
        proof {
            lemma_contains_cons(piece@, pieces_from(list@, e + 1), word@);
        }
        start = e + 1;
    }
}

/// Whether `m`, a `CAP` reply, acknowledges the `multi-prefix` capability.
pub fn parse_cap(m: &Message) -> (r: bool)
    ensures
        r == cap_acked(params_list(m@.params)),
{
    let ghost ps = params_list(m@.params);
    let mut piter: MessageParamIter = m.parameters();
    if piter.next().is_none() {
        return false;
    }
    let ack = piter.next();
    if ack.is_none() {
        return false;
    }
    if !bytes_eq(ack.unwrap(), "ACK".as_bytes()) {
        return false;
    }
    match piter.next() {
        Some(caplist) => list_has(caplist, "multi-prefix".as_bytes()),
        None => false,
    }
}

} // verus!
