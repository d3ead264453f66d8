//! Splits a byte buffer into delimited lines, tagging a trailing undelimited
//! remainder as partial.
use vstd::prelude::*;

use crate::bytes::{lemma_scan_bounds, lemma_scan_skip, scan};

verus! {

/// Describes the fullness of a line handed out by [`BufIterator`]: `Full` ends
/// at a delimiter, `Part` runs to the end of the buffer without one.
pub enum TruncStatus<T> {
    Full(T),
    Part(T),
}

impl<T: View> View for TruncStatus<T> {
    type V = TruncStatus<T::V>;

    open spec fn view(&self) -> TruncStatus<T::V> {
        match self {
            TruncStatus::Full(x) => TruncStatus::Full(x@),
            TruncStatus::Part(x) => TruncStatus::Part(x@),
        }
    }
}

/// Line feed or carriage return.
pub open spec fn is_delim(b: u8) -> bool {
    b == 10 || b == 13
}

pub open spec fn delim_pred() -> spec_fn(u8) -> bool {
    |b: u8| is_delim(b)
}

pub open spec fn content_pred() -> spec_fn(u8) -> bool {
    |b: u8| !is_delim(b)
}

/// The first delimiter at or after `i` (or the length).
pub open spec fn next_delim(s: Seq<u8>, i: int) -> int {
    scan(s, i, delim_pred())
}

/// The first non-delimiter at or after `i` (or the length).
pub open spec fn next_content(s: Seq<u8>, i: int) -> int {
    scan(s, i, content_pred())
}

/// The lines of `s` from position `head` on: runs of delimiters are skipped,
/// each delimited line is `Full`, and an undelimited tail is a final `Part`.
pub open spec fn lines_from(s: Seq<u8>, head: int) -> Seq<TruncStatus<Seq<u8>>>
    decreases s.len() - head,
    via lines_from_decreases
{
    if head < 0 || head > s.len() {
        Seq::empty()
    } else {
        let st = next_content(s, head);
        if st >= s.len() {
            Seq::empty()
        } else {
            let e = next_delim(s, st);
            if e < s.len() {
                seq![TruncStatus::Full(s.subrange(st, e))] + lines_from(s, e + 1)
            } else {
                seq![TruncStatus::Part(s.subrange(st, s.len() as int))]
            }
        }
    }
}

#[via_fn]
proof fn lines_from_decreases(s: Seq<u8>, head: int) {
    if 0 <= head <= s.len() {
        lemma_scan_bounds(s, head, content_pred());
        let st = next_content(s, head);
        if st < s.len() {
            lemma_scan_bounds(s, st, delim_pred());
        }
    }
}

/// The lines of a whole buffer.
pub open spec fn lines(s: Seq<u8>) -> Seq<TruncStatus<Seq<u8>>> {
    lines_from(s, 0)
}

/// Whether `x` holds no line delimiter.
pub open spec fn delim_free(x: Seq<u8>) -> bool {
    forall|j: int| 0 <= j < x.len() ==> !is_delim(#[trigger] x[j])
}

/// The line discipline of a buffer's lines: at most one `Part`, and only as
/// the last line; no line, `Full` or `Part`, holds a delimiter or is empty.
pub proof fn lemma_line_discipline(s: Seq<u8>, head: int)
    requires
        0 <= head <= s.len(),
    ensures
        forall|i: int|
            0 <= i < lines_from(s, head).len() ==> match #[trigger] lines_from(s, head)[i] {
                TruncStatus::Part(x) => i == lines_from(s, head).len() - 1 && delim_free(x)
                    && x.len() > 0,
                TruncStatus::Full(x) => delim_free(x) && x.len() > 0,
            },
    decreases s.len() - head,
{
    lemma_scan_bounds(s, head, content_pred());
    let st = next_content(s, head);
    if st < s.len() {
        lemma_scan_bounds(s, st, delim_pred());
        let e = next_delim(s, st);
        if e < s.len() {
            lemma_line_discipline(s, e + 1);
            let rest = lines_from(s, e + 1);
            assert forall|i: int| 0 < i < lines_from(s, head).len() implies
                lines_from(s, head)[i] == rest[i - 1] by {}
        }
    }
}

/// Position of the first line delimiter in `buf`.
fn find_eom(buf: &[u8], from: usize) -> (r: usize)
    requires
        from <= buf@.len(),
    ensures
        r == next_delim(buf@, from as int),
{
    let mut i = from;
    while i < buf.len() && buf[i] != 10 && buf[i] != 13
        invariant
            from <= i <= buf@.len(),
            forall|j: int| from <= j < i ==> !is_delim(#[trigger] buf@[j]),
        decreases buf@.len() - i,
    {
        i = i + 1;
    }
    proof {
        assert forall|j: int| from <= j < i implies !delim_pred()(#[trigger] buf@[j]) by {}
        lemma_scan_skip(buf@, from as int, i as int, delim_pred());
        assert(scan(buf@, i as int, delim_pred()) == i);
    }
    i
}

/// Position of the first byte of `buf` that is not a line delimiter.
fn find_start(buf: &[u8], from: usize) -> (r: usize)
    requires
        from <= buf@.len(),
    ensures
        r == next_content(buf@, from as int),
{
    let mut i = from;
    while i < buf.len() && (buf[i] == 10 || buf[i] == 13)
        invariant
            from <= i <= buf@.len(),
            forall|j: int| from <= j < i ==> is_delim(#[trigger] buf@[j]),
        decreases buf@.len() - i,
    {
        i = i + 1;
    }
    proof {
        assert forall|j: int| from <= j < i implies !content_pred()(#[trigger] buf@[j]) by {}
        lemma_scan_skip(buf@, from as int, i as int, content_pred());
        assert(scan(buf@, i as int, content_pred()) == i);
    }
    i
}

/// An iterator that hands out the lines of a buffer as slices of it.
pub struct BufIterator<'a> {
    read_head: usize,
    buffer: &'a [u8],
}

impl<'a> BufIterator<'a> {
    /// The buffer being split.
    pub closed spec fn buf(&self) -> Seq<u8> {
        self.buffer@
    }

    /// The position from which the next line is looked for.
    pub closed spec fn head(&self) -> int {
        self.read_head as int
    }

    pub closed spec fn wf(&self) -> bool {
        self.read_head <= self.buffer@.len()
    }

    /// The lines that are still to come.
    pub open spec fn remaining(&self) -> Seq<TruncStatus<Seq<u8>>> {
        lines_from(self.buf(), self.head())
    }

    /// Construct an iterator over a given buffer. Pass a slice of the amount
    /// read when a buffer is reused.
    pub fn new(buffer: &'a [u8]) -> (r: Self)
        ensures
            r.wf(),
            r.buf() == buffer@,
            r.remaining() == lines(buffer@),
    {
        BufIterator { read_head: 0, buffer }
    }

    /// The next line, if any.
    pub fn next(&mut self) -> (r: Option<TruncStatus<&'a [u8]>>)
        requires
            old(self).wf(),
        ensures
            final(self).wf(),
            final(self).buf() == old(self).buf(),
            match r {
                None => old(self).remaining().len() == 0 && final(self).remaining().len() == 0,
                Some(t) => old(self).remaining() == seq![t@] + final(self).remaining(),
            },
            match r {
                Some(TruncStatus::Part(x)) => x@.len() <= old(self).buf().len() && x@
                    == old(self).buf().subrange(
                    old(self).buf().len() - x@.len(),
                    old(self).buf().len() as int,
                ),
                _ => true,
            },
    {
        let buf: &'a [u8] = self.buffer;
        let start = find_start(buf, self.read_head);
        proof {
            lemma_scan_bounds(buf@, self.read_head as int, content_pred());
        }
        if start >= buf.len() {
            return None;
        }
        let eom = find_eom(buf, start);
        proof {
            lemma_scan_bounds(buf@, start as int, delim_pred());
        }
        if eom < buf.len() {
            self.read_head = eom + 1;
            let line = &buf[start..eom];
            Some(TruncStatus::Full(line))
        } else {
            self.read_head = buf.len();
            let line = &buf[start..buf.len()];
            proof {
                lemma_scan_bounds(buf@, buf@.len() as int, content_pred());
            }
            Some(TruncStatus::Part(line))
        }
    }
}

} // verus!
