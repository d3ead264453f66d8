//! The read side of a plugin: a fixed buffer for the plugin's standard output
//! that enforces a line-or-forced-newline policy when it fills up.
use vstd::prelude::*;

use crate::bytes::{eq_pred, find_byte, lemma_scan_bounds, scan};
use crate::iter::BufIterator;

verus! {

/// Size of a plugin's read buffer: one IRC line.
pub const PLUGIN_BUF_SIZ: usize = 512;

pub const NEWLINE: u8 = 10;

/// Outcome of handing a read to a plugin buffer.
#[derive(PartialEq, Eq, Structural, Clone, Copy, Debug)]
pub enum PluginReadStat {
    Okay,
    Eof,
    Blocked,
    ReadBufferFull,
}

/// A plugin's output buffer: `read_buf[read_start..read_len]` is output not
/// handed on yet.
pub struct Plugin {
    read_buf: Vec<u8>,
    read_start: usize,
    read_len: usize,
    discard_out: bool,
}

/// What a read of `data` makes of the pending bytes `p` and the discard flag
/// `discard`: the new pending bytes, flag and outcome. A full buffer takes no
/// data and gets a forced final newline when it holds none; a read of nothing
/// is the end of the output; while discarding, read bytes up to and
/// including the first newline are dropped.
pub open spec fn receive_spec(p: Seq<u8>, discard: bool, data: Seq<u8>) -> (
    Seq<u8>,
    bool,
    PluginReadStat,
) {
    if p.len() == PLUGIN_BUF_SIZ {
        if !p.contains(NEWLINE) {
            (p.update(PLUGIN_BUF_SIZ - 1, NEWLINE), true, PluginReadStat::ReadBufferFull)
        } else {
            (p, discard, PluginReadStat::ReadBufferFull)
        }
    } else if data.len() == 0 {
        (p, discard, PluginReadStat::Eof)
    } else if !discard {
        (p + data, false, PluginReadStat::Okay)
    } else {
        let q = scan(data, 0, eq_pred(NEWLINE));
        if q < data.len() {
            (p + data.subrange(q + 1, data.len() as int), false, PluginReadStat::Okay)
        } else {
            (p, true, PluginReadStat::Okay)
        }
    }
}

impl Plugin {
    pub closed spec fn wf(&self) -> bool {
        &&& self.read_buf@.len() == PLUGIN_BUF_SIZ
        &&& self.read_start <= self.read_len <= PLUGIN_BUF_SIZ
    }

    /// The output not handed on yet.
    pub closed spec fn pending(&self) -> Seq<u8> {
        self.read_buf@.subrange(self.read_start as int, self.read_len as int)
    }

    /// Whether output is being dropped up to the next newline.
    pub closed spec fn discarding(&self) -> bool {
        self.discard_out
    }

    /// Where the pending output starts in the buffer.
    pub closed spec fn start(&self) -> int {
        self.read_start as int
    }

    /// Where the pending output ends in the buffer.
    pub closed spec fn end(&self) -> int {
        self.read_len as int
    }

    pub proof fn lemma_wf_bounds(&self)
        requires
            self.wf(),
        ensures
            self.pending().len() == self.end() - self.start(),
            0 <= self.start() <= self.end() <= PLUGIN_BUF_SIZ,
    {
    }

    /// An empty buffer.
    pub fn new() -> (r: Plugin)
        ensures
            r.wf(),
            r.pending().len() == 0,
            !r.discarding(),
    {
        Plugin { read_buf: vec![0u8; PLUGIN_BUF_SIZ], read_start: 0, read_len: 0, discard_out: false }
    }

    /// The pending output.
    pub fn get_buf(&self) -> (r: &[u8])
        requires
            self.wf(),
        ensures
            r@ == self.pending(),
    {
        &self.read_buf.as_slice()[self.read_start..self.read_len]
    }

    /// How many bytes the next read may bring.
    pub fn free_space(&self) -> (r: usize)
        requires
            self.wf(),
        ensures
            r == PLUGIN_BUF_SIZ - self.pending().len(),
    {
        PLUGIN_BUF_SIZ - (self.read_len - self.read_start)
    }

    /// Moves the pending output to the front of the buffer.
    fn compact(&mut self)
        requires
            old(self).wf(),
        ensures
            final(self).wf(),
            final(self).pending() == old(self).pending(),
            final(self).discarding() == old(self).discarding(),
            final(self).start() == 0,
    {
        if self.read_start != 0 {
            let ghost p = self.pending();
            let n = self.read_len - self.read_start;
            let mut k: usize = 0;
            while k < n
                invariant
                    self.read_buf@.len() == PLUGIN_BUF_SIZ,
                    self.read_start <= self.read_len <= PLUGIN_BUF_SIZ,
                    n == self.read_len - self.read_start,
                    p == old(self).pending(),
                    self.discard_out == old(self).discard_out,
                    self.read_start == old(self).read_start,
                    self.read_len == old(self).read_len,
                    0 < self.read_start,
                    k <= n,
                    forall|j: int| 0 <= j < k ==> #[trigger] self.read_buf@[j] == p[j],
                    forall|j: int| k + self.read_start <= j < self.read_len ==>
                        #[trigger] self.read_buf@[j] == p[j - self.read_start],
                decreases n - k,
            {
                let b = self.read_buf[self.read_start + k];
                self.read_buf[k] = b;
                k = k + 1;
            }
            self.read_len = n;
            self.read_start = 0;
            assert(self.pending() =~= p);
        }
    }

    /// Takes a read of `data` from the plugin's output; an empty `data` is
    /// the end of the output. See [`receive_spec`].
    pub fn receive(&mut self, data: &[u8]) -> (r: PluginReadStat)
        requires
            old(self).wf(),
            data@.len() <= PLUGIN_BUF_SIZ - old(self).pending().len(),
        ensures
            final(self).wf(),
            final(self).start() == 0,
            (final(self).pending(), final(self).discarding(), r) == receive_spec(
                old(self).pending(),
                old(self).discarding(),
                data@,
            ),
    {
        self.compact();
        let ghost p = self.pending();
        if self.read_len == PLUGIN_BUF_SIZ {
            let nl = find_byte(self.read_buf.as_slice(), 0, NEWLINE);
            proof {
                lemma_scan_bounds(self.read_buf@, 0, eq_pred(NEWLINE));
                assert(self.read_buf@ =~= p);
                if p.contains(NEWLINE) {
                    let k = choose|k: int| 0 <= k < p.len() && p[k] == NEWLINE;
                    assert(!eq_pred(NEWLINE)(p[k]) || k >= nl);
                }
            }
            if nl == PLUGIN_BUF_SIZ {
                self.read_buf[PLUGIN_BUF_SIZ - 1] = NEWLINE;
                self.discard_out = true;
                assert(self.pending() =~= p.update(PLUGIN_BUF_SIZ - 1, NEWLINE));
            } else {
                assert(p[nl as int] == NEWLINE);
            }
            return PluginReadStat::ReadBufferFull;
        }
        if data.len() == 0 {
            return PluginReadStat::Eof;
        }
        let mut from: usize = 0;
        if self.discard_out {
            let q = find_byte(data, 0, NEWLINE);
            proof {
                lemma_scan_bounds(data@, 0, eq_pred(NEWLINE));
            }
            if q == data.len() {
                return PluginReadStat::Okay;
            }
            from = q + 1;
            self.discard_out = false;
        }
        let mut i = from;
        while i < data.len()
            invariant
                self.read_buf@.len() == PLUGIN_BUF_SIZ,
                self.read_start == 0,
                !self.discard_out,
                from <= i <= data@.len(),
                self.read_len == p.len() + (i - from),
                p.len() + data@.len() <= PLUGIN_BUF_SIZ,
                self.pending() == p + data@.subrange(from as int, i as int),
            decreases data@.len() - i,
        {
            let ghost before = self.pending();
            let k = self.read_len;
            self.read_buf[k] = data[i];
            assert(self.read_buf@.subrange(0, k as int) =~= before);
            self.read_len = k + 1;
            assert(self.pending() =~= before.push(data@[i as int]));
            i = i + 1;
            assert(self.pending() =~= p + data@.subrange(from as int, i as int));
        }
        proof {
            if from == 0 {
                assert(data@.subrange(0, data@.len() as int) =~= data@);
            }
        }
        PluginReadStat::Okay
    }

    /// Keeps only the output from offset `pos` of the buffer on; an offset of
    /// zero empties the buffer.
    pub fn split_at(&mut self, pos: usize)
        requires
            old(self).wf(),
            old(self).start() <= pos <= old(self).end(),
        ensures
            final(self).wf(),
            final(self).discarding() == old(self).discarding(),
            pos == 0 ==> final(self).pending().len() == 0,
            pos != 0 ==> final(self).pending() == old(self).pending().subrange(
                pos - old(self).start(),
                old(self).end() - old(self).start(),
            ),
    {
        if pos == 0 {
            self.reset_buf();
        } else {
            self.read_start = pos;
            assert(self.pending() =~= old(self).pending().subrange(
                pos - old(self).start(),
                old(self).end() - old(self).start(),
            ));
        }
    }

    /// The offset in the buffer at which a tail of the pending output that is
    /// `slice`'s length long starts.
    pub fn get_slice_pos(&self, slice: &[u8]) -> (r: usize)
        requires
            self.wf(),
            slice@.len() <= self.pending().len(),
        ensures
            r == self.end() - slice@.len(),
    {
        self.read_len - slice.len()
    }

    /// An iterator over the lines of the pending output.
    pub fn iter(&self) -> (r: BufIterator<'_>)
        requires
            self.wf(),
        ensures
            r.wf(),
            r.buf() == self.pending(),
            r.remaining() == crate::iter::lines(self.pending()),
    {
        BufIterator::new(self.get_buf())
    }

    /// Drops all pending output.
    pub fn reset_buf(&mut self)
        requires
            old(self).wf(),
        ensures
            final(self).wf(),
            final(self).pending().len() == 0,
            final(self).discarding() == old(self).discarding(),
    {
        self.read_len = 0;
        self.read_start = 0;
    }
}

} // verus!
