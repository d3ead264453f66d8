//! Byte-sequence scanning shared by the line framer and the message parser.
use vstd::prelude::*;
use vstd::string::StringSliceAdditionalSpecFns;

verus! {

/// The first index at or after `i` whose byte satisfies `p`, or the length
/// of `s` when there is none.
pub open spec fn scan(s: Seq<u8>, i: int, p: spec_fn(u8) -> bool) -> int
    decreases s.len() - i,
{
    if i < 0 || i >= s.len() {
        s.len() as int
    } else if p(s[i]) {
        i
    } else {
        scan(s, i + 1, p)
    }
}

pub proof fn lemma_scan_bounds(s: Seq<u8>, i: int, p: spec_fn(u8) -> bool)
    requires
        0 <= i <= s.len(),
    ensures
        i <= scan(s, i, p) <= s.len(),
        scan(s, i, p) < s.len() ==> p(s[scan(s, i, p)]),
        forall|j: int| i <= j < scan(s, i, p) ==> !p(#[trigger] s[j]),
    decreases s.len() - i,
{
    if i < s.len() && !p(s[i]) {
        lemma_scan_bounds(s, i + 1, p);
    }
}

/// Skipping over bytes that fail `p` does not move the scan result.
pub proof fn lemma_scan_skip(s: Seq<u8>, a: int, i: int, p: spec_fn(u8) -> bool)
    requires
        0 <= a <= i <= s.len(),
        forall|j: int| a <= j < i ==> !p(#[trigger] s[j]),
    ensures
        scan(s, a, p) == scan(s, i, p),
    decreases i - a,
{
    if a < i {
        lemma_scan_skip(s, a + 1, i, p);
    }
}

/// The scan from `a` stops at `b` when no byte in between matches and `b`
/// matches or is the end.
pub proof fn lemma_scan_to(s: Seq<u8>, a: int, b: int, p: spec_fn(u8) -> bool)
    requires
        0 <= a <= b <= s.len(),
        forall|j: int| a <= j < b ==> !p(#[trigger] s[j]),
        b == s.len() || p(s[b]),
    ensures
        scan(s, a, p) == b,
{
    lemma_scan_skip(s, a, b, p);
}

/// Matches the byte `b`.
pub open spec fn eq_pred(b: u8) -> spec_fn(u8) -> bool {
    |x: u8| x == b
}

/// Matches every byte but `b`.
pub open spec fn ne_pred(b: u8) -> spec_fn(u8) -> bool {
    |x: u8| x != b
}

/// The first index at or after `from` that holds `b`, or the length.
pub fn find_byte(buf: &[u8], from: usize, b: u8) -> (r: usize)
    requires
        from <= buf@.len(),
    ensures
        r == scan(buf@, from as int, eq_pred(b)),
{
    let mut i = from;
    while i < buf.len() && buf[i] != b
        invariant
            from <= i <= buf@.len(),
            forall|j: int| from <= j < i ==> #[trigger] buf@[j] != b,
        decreases buf@.len() - i,
    {
        i = i + 1;
    }
    proof {
        assert forall|j: int| from <= j < i implies !eq_pred(b)(#[trigger] buf@[j]) by {}
        lemma_scan_skip(buf@, from as int, i as int, eq_pred(b));
        assert(scan(buf@, i as int, eq_pred(b)) == i);
    }
    i
}

/// The first index at or after `from` that does not hold `b`, or the length.
pub fn skip_byte(buf: &[u8], from: usize, b: u8) -> (r: usize)
    requires
        from <= buf@.len(),
    ensures
        r == scan(buf@, from as int, ne_pred(b)),
{
    let mut i = from;
    while i < buf.len() && buf[i] == b
        invariant
            from <= i <= buf@.len(),
            forall|j: int| from <= j < i ==> #[trigger] buf@[j] == b,
        decreases buf@.len() - i,
    {
        i = i + 1;
    }
    proof {
        assert forall|j: int| from <= j < i implies !ne_pred(b)(#[trigger] buf@[j]) by {}
        lemma_scan_skip(buf@, from as int, i as int, ne_pred(b));
        assert(scan(buf@, i as int, ne_pred(b)) == i);
    }
    i
}

/// Appends the bytes of `src` to `dst`.
pub fn extend_bytes(dst: &mut Vec<u8>, src: &[u8])
    ensures
        final(dst)@ == old(dst)@ + src@,
{
    let ghost start = dst@;
    let mut i: usize = 0;
    while i < src.len()
        invariant
            i <= src@.len(),
            dst@ == start + src@.subrange(0, i as int),
        decreases src@.len() - i,
    {
        dst.push(src[i]);
        i = i + 1;
        assert(src@.subrange(0, i as int) == src@.subrange(0, i - 1 as int).push(src@[i - 1]));
    }
    assert(src@.subrange(0, i as int) == src@);
}

/// Byte-wise equality of two slices.
pub fn bytes_eq(a: &[u8], b: &[u8]) -> (r: bool)
    ensures
        r == (a@ == b@),
{
    if a.len() != b.len() {
        return false;
    }
    let mut i: usize = 0;
    while i < a.len()
        invariant
            a@.len() == b@.len(),
            i <= a@.len(),
            forall|j: int| 0 <= j < i ==> a@[j] == b@[j],
        decreases a@.len() - i,
    {
        if a[i] != b[i] {
            return false;
        }
        i = i + 1;
    }
    assert(a@ == b@);
    true
}

} // verus!
