//! Lines: runs of bytes closed by the two-byte terminator CR LF.
//!
//! A line ends at the first place where CR is directly followed by LF. A lone
//! CR or LF is content like any other byte.

use vstd::prelude::*;

verus! {

/// Carriage return, the first byte of the terminator.
pub const CR: u8 = 13;

/// Line feed, the second byte of the terminator.
pub const LF: u8 = 10;

/// The terminator.
pub open spec fn crlf() -> Seq<u8> {
    seq![CR, LF]
}

/// The terminator stands at index `i` of `s`.
pub open spec fn crlf_at(s: Seq<u8>, i: int) -> bool {
    0 <= i && i + 1 < s.len() && s[i] == CR && s[i + 1] == LF
}

/// The terminator stands nowhere in `s`.
pub open spec fn no_crlf(s: Seq<u8>) -> bool {
    forall|i: int| !crlf_at(s, i)
}

/// The first terminator of `s` stands at index `n`: `s` starts with a line
/// of `n` bytes.
pub open spec fn is_line_end(s: Seq<u8>, n: int) -> bool {
    crlf_at(s, n) && forall|i: int| 0 <= i < n ==> !crlf_at(s, i)
}

/// `s` holds a whole line.
pub open spec fn has_line(s: Seq<u8>) -> bool {
    exists|n: int| is_line_end(s, n)
}

/// The length of the first line of `s`, its terminator not counted.
pub open spec fn line_len(s: Seq<u8>) -> int {
    choose|n: int| is_line_end(s, n)
}

/// The first line of `s`, without its terminator.
pub open spec fn first_line(s: Seq<u8>) -> Seq<u8> {
    s.take(line_len(s))
}

/// What follows the first line of `s` and its terminator.
pub open spec fn after_line(s: Seq<u8>) -> Seq<u8> {
    s.skip(line_len(s) + 2)
}

/// A sequence has at most one first terminator.
pub proof fn lemma_line_end_unique(s: Seq<u8>, n: int)
    requires
        is_line_end(s, n),
    ensures
        has_line(s),
        line_len(s) == n,
        0 <= n,
        n + 2 <= s.len(),
{
    let m = line_len(s);
    assert(is_line_end(s, m));
    if m < n {
        assert(!crlf_at(s, m));
    }
    if n < m {
        assert(!crlf_at(s, n));
    }
}

/// Content without a terminator inside, closed by one, is a line whatever
/// follows it.
pub proof fn lemma_terminated_is_line(content: Seq<u8>, rest: Seq<u8>)
    requires
        no_crlf(content),
    ensures
        has_line(content + crlf() + rest),
        line_len(content + crlf() + rest) == content.len(),
        first_line(content + crlf() + rest) == content,
        after_line(content + crlf() + rest) == rest,
{
    let s = content + crlf() + rest;
    let n = content.len() as int;
    assert(s[n] == CR && s[n + 1] == LF);
    assert forall|i: int| 0 <= i < n implies !crlf_at(s, i) by {
        if crlf_at(s, i) {
            if i + 1 < n {
                assert(crlf_at(content, i));
            }
        }
    }
    lemma_line_end_unique(s, n);
    assert(s.take(n) == content);
    assert(s.skip(n + 2) == rest);
}

/// Cut anywhere before its end, terminated content holds no whole line.
pub proof fn lemma_cut_line_is_open(content: Seq<u8>, k: int)
    requires
        no_crlf(content),
        0 <= k < content.len() + 2,
    ensures
        !has_line((content + crlf()).take(k)),
{
    let p = (content + crlf()).take(k);
    if has_line(p) {
        let n = line_len(p);
        assert(is_line_end(p, n));
        assert(crlf_at(content, n));
    }
}

/// Bytes that arrive later do not move the end of a line that is already
/// there.
pub proof fn lemma_line_stays(s: Seq<u8>, more: Seq<u8>)
    requires
        has_line(s),
    ensures
        has_line(s + more),
        line_len(s + more) == line_len(s),
        first_line(s + more) == first_line(s),
        after_line(s + more) == after_line(s) + more,
{
    let n = line_len(s);
    assert(is_line_end(s, n));
    let t = s + more;
    assert forall|i: int| 0 <= i < n implies !crlf_at(t, i) by {
        if crlf_at(t, i) {
            assert(crlf_at(s, i));
        }
    }
    assert(crlf_at(t, n));
    lemma_line_end_unique(t, n);
    assert(t.take(n) == s.take(n));
    assert(t.skip(n + 2) == s.skip(n + 2) + more);
}

/// Bytes among which there is no CR hold no terminator.
pub proof fn lemma_no_cr_no_crlf(s: Seq<u8>)
    requires
        forall|i: int| 0 <= i < s.len() ==> #[trigger] s[i] != CR,
    ensures
        no_crlf(s),
{
    assert forall|i: int| !crlf_at(s, i) by {
        if crlf_at(s, i) {
            assert(s[i] != CR);
        }
    }
}

/// Finds the end of the line that starts at `start`: the index of its
/// terminator.
pub fn find_line(buf: &[u8], start: usize) -> (r: Option<usize>)
    requires
        start <= buf.len(),
    ensures
        match r {
            Some(end) => {
                &&& start <= end
                &&& end + 2 <= buf.len()
                &&& has_line(buf@.skip(start as int))
                &&& line_len(buf@.skip(start as int)) == end - start
            },
            None => !has_line(buf@.skip(start as int)),
        },
{
    let ghost s = buf@.skip(start as int);
    let mut i: usize = start;
    while i < buf.len() && i + 1 < buf.len()
        invariant
            start <= i <= buf.len(),
            s == buf@.skip(start as int),
            forall|j: int| 0 <= j < i - start ==> !crlf_at(s, j),
        decreases buf.len() - i,
    {
        if buf[i] == CR && buf[i + 1] == LF {
            proof {
                assert(s[i - start] == buf@[i as int]);
                assert(s[i - start + 1] == buf@[i + 1]);
                assert(crlf_at(s, i - start));
                lemma_line_end_unique(s, i - start);
            }
            return Some(i);
        }
        proof {
            if crlf_at(s, i - start) {
                assert(s[i - start] == buf@[i as int]);
                assert(s[i - start + 1] == buf@[i + 1]);
            }
        }
        i += 1;
    }
    proof {
        if has_line(s) {
            let n = line_len(s);
            assert(is_line_end(s, n));
            assert(crlf_at(s, n));
        }
    }
    None
}

/// Tells whether the terminator stands anywhere in `bytes`.
pub fn contains_crlf(bytes: &[u8]) -> (r: bool)
    ensures
        r == !no_crlf(bytes@),
{
    assert(bytes@.skip(0) == bytes@);
    match find_line(bytes, 0) {
        Some(end) => {
            proof {
                assert(is_line_end(bytes@, line_len(bytes@)));
                assert(crlf_at(bytes@, line_len(bytes@)));
            }
            true
        },
        None => {
            proof {
                if !no_crlf(bytes@) {
                    let i = choose|i: int| crlf_at(bytes@, i);
                    lemma_some_line(bytes@, i);
                }
            }
            false
        },
    }
}

/// Where a terminator stands somewhere, a first one stands somewhere.
pub proof fn lemma_some_line(s: Seq<u8>, i: int)
    requires
        crlf_at(s, i),
    ensures
        has_line(s),
        line_len(s) <= i,
    decreases i,
{
    if forall|j: int| 0 <= j < i ==> !crlf_at(s, j) {
        lemma_line_end_unique(s, i);
    } else {
        let j = choose|j: int| 0 <= j < i && crlf_at(s, j);
        lemma_some_line(s, j);
    }
}

} // verus!
