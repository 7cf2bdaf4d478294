//! What holds between writing frames and reading them.

use crate::codec::{decode, decode_items, parse_length, Decoded, DecodedItems};
use crate::decimal::{
    decimal, is_digit, lemma_decimal_reads_back, lemma_number_is_one_line,
    lemma_signed_decimal_reads_back, signed_decimal,
};
use crate::frame::{null_marker, wire_all, FrameView, TAG_ARRAY, TAG_BULK};
use crate::line::{
    crlf, first_line, lemma_cut_line_is_open, lemma_line_stays, lemma_no_cr_no_crlf,
    lemma_terminated_is_line, line_len,
};
use vstd::prelude::*;
use vstd::utf8::{encode_utf8, encode_utf8_decode_utf8, encode_utf8_valid_utf8};

verus! {

/// Every frame takes at least one byte.
pub proof fn lemma_wire_is_not_empty(f: FrameView)
    ensures
        f.wire().len() > 0,
{
}

/// Reading what was written gives the frame back: the bytes of a sendable
/// frame, whatever follows them, decode as that frame, and as taking exactly
/// its own bytes.
pub proof fn theorem_round_trip(f: FrameView, rest: Seq<u8>)
    requires
        f.sendable(),
    ensures
        decode(f.wire() + rest) == Decoded::Complete(f, f.wire().len() as int),
    decreases f, 0nat,
{
    let s = f.wire() + rest;
    match f {
        FrameView::Simple(t) => {
            let content = encode_utf8(t);
            assert(s.skip(1) == content + crlf() + rest);
            lemma_terminated_is_line(content, rest);
            encode_utf8_valid_utf8(t);
            encode_utf8_decode_utf8(t);
        },
        FrameView::Error(t) => {
            let content = encode_utf8(t);
            assert(s.skip(1) == content + crlf() + rest);
            lemma_terminated_is_line(content, rest);
            encode_utf8_valid_utf8(t);
            encode_utf8_decode_utf8(t);
        },
        FrameView::Integer(i) => {
            let content = signed_decimal(i as int);
            assert(s.skip(1) == content + crlf() + rest);
            lemma_number_is_one_line(i as int);
            lemma_terminated_is_line(content, rest);
            lemma_signed_decimal_reads_back(i as int);
        },
        FrameView::Bulk(b) => {
            let content = decimal(b.len());
            let tail = b + crlf() + rest;
            assert(s.skip(1) == content + crlf() + tail);
            lemma_number_is_one_line(b.len() as int);
            lemma_terminated_is_line(content, tail);
            lemma_decimal_reads_back(b.len());
            assert(is_digit(content[0]));
            assert(content != null_marker());
            let used = content.len() as int + 3;
            assert(s.skip(used) == tail);
            assert(tail.take(b.len() as int) == b);
        },
        FrameView::Null => {
            let content = null_marker();
            assert(s.skip(1) == content + crlf() + rest);
            lemma_no_cr_no_crlf(content);
            lemma_terminated_is_line(content, rest);
        },
        FrameView::Array(items) => {
            let content = decimal(items.len());
            let tail = wire_all(items, 0) + rest;
            assert(s.skip(1) == content + crlf() + tail);
            lemma_number_is_one_line(items.len() as int);
            lemma_terminated_is_line(content, tail);
            lemma_decimal_reads_back(items.len());
            let used = content.len() as int + 3;
            assert(s.skip(used) == tail);
            lemma_round_trip_items(items, 0, rest);
            assert(items.skip(0) == items);
        },
    }
}

/// Reading a run of frames that was written gives the frames back.
pub proof fn lemma_round_trip_items(items: Seq<FrameView>, from: int, rest: Seq<u8>)
    requires
        0 <= from <= items.len(),
        forall|i: int| 0 <= i < items.len() ==> (#[trigger] items[i]).sendable(),
    ensures
        decode_items(wire_all(items, from) + rest, (items.len() - from) as nat)
            == DecodedItems::Complete(items.skip(from), wire_all(items, from).len() as int),
    decreases items, items.len() - from,
{
    if from == items.len() {
        assert(items.skip(from) == Seq::<FrameView>::empty());
    } else {
        let w = items[from].wire();
        let later = wire_all(items, from + 1);
        let s = wire_all(items, from) + rest;
        assert(s == w + (later + rest));
        theorem_round_trip(items[from], later + rest);
        lemma_wire_is_not_empty(items[from]);
        assert(s.skip(w.len() as int) == later + rest);
        lemma_round_trip_items(items, from + 1, rest);
        assert(seq![items[from]] + items.skip(from + 1) == items.skip(from));
    }
}

/// A frame that has been read takes at least one byte and no more than there
/// are.
pub proof fn lemma_decode_bounds(s: Seq<u8>)
    ensures
        decode(s) matches Decoded::Complete(_, k) ==> 0 < k <= s.len(),
    decreases s.len(), 0nat,
{
    if let Decoded::Complete(_, k) = decode(s) {
        let body = s.skip(1);
        crate::line::lemma_line_end_unique(body, line_len(body));
        let used = line_len(body) + 3;
        if s[0] == TAG_ARRAY {
            lemma_decode_items_bounds(s.skip(used), parse_length(first_line(body))->Some_0);
        }
    }
}

/// A run of frames that has been read takes no more bytes than there are.
pub proof fn lemma_decode_items_bounds(s: Seq<u8>, n: nat)
    ensures
        decode_items(s, n) matches DecodedItems::Complete(items, k) ==> 0 <= k <= s.len()
            && items.len() == n,
    decreases s.len(), n + 1,
{
    if n > 0 {
        if let Decoded::Complete(_, k) = decode(s) {
            if 0 < k <= s.len() {
                lemma_decode_items_bounds(s.skip(k), (n - 1) as nat);
            }
        }
    }
}

/// A frame that has been read can be sent: written again, it reads back as
/// itself.
pub proof fn theorem_read_frames_are_sendable(s: Seq<u8>)
    ensures
        decode(s) matches Decoded::Complete(f, _) ==> f.sendable() && decode(f.wire())
            == Decoded::Complete(f, f.wire().len() as int),
    decreases s.len(), 0nat,
{
    lemma_read_frames_are_sendable(s);
    if let Decoded::Complete(f, _) = decode(s) {
        theorem_write_then_read(f);
    }
}

/// A frame that has been read can be sent.
proof fn lemma_read_frames_are_sendable(s: Seq<u8>)
    ensures
        decode(s) matches Decoded::Complete(f, _) ==> f.sendable(),
    decreases s.len(), 0nat,
{
    if let Decoded::Complete(f, _) = decode(s) {
        let body = s.skip(1);
        let n = line_len(body);
        let line = first_line(body);
        crate::line::lemma_line_end_unique(body, n);
        assert forall|i: int| !crate::line::crlf_at(line, i) by {
            if crate::line::crlf_at(line, i) {
                assert(crate::line::crlf_at(body, i));
            }
        }
        if s[0] == TAG_ARRAY {
            lemma_read_items_are_sendable(s.skip(n + 3), parse_length(line)->Some_0);
        } else if s[0] != TAG_BULK {
            if vstd::utf8::valid_utf8(line) {
                vstd::utf8::decode_utf8_encode_utf8(line);
            }
        }
    }
}

/// The frames of a run that has been read can be sent.
proof fn lemma_read_items_are_sendable(s: Seq<u8>, n: nat)
    ensures
        decode_items(s, n) matches DecodedItems::Complete(items, _) ==> items.len() == n
            && forall|i: int| 0 <= i < items.len() ==> (#[trigger] items[i]).sendable(),
    decreases s.len(), n + 1,
{
    if n > 0 {
        if let Decoded::Complete(f, k) = decode(s) {
            if 0 < k <= s.len() {
                lemma_read_frames_are_sendable(s);
                lemma_read_items_are_sendable(s.skip(k), (n - 1) as nat);
                if let DecodedItems::Complete(rest, _) = decode_items(s.skip(k), (n - 1) as nat) {
                    let items = seq![f] + rest;
                    assert forall|i: int| 0 <= i < items.len() implies (#[trigger] items[i]).sendable() by {
                        if i > 0 {
                            assert(items[i] == rest[i - 1]);
                        }
                    }
                }
            }
        }
    }
}

/// Bytes that arrive later change nothing about a frame that is already
/// there, nor about an error: only an incomplete outcome can still change.
pub proof fn theorem_later_bytes_change_nothing(s: Seq<u8>, more: Seq<u8>)
    requires
        decode(s) != Decoded::Incomplete,
    ensures
        decode(s + more) == decode(s),
    decreases s.len(), 0nat,
{
    let t = s + more;
    assert(t[0] == s[0]);
    if crate::codec::is_tag(s[0]) {
        let body = s.skip(1);
        assert(t.skip(1) == body + more);
        lemma_line_stays(body, more);
        crate::line::lemma_line_end_unique(body, line_len(body));
        let used = line_len(body) + 3;
        assert(t.skip(used) == s.skip(used) + more);
        if s[0] == TAG_BULK {
            let line = first_line(body);
            if line != null_marker() && parse_length(line) is Some {
                let n = parse_length(line)->Some_0 as int;
                assert(t.skip(used).take(n) == s.skip(used).take(n));
            }
        } else if s[0] == TAG_ARRAY {
            let line = first_line(body);
            if parse_length(line) is Some {
                lemma_decode_items_stable(s.skip(used), parse_length(line)->Some_0, more);
            }
        }
    }
}

/// Bytes that arrive later change nothing about a run of frames that is
/// already there, nor about an error.
pub proof fn lemma_decode_items_stable(s: Seq<u8>, n: nat, more: Seq<u8>)
    requires
        decode_items(s, n) != DecodedItems::Incomplete,
    ensures
        decode_items(s + more, n) == decode_items(s, n),
    decreases s.len(), n + 1,
{
    if n > 0 {
        theorem_later_bytes_change_nothing(s, more);
        if let Decoded::Complete(_, k) = decode(s) {
            assert((s + more).skip(k) == s.skip(k) + more);
            lemma_decode_items_stable(s.skip(k), (n - 1) as nat, more);
        }
    }
}

/// A frame of which the end has not arrived is incomplete: every proper
/// prefix of the bytes of a sendable frame decodes as `Incomplete`, never as
/// an error and never as another frame.
pub proof fn theorem_cut_frame_is_incomplete(f: FrameView, k: int)
    requires
        f.sendable(),
        0 <= k < f.wire().len(),
    ensures
        decode(f.wire().take(k)) == Decoded::Incomplete,
    decreases f, 0nat,
{
    let p = f.wire().take(k);
    if k > 0 {
        match f {
            FrameView::Simple(t) => {
                let content = encode_utf8(t);
                assert(p.skip(1) == (content + crlf()).take(k - 1));
                lemma_cut_line_is_open(content, k - 1);
            },
            FrameView::Error(t) => {
                let content = encode_utf8(t);
                assert(p.skip(1) == (content + crlf()).take(k - 1));
                lemma_cut_line_is_open(content, k - 1);
            },
            FrameView::Integer(i) => {
                let content = signed_decimal(i as int);
                lemma_number_is_one_line(i as int);
                assert(p.skip(1) == (content + crlf()).take(k - 1));
                lemma_cut_line_is_open(content, k - 1);
            },
            FrameView::Null => {
                let content = null_marker();
                lemma_no_cr_no_crlf(content);
                assert(p.skip(1) == (content + crlf()).take(k - 1));
                lemma_cut_line_is_open(content, k - 1);
            },
            FrameView::Bulk(b) => {
                let content = decimal(b.len());
                lemma_number_is_one_line(b.len() as int);
                let head = content.len() as int + 2;
                if k - 1 < head {
                    assert(p.skip(1) == (content + crlf()).take(k - 1));
                    lemma_cut_line_is_open(content, k - 1);
                } else {
                    let tail = (b + crlf()).take(k - 1 - head);
                    assert(p.skip(1) == content + crlf() + tail);
                    lemma_terminated_is_line(content, tail);
                    lemma_decimal_reads_back(b.len());
                    assert(is_digit(content[0]));
                    assert(content != null_marker());
                    assert(p.skip(head + 1) == tail);
                }
            },
            FrameView::Array(items) => {
                let content = decimal(items.len());
                lemma_number_is_one_line(items.len() as int);
                let head = content.len() as int + 2;
                if k - 1 < head {
                    assert(p.skip(1) == (content + crlf()).take(k - 1));
                    lemma_cut_line_is_open(content, k - 1);
                } else {
                    let tail = wire_all(items, 0).take(k - 1 - head);
                    assert(p.skip(1) == content + crlf() + tail);
                    lemma_terminated_is_line(content, tail);
                    lemma_decimal_reads_back(items.len());
                    assert(p.skip(head + 1) == tail);
                    lemma_cut_items_are_incomplete(items, 0, k - 1 - head);
                }
            },
        }
    }
}

/// A run of frames of which the end has not arrived is incomplete.
pub proof fn lemma_cut_items_are_incomplete(items: Seq<FrameView>, from: int, k: int)
    requires
        0 <= from <= items.len(),
        forall|i: int| 0 <= i < items.len() ==> (#[trigger] items[i]).sendable(),
        0 <= k < wire_all(items, from).len(),
    ensures
        decode_items(wire_all(items, from).take(k), (items.len() - from) as nat)
            == DecodedItems::Incomplete,
    decreases items, items.len() - from,
{
    let w = items[from].wire();
    let later = wire_all(items, from + 1);
    let p = wire_all(items, from).take(k);
    if k < w.len() {
        assert(p == w.take(k));
        theorem_cut_frame_is_incomplete(items[from], k);
    } else {
        let tail = later.take(k - w.len());
        assert(p == w + tail);
        theorem_round_trip(items[from], tail);
        lemma_wire_is_not_empty(items[from]);
        assert(p.skip(w.len() as int) == tail);
        lemma_cut_items_are_incomplete(items, from + 1, k - w.len());
    }
}

/// What is written for a sendable frame is read back as that frame, with
/// nothing left over.
pub proof fn theorem_write_then_read(f: FrameView)
    requires
        f.sendable(),
    ensures
        decode(f.wire()) == Decoded::Complete(f, f.wire().len() as int),
        crate::connection::left_over(f.wire()) == Seq::<u8>::empty(),
{
    theorem_round_trip(f, Seq::empty());
    assert(f.wire() + Seq::<u8>::empty() == f.wire());
    assert(f.wire().skip(f.wire().len() as int) == Seq::<u8>::empty());
}

/// The bytes of the first `n` chunks, one after the other.
pub open spec fn joined(chunks: Seq<Seq<u8>>, n: int) -> Seq<u8>
    decreases n,
{
    if n <= 0 {
        Seq::empty()
    } else {
        joined(chunks, n - 1) + chunks[n - 1]
    }
}

/// What has arrived after some chunks is the beginning of what will have
/// arrived after more.
pub proof fn lemma_joined_grows(chunks: Seq<Seq<u8>>, n: int, m: int)
    requires
        0 <= n <= m <= chunks.len(),
    ensures
        joined(chunks, n).len() <= joined(chunks, m).len(),
        joined(chunks, n) == joined(chunks, m).take(joined(chunks, n).len() as int),
    decreases m - n,
{
    if n < m {
        lemma_joined_grows(chunks, n, m - 1);
        let shorter = joined(chunks, m - 1);
        assert(joined(chunks, m).take(joined(chunks, n).len() as int) == shorter.take(
            joined(chunks, n).len() as int,
        ));
    } else {
        assert(joined(chunks, m).take(joined(chunks, m).len() as int) == joined(chunks, m));
    }
}

/// A frame arrives in chunks of any sizes: as long as a part of it is
/// missing the bytes received decode as `Incomplete`, and once the last chunk
/// is in they decode as the frame, the same as if it had arrived whole.
pub proof fn theorem_chunked_arrival(f: FrameView, chunks: Seq<Seq<u8>>, n: int)
    requires
        f.sendable(),
        joined(chunks, chunks.len() as int) == f.wire(),
        0 <= n <= chunks.len(),
    ensures
        joined(chunks, n).len() <= f.wire().len(),
        decode(joined(chunks, n)) == if joined(chunks, n).len() < f.wire().len() {
            Decoded::Incomplete
        } else {
            Decoded::Complete(f, f.wire().len() as int)
        },
{
    lemma_joined_grows(chunks, n, chunks.len() as int);
    let got = joined(chunks, n);
    if got.len() < f.wire().len() {
        theorem_cut_frame_is_incomplete(f, got.len() as int);
    } else {
        assert(f.wire().take(f.wire().len() as int) == f.wire());
        theorem_write_then_read(f);
    }
}

} // verus!
