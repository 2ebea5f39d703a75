//! Framing of the byte stream into lines.
//!
//! Decoding consumes an accumulating buffer: leading line terminators are
//! discarded, the bytes up to the next terminator form one frame that is
//! handed to the line parser, and the terminator run after the frame is
//! consumed as well.  A buffer that grows past [`BUF_MAX`] without a
//! terminator is a fatal framing error.

use vstd::prelude::*;
use vstd::slice::{slice_subrange, slice_to_vec};

use crate::parse::{cmd_of, encode_msg, encode_params, lemma_parse_encode, parse_line, ping_bytes, token_ok, trailing_ok, wf_outbound, Message, MessageModel, COLON, SP};

verus! {

/// Carriage return.
pub const CR: u8 = 13;

/// Line feed.
pub const LF: u8 = 10;

/// Ceiling on the bytes buffered while waiting for a line terminator.
pub const BUF_MAX: usize = 65536;

/// Whether a byte is a line terminator.
pub open spec fn is_term(b: u8) -> bool {
    b == CR || b == LF
}

/// First index at or after `i` holding a byte that is not a line
/// terminator, or the length of `s`.
pub open spec fn skip_terms(s: Seq<u8>, i: int) -> int
    recommends
        0 <= i,
    decreases s.len() - i when 0 <= i <= s.len()
{
    if i >= s.len() {
        s.len() as int
    } else if is_term(s[i]) {
        skip_terms(s, i + 1)
    } else {
        i
    }
}

/// First index at or after `i` holding a line terminator, or the length
/// of `s`.
pub open spec fn find_term(s: Seq<u8>, i: int) -> int
    recommends
        0 <= i,
    decreases s.len() - i when 0 <= i <= s.len()
{
    if i >= s.len() {
        s.len() as int
    } else if is_term(s[i]) {
        i
    } else {
        find_term(s, i + 1)
    }
}

pub proof fn lemma_skip_terms_bounds(s: Seq<u8>, i: int)
    requires
        0 <= i <= s.len(),
    ensures
        i <= skip_terms(s, i) <= s.len(),
        skip_terms(s, i) < s.len() ==> !is_term(s[skip_terms(s, i)]),
        forall|k: int| i <= k < skip_terms(s, i) ==> is_term(s[k]),
    decreases s.len() - i,
{
    if i < s.len() && is_term(s[i]) {
        lemma_skip_terms_bounds(s, i + 1);
    }
}

pub proof fn lemma_find_term_bounds(s: Seq<u8>, i: int)
    requires
        0 <= i <= s.len(),
    ensures
        i <= find_term(s, i) <= s.len(),
        find_term(s, i) < s.len() ==> is_term(s[find_term(s, i)]),
        forall|k: int| i <= k < find_term(s, i) ==> !is_term(s[k]),
    decreases s.len() - i,
{
    if i < s.len() && !is_term(s[i]) {
        lemma_find_term_bounds(s, i + 1);
    }
}

/// Exec scan for `skip_terms`.
fn skip_terms_at(s: &[u8], from: usize) -> (r: usize)
    requires
        from <= s@.len(),
    ensures
        r == skip_terms(s@, from as int),
        from <= r <= s@.len(),
{
    let mut i = from;
    while i < s.len() && (s[i] == CR || s[i] == LF)
        invariant
            from <= i <= s@.len(),
            skip_terms(s@, from as int) == skip_terms(s@, i as int),
        decreases s@.len() - i,
    {
        i = i + 1;
    }
    proof {
        lemma_skip_terms_bounds(s@, from as int);
    }
    i
}

/// Exec scan for `find_term`.
fn find_term_at(s: &[u8], from: usize) -> (r: usize)
    requires
        from <= s@.len(),
    ensures
        r == find_term(s@, from as int),
        from <= r <= s@.len(),
{
    let mut i = from;
    while i < s.len() && s[i] != CR && s[i] != LF
        invariant
            from <= i <= s@.len(),
            find_term(s@, from as int) == find_term(s@, i as int),
        decreases s@.len() - i,
    {
        i = i + 1;
    }
    proof {
        lemma_find_term_bounds(s@, from as int);
    }
    i
}

/// Index of the first byte of `buf` that is not a line terminator.
pub fn find_start(buf: &[u8]) -> (r: Option<usize>)
    ensures
        match r {
            Some(i) => i == skip_terms(buf@, 0) && i < buf@.len(),
            None => skip_terms(buf@, 0) == buf@.len(),
        },
{
    let i = skip_terms_at(buf, 0);
    if i == buf.len() {
        None
    } else {
        Some(i)
    }
}

/// Index of the first line terminator in `buf`.
pub fn find_eom(buf: &[u8]) -> (r: Option<usize>)
    ensures
        match r {
            Some(i) => i == find_term(buf@, 0) && i < buf@.len(),
            None => find_term(buf@, 0) == buf@.len(),
        },
{
    let i = find_term_at(buf, 0);
    if i == buf.len() {
        None
    } else {
        Some(i)
    }
}

/// Framing errors.  A single unparseable line is not one: the line parser
/// is total, and an empty parse is dropped by the dispatcher instead.
#[derive(Debug, PartialEq, Eq)]
pub enum Error {
    LineTooLong,
}

/// Whether the buffer holds at least one complete frame.
pub open spec fn has_frame(s: Seq<u8>) -> bool {
    skip_terms(s, 0) < s.len() && find_term(s, skip_terms(s, 0)) < s.len()
}

/// The first complete frame of the buffer: the bytes from the first
/// non-terminator up to the next terminator.
pub open spec fn frame_of(s: Seq<u8>) -> Seq<u8>
    recommends
        has_frame(s),
{
    s.subrange(skip_terms(s, 0), find_term(s, skip_terms(s, 0)))
}

/// The buffer after the first complete frame, terminator still in place.
pub open spec fn rest_of(s: Seq<u8>) -> Seq<u8>
    recommends
        has_frame(s),
{
    s.subrange(find_term(s, skip_terms(s, 0)), s.len() as int)
}

/// All messages a buffer decodes to, in order.
pub open spec fn drain_msgs(s: Seq<u8>) -> Seq<MessageModel>
    decreases s.len() via drain_msgs_decreases
{
    if has_frame(s) {
        seq![parse_line(frame_of(s))] + drain_msgs(rest_of(s))
    } else {
        Seq::empty()
    }
}

/// What is left of a buffer once every complete frame is removed.
pub open spec fn drain_rest(s: Seq<u8>) -> Seq<u8>
    decreases s.len() via drain_rest_decreases
{
    if has_frame(s) {
        drain_rest(rest_of(s))
    } else {
        s
    }
}

proof fn lemma_frame_shrinks(s: Seq<u8>)
    requires
        has_frame(s),
    ensures
        rest_of(s).len() < s.len(),
        0 <= skip_terms(s, 0) < find_term(s, skip_terms(s, 0)) <= s.len(),
{
    lemma_skip_terms_bounds(s, 0);
    let st = skip_terms(s, 0);
    lemma_find_term_bounds(s, st);
    assert(find_term(s, st) != st);
}

#[via_fn]
proof fn drain_msgs_decreases(s: Seq<u8>) {
    if has_frame(s) {
        lemma_frame_shrinks(s);
    }
}

#[via_fn]
proof fn drain_rest_decreases(s: Seq<u8>) {
    if has_frame(s) {
        lemma_frame_shrinks(s);
    }
}

/// The framing layer.  It is stateless: the accumulating read buffer is
/// handed to `decode` by the caller that owns the stream.
pub struct Codec;

impl Codec {
    /// Try to take one frame off the front of `src`.
    ///
    /// Returns the parsed message of the first complete frame, `None` when
    /// the buffer holds no complete frame yet, and an error when an
    /// unterminated line has grown past `BUF_MAX`.  Leading terminators
    /// are consumed in every case; the terminator run after a decoded
    /// frame is consumed with it.
    pub fn decode(&mut self, src: &mut Vec<u8>) -> (r: Result<Option<Message>, Error>)
        ensures
            ({
                let s = old(src)@;
                let n = s.len() as int;
                let st = skip_terms(s, 0);
                if st == n {
                    &&& final(src)@ == s
                    &&& if n > BUF_MAX {
                        r matches Err(Error::LineTooLong)
                    } else {
                        r matches Ok(None)
                    }
                } else {
                    let eom = find_term(s, st);
                    if eom == n {
                        &&& final(src)@ == s.subrange(st, n)
                        &&& if n - st > BUF_MAX {
                            r matches Err(Error::LineTooLong)
                        } else {
                            r matches Ok(None)
                        }
                    } else {
                        let tr = skip_terms(s, eom);
                        &&& final(src)@ == s.subrange(tr, n)
                        &&& r matches Ok(Some(m)) && m@ == parse_line(frame_of(s))
                    }
                }
            }),
    {
        let ghost s = src@;
        let n = src.len();
        let st = match find_start(src.as_slice()) {
            None => {
                if n > BUF_MAX {
                    return Err(Error::LineTooLong);
                } else {
                    return Ok(None);
                }
            },
            Some(st) => st,
        };
        let eom = find_term_at(src.as_slice(), st);
        if eom == n {
            let rest = slice_to_vec(slice_subrange(src.as_slice(), st, n));
            *src = rest;
            if n - st > BUF_MAX {
                return Err(Error::LineTooLong);
            } else {
                return Ok(None);
            }
        }
        let line = slice_to_vec(slice_subrange(src.as_slice(), st, eom));
        let tr = skip_terms_at(src.as_slice(), eom);
        let rest = slice_to_vec(slice_subrange(src.as_slice(), tr, n));
        *src = rest;
        let msg = Message::new(line.as_slice());
        proof {
            assert(line@ == frame_of(s));
        }
        Ok(Some(msg))
    }

    /// Serialize one message onto the end of `dst`, terminated by CR LF.
    pub fn encode(&mut self, message: Message, dst: &mut Vec<u8>) -> (r: Result<(), Error>)
        ensures
            r is Ok,
            final(dst)@ == old(dst)@ + crate::parse::encode_msg(message@) + seq![CR, LF],
    {
        let mut encoded = message.to_server_vec();
        let ghost before = dst@;
        dst.append(&mut encoded);
        dst.push(CR);
        dst.push(LF);
        proof {
            assert(dst@ =~= before + crate::parse::encode_msg(message@) + seq![CR, LF]);
        }
        Ok(())
    }
}

proof fn lemma_skip_terms_offset(a: Seq<u8>, b: Seq<u8>, j: int)
    requires
        0 <= j <= b.len(),
    ensures
        skip_terms(a + b, a.len() + j) == a.len() + skip_terms(b, j),
    decreases b.len() - j,
{
    assert((a + b).len() == a.len() + b.len());
    if j < b.len() {
        assert((a + b)[a.len() + j] == b[j]);
        if is_term(b[j]) {
            lemma_skip_terms_offset(a, b, j + 1);
        }
    }
}

proof fn lemma_find_term_offset(a: Seq<u8>, b: Seq<u8>, j: int)
    requires
        0 <= j <= b.len(),
    ensures
        find_term(a + b, a.len() + j) == a.len() + find_term(b, j),
    decreases b.len() - j,
{
    assert((a + b).len() == a.len() + b.len());
    if j < b.len() {
        assert((a + b)[a.len() + j] == b[j]);
        if !is_term(b[j]) {
            lemma_find_term_offset(a, b, j + 1);
        }
    }
}

proof fn lemma_skip_terms_concat(a: Seq<u8>, b: Seq<u8>, i: int)
    requires
        0 <= i <= a.len(),
    ensures
        skip_terms(a, i) < a.len() ==> skip_terms(a + b, i) == skip_terms(a, i),
        skip_terms(a, i) == a.len() ==> skip_terms(a + b, i) == a.len() + skip_terms(b, 0),
    decreases a.len() - i,
{
    lemma_skip_terms_bounds(a, i);
    if i == a.len() {
        lemma_skip_terms_offset(a, b, 0);
    } else {
        assert((a + b)[i] == a[i]);
        if is_term(a[i]) {
            lemma_skip_terms_concat(a, b, i + 1);
        }
    }
}

proof fn lemma_find_term_concat(a: Seq<u8>, b: Seq<u8>, i: int)
    requires
        0 <= i <= a.len(),
    ensures
        find_term(a, i) < a.len() ==> find_term(a + b, i) == find_term(a, i),
        find_term(a, i) == a.len() ==> find_term(a + b, i) == a.len() + find_term(b, 0),
    decreases a.len() - i,
{
    lemma_find_term_bounds(a, i);
    if i == a.len() {
        lemma_find_term_offset(a, b, 0);
    } else {
        assert((a + b)[i] == a[i]);
        if !is_term(a[i]) {
            lemma_find_term_concat(a, b, i + 1);
        }
    }
}

/// A buffer whose first frame is complete keeps that frame, unchanged,
/// when more bytes arrive.
proof fn lemma_frame_concat(a: Seq<u8>, b: Seq<u8>)
    requires
        has_frame(a),
    ensures
        has_frame(a + b),
        frame_of(a + b) == frame_of(a),
        rest_of(a + b) == rest_of(a) + b,
{
    lemma_skip_terms_bounds(a, 0);
    let st = skip_terms(a, 0);
    lemma_find_term_bounds(a, st);
    let eom = find_term(a, st);
    lemma_skip_terms_concat(a, b, 0);
    lemma_find_term_concat(a, b, st);
    assert(frame_of(a + b) =~= frame_of(a));
    assert(rest_of(a + b) =~= rest_of(a) + b);
}

/// Draining leaves no complete frame behind.
pub proof fn lemma_drain_rest_no_frame(s: Seq<u8>)
    ensures
        !has_frame(drain_rest(s)),
    decreases s.len(),
{
    if has_frame(s) {
        lemma_frame_shrinks(s);
        lemma_drain_rest_no_frame(rest_of(s));
    }
}

/// Feeding a buffer in two pieces, draining in between, yields the same
/// messages as feeding it whole, and the same leftover bytes.
pub proof fn lemma_drain_concat(a: Seq<u8>, b: Seq<u8>)
    ensures
        drain_msgs(a + b) == drain_msgs(a) + drain_msgs(drain_rest(a) + b),
        drain_rest(a + b) == drain_rest(drain_rest(a) + b),
    decreases a.len(),
{
    if has_frame(a) {
        lemma_frame_concat(a, b);
        lemma_frame_shrinks(a);
        lemma_drain_concat(rest_of(a), b);
        assert(drain_msgs(a + b) =~= seq![parse_line(frame_of(a))] + drain_msgs(rest_of(a) + b));
        assert(seq![parse_line(frame_of(a))] + (drain_msgs(rest_of(a)) + drain_msgs(
            drain_rest(rest_of(a)) + b,
        )) =~= (seq![parse_line(frame_of(a))] + drain_msgs(rest_of(a))) + drain_msgs(
            drain_rest(a) + b,
        ));
    } else {
        assert(drain_msgs(a) =~= Seq::<MessageModel>::empty());
        assert(Seq::<MessageModel>::empty() + drain_msgs(a + b) =~= drain_msgs(a + b));
    }
}

/// All the bytes of a sequence of reads, in order.
pub open spec fn concat_chunks(chunks: Seq<Seq<u8>>) -> Seq<u8>
    decreases chunks.len(),
{
    if chunks.len() == 0 {
        Seq::empty()
    } else {
        chunks[0] + concat_chunks(chunks.drop_first())
    }
}

/// The messages produced by feeding each read into the buffer in turn and
/// draining every complete frame after each read.
pub open spec fn feed_from(buf: Seq<u8>, chunks: Seq<Seq<u8>>) -> Seq<MessageModel>
    decreases chunks.len(),
{
    if chunks.len() == 0 {
        Seq::empty()
    } else {
        let s = buf + chunks[0];
        drain_msgs(s) + feed_from(drain_rest(s), chunks.drop_first())
    }
}

proof fn lemma_feed_from(buf: Seq<u8>, chunks: Seq<Seq<u8>>)
    requires
        !has_frame(buf),
    ensures
        feed_from(buf, chunks) == drain_msgs(buf + concat_chunks(chunks)),
    decreases chunks.len(),
{
    if chunks.len() == 0 {
        assert(buf + Seq::<u8>::empty() =~= buf);
    } else {
        let s = buf + chunks[0];
        lemma_drain_rest_no_frame(s);
        lemma_feed_from(drain_rest(s), chunks.drop_first());
        lemma_drain_concat(s, concat_chunks(chunks.drop_first()));
        assert(buf + chunks[0] + concat_chunks(chunks.drop_first()) =~= buf + concat_chunks(
            chunks,
        ));
    }
}

/// However a terminated byte stream is cut into successive reads, feeding
/// the reads one at a time and draining after each yields exactly the
/// messages of draining the whole stream at once.
pub proof fn lemma_decode_chunked(chunks: Seq<Seq<u8>>)
    ensures
        feed_from(Seq::empty(), chunks) == drain_msgs(concat_chunks(chunks)),
{
    lemma_feed_from(Seq::empty(), chunks);
    assert(Seq::<u8>::empty() + concat_chunks(chunks) =~= concat_chunks(chunks));
}

proof fn lemma_encode_params_no_term(ps: Seq<Seq<u8>>)
    requires
        forall|i: int| 0 <= i < ps.len() - 1 ==> token_ok(#[trigger] ps[i]),
        ps.len() > 0 ==> trailing_ok(ps.last()),
    ensures
        forall|k: int| 0 <= k < encode_params(ps).len() ==> !is_term(#[trigger] encode_params(
            ps,
        )[k]),
    decreases ps.len(),
{
    let e = encode_params(ps);
    if ps.len() == 0 {
    } else if ps.len() == 1 {
        assert(e =~= seq![SP, COLON] + ps[0]);
        assert forall|k: int| 0 <= k < e.len() implies !is_term(e[k]) by {
            if k >= 2 {
                assert(e[k] == ps[0][k - 2]);
                assert(ps.last() == ps[0]);
            }
        }
    } else {
        let tail = ps.drop_first();
        assert(e =~= seq![SP] + ps[0] + encode_params(tail));
        assert(forall|i: int| 0 <= i < tail.len() - 1 ==> tail[i] == ps[i + 1]);
        assert(tail.last() == ps.last());
        lemma_encode_params_no_term(tail);
        let p0 = ps[0];
        assert(token_ok(p0));
        assert forall|k: int| 0 <= k < e.len() implies !is_term(e[k]) by {
            if 1 <= k < 1 + p0.len() {
                assert(e[k] == p0[k - 1]);
            } else if k >= 1 + p0.len() {
                assert(e[k] == encode_params(tail)[k - 1 - p0.len()]);
            }
        }
    }
}

proof fn lemma_encode_no_term(m: MessageModel)
    requires
        wf_outbound(m),
    ensures
        forall|k: int| 0 <= k < encode_msg(m).len() ==> !is_term(#[trigger] encode_msg(m)[k]),
        token_ok(cmd_of(m)),
{
    let c = cmd_of(m);
    assert(token_ok(c)) by {
        if m.command is None {
            assert(forall|i: int| 0 <= i < 4 ==> ping_bytes()[i] != SP && ping_bytes()[i] != 13
                && ping_bytes()[i] != 10);
            assert(ping_bytes()[0] == 80);
        }
    }
    let e = encode_msg(m);
    assert(e =~= c + encode_params(m.params));
    lemma_encode_params_no_term(m.params);
    assert forall|k: int| 0 <= k < e.len() implies !is_term(e[k]) by {
        if k < c.len() {
            assert(e[k] == c[k]);
        } else {
            assert(e[k] == encode_params(m.params)[k - c.len()]);
        }
    }
}

/// Encoding a well-formed message and decoding the resulting wire bytes
/// yields exactly one message, and encoding that one again reproduces the
/// original wire bytes.
pub proof fn lemma_round_trip(m: MessageModel)
    requires
        wf_outbound(m),
    ensures
        drain_msgs(encode_msg(m) + seq![CR, LF]) == seq![parse_line(encode_msg(m))],
        encode_msg(parse_line(encode_msg(m))) == encode_msg(m),
{
    lemma_encode_no_term(m);
    lemma_parse_encode(m);
    let e = encode_msg(m);
    let wire = e + seq![CR, LF];
    let n = wire.len() as int;
    let el = e.len() as int;
    assert(el > 0) by {
        assert(cmd_of(m).len() > 0);
        assert(e =~= cmd_of(m) + encode_params(m.params));
    }
    assert(wire[0] == e[0]);
    assert(e[0] == cmd_of(m)[0]) by {
        assert(e =~= cmd_of(m) + encode_params(m.params));
    }
    assert(!is_term(wire[0]));
    assert(skip_terms(wire, 0) == 0);
    assert(find_term(wire, 0) == el) by {
        lemma_find_term_bounds(wire, 0);
        assert(forall|k: int| 0 <= k < el ==> wire[k] == e[k]);
        if find_term(wire, 0) < el {
            assert(is_term(wire[find_term(wire, 0)]));
        }
        if find_term(wire, 0) > el {
            assert(wire[el] == CR);
            assert(!is_term(wire[el]));
        }
    }
    assert(has_frame(wire));
    assert(frame_of(wire) =~= e);
    let rest = rest_of(wire);
    assert(rest =~= seq![CR, LF]);
    assert(skip_terms(rest, 0) == 2) by {
        lemma_skip_terms_bounds(rest, 0);
        assert(rest[0] == CR && rest[1] == LF);
        if skip_terms(rest, 0) < 2 {
            assert(!is_term(rest[skip_terms(rest, 0)]));
        }
    }
    assert(!has_frame(rest));
    assert(drain_msgs(rest) =~= Seq::<MessageModel>::empty());
    assert(drain_msgs(wire) =~= seq![parse_line(e)] + Seq::<MessageModel>::empty());
    assert(seq![parse_line(e)] + Seq::<MessageModel>::empty() =~= seq![parse_line(e)]);
}

} // verus!
