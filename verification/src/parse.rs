//! Parsing and encoding of single protocol lines.
//!
//! A line has the shape `[:prefix ]command param* [:trailing]`, split on
//! spaces; the prefix carries `name[!user][@host]`, and a parameter that
//! starts with `:` consumes the rest of the line verbatim.

use vstd::prelude::*;
use vstd::slice::{slice_subrange, slice_to_vec};
use vstd::string::{StrSliceExecFns, StringSliceAdditionalSpecFns};

verus! {

/// Space, the token separator.
pub const SP: u8 = 32;

/// Colon, which marks the prefix and the trailing parameter.
pub const COLON: u8 = 58;

/// `!`, which separates name from user inside a prefix.
pub const BANG: u8 = 33;

/// `@`, which separates user from host inside a prefix.
pub const AT: u8 = 64;

/// A parsed protocol line.  The prefix fields are present only on
/// server-originated lines; `params` may end in a trailing parameter that
/// contains spaces.  All fields are raw bytes as seen on the wire.
pub struct Message {
    pub nick: Option<Vec<u8>>,
    pub user: Option<Vec<u8>>,
    pub host: Option<Vec<u8>>,
    pub command: Option<Vec<u8>>,
    pub params: Vec<Vec<u8>>,
}

/// The mathematical model of a `Message`: the same five fields as byte
/// sequences.
pub ghost struct MessageModel {
    pub nick: Option<Seq<u8>>,
    pub user: Option<Seq<u8>>,
    pub host: Option<Seq<u8>>,
    pub command: Option<Seq<u8>>,
    pub params: Seq<Seq<u8>>,
}

/// The byte sequence held by an optional byte vector.
pub open spec fn opt_view(o: Option<Vec<u8>>) -> Option<Seq<u8>> {
    match o {
        Some(v) => Some(v@),
        None => None,
    }
}

/// The byte sequences held by a sequence of byte vectors.
pub open spec fn views_of(ps: Seq<Vec<u8>>) -> Seq<Seq<u8>> {
    ps.map_values(|v: Vec<u8>| v@)
}

impl View for Message {
    type V = MessageModel;

    open spec fn view(&self) -> MessageModel {
        MessageModel {
            nick: opt_view(self.nick),
            user: opt_view(self.user),
            host: opt_view(self.host),
            command: opt_view(self.command),
            params: views_of(self.params@),
        }
    }
}

/// The model of a line that held nothing at all.
pub open spec fn empty_model() -> MessageModel {
    MessageModel {
        nick: None,
        user: None,
        host: None,
        command: None,
        params: Seq::empty(),
    }
}

/// First index at or after `i` holding a byte other than space, or the
/// length of `s` if spaces run to the end.
pub open spec fn skip_spaces(s: Seq<u8>, i: int) -> int
    recommends
        0 <= i,
    decreases s.len() - i when 0 <= i <= s.len()
{
    if i >= s.len() {
        s.len() as int
    } else if s[i] == SP {
        skip_spaces(s, i + 1)
    } else {
        i
    }
}

/// First index at or after `i` holding a space, or the length of `s`.
pub open spec fn token_end(s: Seq<u8>, i: int) -> int
    recommends
        0 <= i,
    decreases s.len() - i when 0 <= i <= s.len()
{
    if i >= s.len() {
        s.len() as int
    } else if s[i] == SP {
        i
    } else {
        token_end(s, i + 1)
    }
}

/// First index at or after `i` holding byte `c`, or the length of `s`.
pub open spec fn find_byte(s: Seq<u8>, c: u8, i: int) -> int
    recommends
        0 <= i,
    decreases s.len() - i when 0 <= i <= s.len()
{
    if i >= s.len() {
        s.len() as int
    } else if s[i] == c {
        i
    } else {
        find_byte(s, c, i + 1)
    }
}

pub proof fn lemma_skip_spaces_bounds(s: Seq<u8>, i: int)
    requires
        0 <= i <= s.len(),
    ensures
        i <= skip_spaces(s, i) <= s.len(),
        skip_spaces(s, i) < s.len() ==> s[skip_spaces(s, i)] != SP,
        forall|k: int| i <= k < skip_spaces(s, i) ==> s[k] == SP,
    decreases s.len() - i,
{
    if i < s.len() && s[i] == SP {
        lemma_skip_spaces_bounds(s, i + 1);
    }
}

pub proof fn lemma_token_end_bounds(s: Seq<u8>, i: int)
    requires
        0 <= i <= s.len(),
    ensures
        i <= token_end(s, i) <= s.len(),
        token_end(s, i) < s.len() ==> s[token_end(s, i)] == SP,
        forall|k: int| i <= k < token_end(s, i) ==> s[k] != SP,
    decreases s.len() - i,
{
    if i < s.len() && s[i] != SP {
        lemma_token_end_bounds(s, i + 1);
    }
}

pub proof fn lemma_find_byte_bounds(s: Seq<u8>, c: u8, i: int)
    requires
        0 <= i <= s.len(),
    ensures
        i <= find_byte(s, c, i) <= s.len(),
        find_byte(s, c, i) < s.len() ==> s[find_byte(s, c, i)] == c,
        forall|k: int| i <= k < find_byte(s, c, i) ==> s[k] != c,
    decreases s.len() - i,
{
    if i < s.len() && s[i] != c {
        lemma_find_byte_bounds(s, c, i + 1);
    }
}

/// The parameter fields of a line, read from index `i` on: tokens are
/// space-separated, repeated spaces are skipped, and a token that starts
/// with `:` yields the rest of the line verbatim as the final parameter.
pub open spec fn parse_params_from(s: Seq<u8>, i: int) -> Seq<Seq<u8>>
    recommends
        0 <= i,
    decreases s.len() - i when 0 <= i <= s.len() via parse_params_from_decreases
{
    let start = skip_spaces(s, i);
    if start >= s.len() {
        Seq::empty()
    } else if s[start] == COLON {
        seq![s.subrange(start + 1, s.len() as int)]
    } else {
        let end = token_end(s, start);
        if end >= s.len() {
            seq![s.subrange(start, end)]
        } else {
            seq![s.subrange(start, end)] + parse_params_from(s, end + 1)
        }
    }
}

#[via_fn]
proof fn parse_params_from_decreases(s: Seq<u8>, i: int) {
    if 0 <= i <= s.len() {
        lemma_skip_spaces_bounds(s, i);
        let start = skip_spaces(s, i);
        if start < s.len() && s[start] != COLON {
            lemma_token_end_bounds(s, start);
        }
    }
}

/// The three prefix fields read out of the text between the leading `:`
/// and the first space: split at the first `!` and the first `@`; with a
/// single separator only the matching field is set, and with `@` before
/// `!` the three parts are still recovered from the swapped positions.
pub open spec fn parse_prefix(b: Seq<u8>) -> (Option<Seq<u8>>, Option<Seq<u8>>, Option<Seq<u8>>) {
    let n = b.len() as int;
    let ub = find_byte(b, BANG, 0);
    let hb = find_byte(b, AT, 0);
    if ub == n && hb == n {
        (Some(b), None, None)
    } else if ub == n {
        (Some(b.subrange(0, hb)), None, Some(b.subrange(hb + 1, n)))
    } else if hb == n {
        (Some(b.subrange(0, ub)), Some(b.subrange(ub + 1, n)), None)
    } else if ub < hb {
        (Some(b.subrange(0, ub)), Some(b.subrange(ub + 1, hb)), Some(b.subrange(hb + 1, n)))
    } else {
        (Some(b.subrange(0, hb)), Some(b.subrange(ub + 1, n)), Some(b.subrange(hb + 1, ub)))
    }
}

/// The full line parser: skip leading spaces; a first token starting with
/// `:` is the prefix and the next token the command, otherwise the first
/// token is the command; everything after the command is parameters.
pub open spec fn parse_line(raw: Seq<u8>) -> MessageModel {
    let n = raw.len() as int;
    let p0 = skip_spaces(raw, 0);
    if p0 >= n {
        empty_model()
    } else if raw[p0] == COLON {
        let e0 = token_end(raw, p0);
        let pre = parse_prefix(raw.subrange(p0 + 1, e0));
        let p1 = skip_spaces(raw, e0);
        if p1 >= n {
            MessageModel {
                nick: pre.0,
                user: pre.1,
                host: pre.2,
                command: None,
                params: Seq::empty(),
            }
        } else {
            let e1 = token_end(raw, p1);
            MessageModel {
                nick: pre.0,
                user: pre.1,
                host: pre.2,
                command: Some(raw.subrange(p1, e1)),
                params: parse_params_from(raw, skip_spaces(raw, e1)),
            }
        }
    } else {
        let e0 = token_end(raw, p0);
        MessageModel {
            nick: None,
            user: None,
            host: None,
            command: Some(raw.subrange(p0, e0)),
            params: parse_params_from(raw, skip_spaces(raw, e0)),
        }
    }
}

/// Exec counterpart of `skip_spaces`.
pub fn skip_spaces_at(s: &[u8], from: usize) -> (r: usize)
    requires
        from <= s@.len(),
    ensures
        r == skip_spaces(s@, from as int),
        from <= r <= s@.len(),
{
    let mut i = from;
    while i < s.len() && s[i] == SP
        invariant
            from <= i <= s@.len(),
            skip_spaces(s@, from as int) == skip_spaces(s@, i as int),
        decreases s@.len() - i,
    {
        i = i + 1;
    }
    proof {
        lemma_skip_spaces_bounds(s@, from as int);
    }
    i
}

/// Exec counterpart of `token_end`.
pub fn token_end_at(s: &[u8], from: usize) -> (r: usize)
    requires
        from <= s@.len(),
    ensures
        r == token_end(s@, from as int),
        from <= r <= s@.len(),
{
    let mut i = from;
    while i < s.len() && s[i] != SP
        invariant
            from <= i <= s@.len(),
            token_end(s@, from as int) == token_end(s@, i as int),
        decreases s@.len() - i,
    {
        i = i + 1;
    }
    proof {
        lemma_token_end_bounds(s@, from as int);
    }
    i
}

/// Exec counterpart of `find_byte` searching from the start.
pub fn find_byte_at(s: &[u8], c: u8) -> (r: usize)
    ensures
        r == find_byte(s@, c, 0),
        r <= s@.len(),
{
    let mut i: usize = 0;
    while i < s.len() && s[i] != c
        invariant
            i <= s@.len(),
            find_byte(s@, c, 0) == find_byte(s@, c, i as int),
        decreases s@.len() - i,
    {
        i = i + 1;
    }
    proof {
        lemma_find_byte_bounds(s@, c, 0);
    }
    i
}

/// Exec counterpart of `parse_prefix`.
fn parse_prefix_at(b: &[u8]) -> (r: (Option<Vec<u8>>, Option<Vec<u8>>, Option<Vec<u8>>))
    ensures
        opt_view(r.0) == parse_prefix(b@).0,
        opt_view(r.1) == parse_prefix(b@).1,
        opt_view(r.2) == parse_prefix(b@).2,
{
    let n = b.len();
    let ub = find_byte_at(b, BANG);
    let hb = find_byte_at(b, AT);
    proof {
        lemma_find_byte_bounds(b@, BANG, 0);
        lemma_find_byte_bounds(b@, AT, 0);
    }
    if ub == n && hb == n {
        (Some(slice_to_vec(b)), None, None)
    } else if ub == n {
        (
            Some(slice_to_vec(slice_subrange(b, 0, hb))),
            None,
            Some(slice_to_vec(slice_subrange(b, hb + 1, n))),
        )
    } else if hb == n {
        (
            Some(slice_to_vec(slice_subrange(b, 0, ub))),
            Some(slice_to_vec(slice_subrange(b, ub + 1, n))),
            None,
        )
    } else if ub < hb {
        (
            Some(slice_to_vec(slice_subrange(b, 0, ub))),
            Some(slice_to_vec(slice_subrange(b, ub + 1, hb))),
            Some(slice_to_vec(slice_subrange(b, hb + 1, n))),
        )
    } else {
        proof {
            assert(b@[ub as int] == BANG);
            assert(b@[hb as int] == AT);
            assert(hb < ub);
        }
        (
            Some(slice_to_vec(slice_subrange(b, 0, hb))),
            Some(slice_to_vec(slice_subrange(b, ub + 1, n))),
            Some(slice_to_vec(slice_subrange(b, hb + 1, ub))),
        )
    }
}

/// Exec counterpart of `parse_params_from`.
fn parse_params_at(s: &[u8], from: usize) -> (ps: Vec<Vec<u8>>)
    requires
        from <= s@.len(),
    ensures
        views_of(ps@) == parse_params_from(s@, from as int),
{
    let n = s.len();
    let mut ret: Vec<Vec<u8>> = Vec::new();
    let mut pos = from;
    while pos < n
        invariant
            pos <= n,
            n == s@.len(),
            views_of(ret@) + parse_params_from(s@, pos as int) == parse_params_from(
                s@,
                from as int,
            ),
        decreases n - pos,
    {
        let ghost old_pos = pos as int;
        let ghost old_views = views_of(ret@);
        let start = skip_spaces_at(s, pos);
        if start == n {
            assert(parse_params_from(s@, old_pos) =~= Seq::empty());
            pos = n;
            assert(parse_params_from(s@, pos as int) =~= Seq::empty());
        } else if s[start] == COLON {
            let piece = slice_to_vec(slice_subrange(s, start + 1, n));
            let ghost pv = piece@;
            ret.push(piece);
            pos = n;
            proof {
                assert(parse_params_from(s@, old_pos) =~= seq![pv]);
                assert(parse_params_from(s@, pos as int) =~= Seq::empty());
                assert(views_of(ret@) =~= old_views.push(pv));
                assert(old_views.push(pv) + Seq::empty() =~= old_views + seq![pv]);
            }
        } else {
            let end = token_end_at(s, start);
            let piece = slice_to_vec(slice_subrange(s, start, end));
            let ghost pv = piece@;
            ret.push(piece);
            proof {
                assert(views_of(ret@) =~= old_views.push(pv));
            }
            if end == n {
                pos = n;
                proof {
                    assert(parse_params_from(s@, old_pos) =~= seq![pv]);
                    assert(parse_params_from(s@, pos as int) =~= Seq::empty());
                    assert(old_views.push(pv) + Seq::empty() =~= old_views + seq![pv]);
                }
            } else {
                pos = end + 1;
                proof {
                    assert(parse_params_from(s@, old_pos) =~= seq![pv] + parse_params_from(
                        s@,
                        pos as int,
                    ));
                    assert(old_views.push(pv) + parse_params_from(s@, pos as int) =~= old_views + (
                    seq![pv] + parse_params_from(s@, pos as int)));
                }
            }
        }
    }
    assert(parse_params_from(s@, pos as int) =~= Seq::empty());
    assert(views_of(ret@) =~= views_of(ret@) + Seq::empty());
    ret
}

impl Message {
    /// True when no field of the line was populated; such a line must not
    /// be handed to handlers.
    pub fn is_empty(&self) -> (r: bool)
        ensures
            r <==> (self@.nick is None && self@.user is None && self@.host is None
                && self@.command is None && self@.params.len() == 0),
    {
        self.nick.is_none() && self.user.is_none() && self.host.is_none()
            && self.command.is_none() && self.params.len() == 0
    }

    /// Parse one line, assumed free of line terminators.
    pub fn new(raw: &[u8]) -> (m: Message)
        ensures
            m@ == parse_line(raw@),
    {
        let n = raw.len();
        let p0 = skip_spaces_at(raw, 0);
        if p0 == n {
            let m = Message {
                nick: None,
                user: None,
                host: None,
                command: None,
                params: Vec::new(),
            };
            assert(m@.params =~= Seq::<Seq<u8>>::empty());
            m
        } else if raw[p0] == COLON {
            let e0 = token_end_at(raw, p0);
            proof {
                lemma_token_end_bounds(raw@, p0 as int);
                assert(raw@[p0 as int] != SP);
            }
            let (nick, user, host) = parse_prefix_at(slice_subrange(raw, p0 + 1, e0));
            let p1 = skip_spaces_at(raw, e0);
            if p1 == n {
                let m = Message { nick, user, host, command: None, params: Vec::new() };
                assert(m@.params =~= Seq::<Seq<u8>>::empty());
                m
            } else {
                let e1 = token_end_at(raw, p1);
                let p2 = skip_spaces_at(raw, e1);
                let command = Some(slice_to_vec(slice_subrange(raw, p1, e1)));
                let params = parse_params_at(raw, p2);
                Message { nick, user, host, command, params }
            }
        } else {
            let e0 = token_end_at(raw, p0);
            let p1 = skip_spaces_at(raw, e0);
            let command = Some(slice_to_vec(slice_subrange(raw, p0, e0)));
            let params = parse_params_at(raw, p1);
            Message { nick: None, user: None, host: None, command, params }
        }
    }
}

/// The bytes of the fallback command written when a message without a
/// command is encoded.
pub open spec fn ping_bytes() -> Seq<u8> {
    seq![80u8, 73u8, 78u8, 71u8]
}

/// Wire encoding of the parameter list: each parameter preceded by one
/// space, the last one also by a colon.
pub open spec fn encode_params(ps: Seq<Seq<u8>>) -> Seq<u8>
    decreases ps.len(),
{
    if ps.len() == 0 {
        Seq::empty()
    } else if ps.len() == 1 {
        seq![SP, COLON] + ps[0]
    } else {
        seq![SP] + ps[0] + encode_params(ps.drop_first())
    }
}

/// Wire encoding of a message as a client sends it: the command token
/// (or the fallback) followed by the encoded parameters; no prefix and no
/// line terminator.
pub open spec fn encode_msg(m: MessageModel) -> Seq<u8> {
    (match m.command {
        Some(c) => c,
        None => ping_bytes(),
    }) + encode_params(m.params)
}

/// `encode_params` read from the front: splitting off the first of two or
/// more parameters.
pub proof fn lemma_encode_params_step(ps: Seq<Seq<u8>>, i: int)
    requires
        0 <= i < ps.len(),
    ensures
        i < ps.len() - 1 ==> encode_params(ps.skip(i)) == seq![SP] + ps[i] + encode_params(
            ps.skip(i + 1),
        ),
        i == ps.len() - 1 ==> encode_params(ps.skip(i)) == seq![SP, COLON] + ps[i],
{
    let tail = ps.skip(i);
    assert(tail.len() == ps.len() - i);
    assert(tail[0] == ps[i]);
    if i < ps.len() - 1 {
        assert(tail.drop_first() =~= ps.skip(i + 1));
    }
}

impl Message {
    /// Serialize for sending to a server: no prefix is ever emitted, and
    /// the line terminator is left to the framing layer.
    pub fn to_server_vec(&self) -> (r: Vec<u8>)
        ensures
            r@ == encode_msg(self@),
    {
        let mut ret: Vec<u8> = Vec::with_capacity(512);
        match &self.command {
            Some(c) => ret.extend_from_slice(c.as_slice()),
            None => {
                ret.push(80);
                ret.push(73);
                ret.push(78);
                ret.push(71);
                assert(ret@ =~= ping_bytes());
            },
        }
        let ghost cmd = ret@;
        let np = self.params.len();
        let ghost views = views_of(self.params@);
        proof {
            assert(views.skip(0) =~= views);
        }
        let mut i: usize = 0;
        while i < np
            invariant
                i <= np,
                np == self.params@.len(),
                views == views_of(self.params@),
                views.len() == np,
                ret@ + encode_params(views.skip(i as int)) == cmd + encode_params(views),
            decreases np - i,
        {
            proof {
                lemma_encode_params_step(views, i as int);
            }
            let ghost before = ret@;
            ret.push(SP);
            if i == np - 1 {
                ret.push(COLON);
            }
            ret.extend_from_slice(self.params[i].as_slice());
            proof {
                assert(views[i as int] == self.params@[i as int]@);
                if i < np - 1 {
                    assert(ret@ =~= before + (seq![SP] + views[i as int]));
                    assert(before + (seq![SP] + views[i as int]) + encode_params(
                        views.skip(i as int + 1),
                    ) =~= before + encode_params(views.skip(i as int)));
                } else {
                    assert(ret@ =~= before + (seq![SP, COLON] + views[i as int]));
                    assert(views.skip(i as int + 1) =~= Seq::<Seq<u8>>::empty());
                    assert(before + (seq![SP, COLON] + views[i as int]) + encode_params(
                        views.skip(i as int + 1),
                    ) =~= before + encode_params(views.skip(i as int)));
                }
            }
            i = i + 1;
        }
        proof {
            assert(views.skip(np as int) =~= Seq::<Seq<u8>>::empty());
            assert(ret@ + Seq::<u8>::empty() =~= ret@);
        }
        ret
    }
}

/// A token that survives the trip over the wire unchanged: nonempty, free
/// of spaces and line terminators, and not starting with a colon.
pub open spec fn token_ok(t: Seq<u8>) -> bool {
    &&& t.len() > 0
    &&& t[0] != COLON
    &&& forall|i: int| 0 <= i < t.len() ==> t[i] != SP && t[i] != 13 && t[i] != 10
}

/// A trailing parameter may hold spaces and colons, but no terminator.
pub open spec fn trailing_ok(t: Seq<u8>) -> bool {
    forall|i: int| 0 <= i < t.len() ==> t[i] != 13 && t[i] != 10
}

/// A message the client may put on the wire: command and all but the last
/// parameter are plain tokens, and the last parameter is a valid trailer.
pub open spec fn wf_outbound(m: MessageModel) -> bool {
    &&& match m.command {
        Some(c) => token_ok(c),
        None => true,
    }
    &&& forall|i: int| 0 <= i < m.params.len() - 1 ==> token_ok(#[trigger] m.params[i])
    &&& m.params.len() > 0 ==> trailing_ok(m.params.last())
}

/// The command token actually written: the message's own, or the fallback.
pub open spec fn cmd_of(m: MessageModel) -> Seq<u8> {
    match m.command {
        Some(c) => c,
        None => ping_bytes(),
    }
}

proof fn lemma_skip_spaces_offset(a: Seq<u8>, b: Seq<u8>, j: int)
    requires
        0 <= j <= b.len(),
    ensures
        skip_spaces(a + b, a.len() + j) == a.len() + skip_spaces(b, j),
    decreases b.len() - j,
{
    assert((a + b).len() == a.len() + b.len());
    if j < b.len() {
        assert((a + b)[a.len() + j] == b[j]);
        if b[j] == SP {
            lemma_skip_spaces_offset(a, b, j + 1);
        }
    }
}

proof fn lemma_token_end_offset(a: Seq<u8>, b: Seq<u8>, j: int)
    requires
        0 <= j <= b.len(),
    ensures
        token_end(a + b, a.len() + j) == a.len() + token_end(b, j),
    decreases b.len() - j,
{
    assert((a + b).len() == a.len() + b.len());
    if j < b.len() {
        assert((a + b)[a.len() + j] == b[j]);
        if b[j] != SP {
            lemma_token_end_offset(a, b, j + 1);
        }
    }
}

/// Parameter parsing is insensitive to where in a larger buffer the
/// parameter text begins.
proof fn lemma_parse_params_offset(a: Seq<u8>, b: Seq<u8>, j: int)
    requires
        0 <= j <= b.len(),
    ensures
        parse_params_from(a + b, a.len() + j) == parse_params_from(b, j),
    decreases b.len() - j,
{
    let s = a + b;
    let al = a.len() as int;
    let bl = b.len() as int;
    assert(s.len() == al + bl);
    lemma_skip_spaces_offset(a, b, j);
    lemma_skip_spaces_bounds(b, j);
    let start = skip_spaces(b, j);
    if start >= bl {
        assert(parse_params_from(b, j) =~= Seq::<Seq<u8>>::empty());
        assert(parse_params_from(s, al + j) =~= Seq::<Seq<u8>>::empty());
    } else {
        assert(s[al + start] == b[start]);
        if b[start] == COLON {
            assert(s.subrange(al + start + 1, al + bl) =~= b.subrange(start + 1, bl));
        } else {
            lemma_token_end_offset(a, b, start);
            lemma_token_end_bounds(b, start);
            let end = token_end(b, start);
            assert(s.subrange(al + start, al + end) =~= b.subrange(start, end));
            if end < bl {
                lemma_parse_params_offset(a, b, end + 1);
            }
        }
    }
}

/// Skipping spaces twice is skipping them once.
proof fn lemma_skip_spaces_idem(s: Seq<u8>, i: int)
    requires
        0 <= i <= s.len(),
    ensures
        skip_spaces(s, skip_spaces(s, i)) == skip_spaces(s, i),
        parse_params_from(s, skip_spaces(s, i)) == parse_params_from(s, i),
{
    lemma_skip_spaces_bounds(s, i);
}

/// Encoded parameters parse back to themselves.
proof fn lemma_params_round_trip(ps: Seq<Seq<u8>>)
    requires
        forall|i: int| 0 <= i < ps.len() - 1 ==> token_ok(#[trigger] ps[i]),
    ensures
        parse_params_from(encode_params(ps), 0) == ps,
    decreases ps.len(),
{
    let e = encode_params(ps);
    let n = e.len() as int;
    if ps.len() == 0 {
        assert(parse_params_from(e, 0) =~= Seq::<Seq<u8>>::empty());
        assert(parse_params_from(e, 0) =~= ps);
    } else if ps.len() == 1 {
        assert(e =~= seq![SP, COLON] + ps[0]);
        assert(e[0] == SP && e[1] == COLON);
        assert(skip_spaces(e, 0) == skip_spaces(e, 1));
        assert(skip_spaces(e, 1) == 1);
        assert(e.subrange(2, n) =~= ps[0]);
        assert(parse_params_from(e, 0) =~= seq![ps[0]]);
        assert(seq![ps[0]] =~= ps);
    } else {
        let p0 = ps[0];
        let tail = ps.drop_first();
        assert(e =~= seq![SP] + p0 + encode_params(tail));
        let u = seq![SP] + p0;
        assert(e =~= u + encode_params(tail));
        assert(e[0] == SP);
        assert(skip_spaces(e, 0) == skip_spaces(e, 1));
        assert(token_ok(p0));
        assert(e[1] == p0[0]);
        assert(skip_spaces(e, 1) == 1);
        assert(e[1] != COLON);
        // the token runs to the separating space written before the next
        // parameter
        let et = encode_params(tail);
        assert(tail.len() >= 1);
        assert(et[0] == SP) by {
            if tail.len() == 1 {
                assert(et =~= seq![SP, COLON] + tail[0]);
            } else {
                assert(et =~= seq![SP] + tail[0] + encode_params(tail.drop_first()));
            }
        }
        assert forall|k: int| 1 <= k < u.len() implies e[k] != SP by {
            assert(e[k] == p0[k - 1]);
        }
        assert(e[u.len() as int] == SP);
        assert(token_end(e, 1) == u.len()) by {
            lemma_token_end_bounds(e, 1);
            if token_end(e, 1) < u.len() {
                assert(e[token_end(e, 1)] == SP);
            }
            if token_end(e, 1) > u.len() {
                assert(!(e[u.len() as int] != SP));
            }
        }
        let end = u.len() as int;
        assert(e.subrange(1, end) =~= p0);
        assert(end < n) by {
            assert(et.len() >= 1);
        }
        lemma_parse_params_offset(u, et, 1);
        assert(parse_params_from(e, end + 1) == parse_params_from(et, 1));
        assert(skip_spaces(et, 0) == skip_spaces(et, 1));
        assert(parse_params_from(et, 0) == parse_params_from(et, 1)) by {
            lemma_skip_spaces_idem(et, 0);
            lemma_skip_spaces_idem(et, 1);
        }
        lemma_params_round_trip(tail);
        assert(parse_params_from(e, 0) =~= seq![p0] + tail);
        assert(seq![p0] + tail =~= ps);
    }
}

/// What an encoded message parses back to: no prefix, the written command
/// token, and exactly the original parameters.
pub proof fn lemma_parse_encode(m: MessageModel)
    requires
        wf_outbound(m),
    ensures
        parse_line(encode_msg(m)) == (MessageModel {
            nick: None,
            user: None,
            host: None,
            command: Some(cmd_of(m)),
            params: m.params,
        }),
        encode_msg(parse_line(encode_msg(m))) == encode_msg(m),
{
    let c = cmd_of(m);
    assert(token_ok(c)) by {
        if m.command is None {
            assert(ping_bytes()[0] == 80);
            assert(forall|i: int| 0 <= i < 4 ==> ping_bytes()[i] != SP && ping_bytes()[i] != 13
                && ping_bytes()[i] != 10);
        }
    }
    let ep = encode_params(m.params);
    let e = encode_msg(m);
    let n = e.len() as int;
    let cl = c.len() as int;
    assert(e =~= c + ep);
    assert(e[0] == c[0]);
    assert(skip_spaces(e, 0) == 0);
    assert(e[0] != COLON);
    // the command token ends exactly at the first space that the encoder
    // wrote, or at the end of the line when there are no parameters
    assert(ep.len() > 0 ==> ep[0] == SP) by {
        if m.params.len() == 1 {
            assert(ep =~= seq![SP, COLON] + m.params[0]);
        } else if m.params.len() > 1 {
            assert(ep =~= seq![SP] + m.params[0] + encode_params(m.params.drop_first()));
        }
    }
    assert(token_end(e, 0) == cl) by {
        lemma_token_end_bounds(e, 0);
        assert(forall|k: int| 0 <= k < cl ==> e[k] == c[k]);
        if token_end(e, 0) < cl {
            assert(e[token_end(e, 0)] == SP);
        }
        if token_end(e, 0) > cl {
            assert(cl < n);
            assert(ep.len() > 0);
            assert(e[cl] == ep[0]);
            assert(!(e[cl] != SP));
        }
    }
    assert(e.subrange(0, cl) =~= c);
    lemma_skip_spaces_idem(e, cl);
    lemma_parse_params_offset(c, ep, 0);
    lemma_params_round_trip(m.params);
    assert(parse_params_from(e, cl) == m.params);
    let parsed = parse_line(e);
    assert(parsed.command == Some(c));
    assert(parsed.params == m.params);
    assert(encode_msg(parsed) =~= encode_msg(m));
}

/// The model of a client-built message: no prefix, just a command and
/// its parameters.
pub open spec fn outbound(cmd: Seq<u8>, params: Seq<Seq<u8>>) -> MessageModel {
    MessageModel { nick: None, user: None, host: None, command: Some(cmd), params }
}

impl Message {
    /// Build a client message from a command verb and parameters.
    pub fn of_command(cmd: &str, params: Vec<Vec<u8>>) -> (m: Message)
        ensures
            m@ == outbound(cmd.spec_bytes(), views_of(params@)),
    {
        Message {
            nick: None,
            user: None,
            host: None,
            command: Some(cmd.as_bytes_vec()),
            params,
        }
    }
}

/// Byte-for-byte equality of two slices.
pub fn eq_bytes(a: &[u8], b: &[u8]) -> (r: bool)
    ensures
        r == (a@ == b@),
{
    if a.len() != b.len() {
        proof {
            assert(a@ != b@);
        }
        return false;
    }
    let n = a.len();
    let mut i: usize = 0;
    while i < n
        invariant
            i <= n,
            n == a@.len() == b@.len(),
            forall|k: int| 0 <= k < i ==> a@[k] == b@[k],
        decreases n - i,
    {
        if a[i] != b[i] {
            return false;
        }
        i = i + 1;
    }
    proof {
        assert(a@ =~= b@);
    }
    true
}

/// Exec counterpart of `find_byte` searching from `from`.
pub fn find_byte_from(s: &[u8], c: u8, from: usize) -> (r: usize)
    requires
        from <= s@.len(),
    ensures
        r == find_byte(s@, c, from as int),
        from <= r <= s@.len(),
{
    let mut i = from;
    while i < s.len() && s[i] != c
        invariant
            from <= i <= s@.len(),
            find_byte(s@, c, from as int) == find_byte(s@, c, i as int),
        decreases s@.len() - i,
    {
        i = i + 1;
    }
    proof {
        lemma_find_byte_bounds(s@, c, from as int);
    }
    i
}

/// Copy a borrowed byte vector.
pub fn copy_bytes(v: &Vec<u8>) -> (r: Vec<u8>)
    ensures
        r@ == v@,
{
    vstd::slice::slice_to_vec(v.as_slice())
}

} // verus!
