//! Small pieces shared by the session logic: the registration preamble,
//! channel batching for JOIN/PART lines, connection configuration, and
//! the check whether a message targets the client's own (possibly
//! suffixed) nickname.

use vstd::prelude::*;
use vstd::string::{StrSliceExecFns, StringSliceAdditionalSpecFns};
use vstd::utf8::encode_utf8;

use crate::connection::{Config, Security};
use crate::parse::{find_byte, lemma_find_byte_bounds, outbound, views_of, Message};

verus! {

/// The character appended to the nickname after each collision.
pub const CONFLICT_FILLER: &'static str = "_";

/// The filler as its single wire byte.
pub const FILLER_BYTE: u8 = 95;

/// Comma, the separator inside a batched channel list.
pub const COMMA: u8 = 44;

/// Longest allowed comma-joined channel payload of one JOIN/PART line:
/// 512 bytes of line budget minus the terminator and the verb with its
/// space.
pub const JOIN_BUDGET: usize = 505;

/// The UTF-8 bytes of a string value.
pub open spec fn bytes_of(s: Seq<char>) -> Seq<u8> {
    encode_utf8(s)
}

/// The byte payloads of a sequence of strings.
pub open spec fn bytes_of_all(ss: Seq<String>) -> Seq<Seq<u8>> {
    ss.map_values(|s: String| bytes_of(s@))
}

/// Encoding a concatenation encodes each part in turn.
pub proof fn lemma_bytes_of_concat(a: Seq<char>, b: Seq<char>)
    ensures
        bytes_of(a + b) == bytes_of(a) + bytes_of(b),
    decreases a.len(),
{
    if a.len() == 0 {
        assert(a + b =~= b);
        assert(encode_utf8(a) =~= Seq::<u8>::empty());
        assert(encode_utf8(a) + encode_utf8(b) =~= encode_utf8(b));
    } else {
        assert((a + b)[0] == a[0]);
        assert((a + b).drop_first() =~= a.drop_first() + b);
        lemma_bytes_of_concat(a.drop_first(), b);
        assert(vstd::utf8::encode_scalar(a[0] as u32) + (encode_utf8(a.drop_first())
            + encode_utf8(b)) =~= (vstd::utf8::encode_scalar(a[0] as u32) + encode_utf8(
            a.drop_first(),
        )) + encode_utf8(b));
    }
}

/// A channel name that can ride in a comma-joined batch: nonempty, free
/// of commas, and within the single-line budget by itself.
pub open spec fn channel_ok(b: Seq<u8>) -> bool {
    &&& 1 <= b.len() <= JOIN_BUDGET
    &&& forall|j: int| 0 <= j < b.len() ==> b[j] != COMMA
}

/// The registration burst sent immediately on connect: set the nickname,
/// set the user identity, and, when a server password is configured,
/// send it — in that order.
pub fn irc_preamble(nick: &str, pass: &str) -> (r: Vec<Message>)
    ensures
        r@.len() == if pass@.len() == 0 { 2int } else { 3int },
        r@[0]@ == outbound("NICK".spec_bytes(), seq![nick.spec_bytes()]),
        r@[1]@ == outbound(
            "USER".spec_bytes(),
            seq![nick.spec_bytes(), "0".spec_bytes(), "*".spec_bytes(), "moose-irc2".spec_bytes()],
        ),
        pass@.len() > 0 ==> r@[2]@ == outbound("PASS".spec_bytes(), seq![pass.spec_bytes()]),
{
    let mut nick_params: Vec<Vec<u8>> = Vec::new();
    nick_params.push(nick.as_bytes_vec());
    let nick_msg = Message::of_command("NICK", nick_params);

    let mut user_params: Vec<Vec<u8>> = Vec::new();
    user_params.push(nick.as_bytes_vec());
    user_params.push("0".as_bytes_vec());
    user_params.push("*".as_bytes_vec());
    user_params.push("moose-irc2".as_bytes_vec());
    let user_msg = Message::of_command("USER", user_params);

    let mut ret: Vec<Message> = Vec::new();
    ret.push(nick_msg);
    ret.push(user_msg);
    if !pass.is_empty() {
        let mut pass_params: Vec<Vec<u8>> = Vec::new();
        pass_params.push(pass.as_bytes_vec());
        ret.push(Message::of_command("PASS", pass_params));
    }
    proof {
        assert(views_of(ret@[0].params@) =~= seq![nick.spec_bytes()]);
        assert(views_of(ret@[1].params@) =~= seq![
            nick.spec_bytes(),
            "0".spec_bytes(),
            "*".spec_bytes(),
            "moose-irc2".spec_bytes(),
        ]);
        if pass@.len() > 0 {
            assert(views_of(ret@[2].params@) =~= seq![pass.spec_bytes()]);
        }
    }
    ret
}

/// A comma-joined payload split back into the names it carries.
pub open spec fn split_commas(b: Seq<u8>) -> Seq<Seq<u8>>
    decreases b.len() via split_commas_decreases
{
    let c = find_byte(b, COMMA, 0);
    if c == b.len() {
        seq![b]
    } else {
        seq![b.subrange(0, c)] + split_commas(b.subrange(c + 1, b.len() as int))
    }
}

#[via_fn]
proof fn split_commas_decreases(b: Seq<u8>) {
    lemma_find_byte_bounds(b, COMMA, 0);
}

/// The names carried by a sequence of comma-joined payloads, in order.
pub open spec fn names_of_lines(ls: Seq<Seq<u8>>) -> Seq<Seq<u8>>
    decreases ls.len(),
{
    if ls.len() == 0 {
        Seq::empty()
    } else {
        split_commas(ls[0]) + names_of_lines(ls.drop_first())
    }
}

proof fn lemma_split_single(x: Seq<u8>)
    requires
        forall|j: int| 0 <= j < x.len() ==> x[j] != COMMA,
    ensures
        split_commas(x) == seq![x],
{
    lemma_find_byte_bounds(x, COMMA, 0);
    if find_byte(x, COMMA, 0) < x.len() {
        assert(x[find_byte(x, COMMA, 0)] == COMMA);
    }
}

proof fn lemma_find_comma_concat(u: Seq<u8>, v: Seq<u8>, i: int)
    requires
        0 <= i <= u.len(),
    ensures
        find_byte(u, COMMA, i) < u.len() ==> find_byte(u + seq![COMMA] + v, COMMA, i) == find_byte(
            u,
            COMMA,
            i,
        ),
        find_byte(u, COMMA, i) == u.len() ==> find_byte(u + seq![COMMA] + v, COMMA, i) == u.len(),
    decreases u.len() - i,
{
    let s = u + seq![COMMA] + v;
    assert(s.len() == u.len() + 1 + v.len());
    lemma_find_byte_bounds(u, COMMA, i);
    if i == u.len() {
        assert(s[i] == COMMA);
    } else {
        assert(s[i] == u[i]);
        if u[i] != COMMA {
            lemma_find_comma_concat(u, v, i + 1);
        }
    }
}

/// Splitting distributes over joining with a comma.
proof fn lemma_split_concat(u: Seq<u8>, v: Seq<u8>)
    ensures
        split_commas(u + seq![COMMA] + v) == split_commas(u) + split_commas(v),
    decreases u.len(),
{
    let s = u + seq![COMMA] + v;
    lemma_find_comma_concat(u, v, 0);
    lemma_find_byte_bounds(u, COMMA, 0);
    let c = find_byte(u, COMMA, 0);
    if c == u.len() {
        assert(find_byte(s, COMMA, 0) == u.len());
        assert(s.subrange(0, u.len() as int) =~= u);
        assert(s.subrange(u.len() as int + 1, s.len() as int) =~= v);
        assert(split_commas(u) =~= seq![u]);
        assert(split_commas(s) =~= seq![u] + split_commas(v));
    } else {
        assert(find_byte(s, COMMA, 0) == c);
        assert(s.subrange(0, c) =~= u.subrange(0, c));
        let u2 = u.subrange(c + 1, u.len() as int);
        assert(s.subrange(c + 1, s.len() as int) =~= u2 + seq![COMMA] + v);
        lemma_split_concat(u2, v);
        assert(seq![u.subrange(0, c)] + (split_commas(u2) + split_commas(v)) =~= (seq![
            u.subrange(0, c),
        ] + split_commas(u2)) + split_commas(v));
    }
}

proof fn lemma_names_of_lines_push(ls: Seq<Seq<u8>>, l: Seq<u8>)
    ensures
        names_of_lines(ls.push(l)) == names_of_lines(ls) + split_commas(l),
    decreases ls.len(),
{
    if ls.len() == 0 {
        let one = ls.push(l);
        assert(one[0] == l);
        assert(one.drop_first() =~= Seq::<Seq<u8>>::empty());
        assert(names_of_lines(one.drop_first()) =~= Seq::<Seq<u8>>::empty());
        assert(names_of_lines(one) =~= split_commas(l) + Seq::<Seq<u8>>::empty());
        assert(split_commas(l) + Seq::<Seq<u8>>::empty() =~= split_commas(l));
        assert(names_of_lines(ls) + split_commas(l) =~= split_commas(l));
    } else {
        assert(ls.push(l)[0] == ls[0]);
        assert(ls.push(l).drop_first() =~= ls.drop_first().push(l));
        lemma_names_of_lines_push(ls.drop_first(), l);
        assert(split_commas(ls[0]) + (names_of_lines(ls.drop_first()) + split_commas(l)) =~= (
        split_commas(ls[0]) + names_of_lines(ls.drop_first())) + split_commas(l));
    }
}

/// Pack channel names into as few comma-joined payloads as possible, each
/// within the line budget.  Every name appears in the output exactly
/// once, in order.
pub fn join_part_channels(channels: &Vec<String>) -> (r: Vec<Vec<u8>>)
    requires
        forall|i: int| 0 <= i < channels@.len() ==> channel_ok(
            #[trigger] bytes_of(channels@[i]@),
        ),
    ensures
        forall|i: int| 0 <= i < r@.len() ==> (#[trigger] r@[i]@).len() <= JOIN_BUDGET,
        names_of_lines(views_of(r@)) == bytes_of_all(channels@),
{
    let n = channels.len();
    let mut ret: Vec<Vec<u8>> = Vec::new();
    let mut cur: Vec<u8> = Vec::new();
    let ghost target = bytes_of_all(channels@);
    proof {
        assert(target.len() == n);
        assert(names_of_lines(views_of(ret@)) =~= Seq::<Seq<u8>>::empty());
        assert(target.take(0) =~= Seq::<Seq<u8>>::empty());
    }
    let mut i: usize = 0;
    while i < n
        invariant
            i <= n,
            n == channels@.len(),
            target == bytes_of_all(channels@),
            forall|k: int| 0 <= k < n ==> channel_ok(#[trigger] target[k]),
            forall|k: int| 0 <= k < ret@.len() ==> (#[trigger] ret@[k]@).len() <= JOIN_BUDGET,
            cur@.len() <= JOIN_BUDGET,
            i == 0 ==> ret@.len() == 0 && cur@.len() == 0,
            i > 0 ==> cur@.len() > 0 && names_of_lines(views_of(ret@)) + split_commas(cur@)
                == target.take(i as int),
        decreases n - i,
    {
        let ghost prev_names = names_of_lines(views_of(ret@));
        let cb = channels[i].as_str().as_bytes_vec();
        proof {
            assert(cb@ == target[i as int]);
            assert(channel_ok(cb@));
        }
        if cur.len() > 0 && cur.len() + 1 + cb.len() > JOIN_BUDGET {
            let ghost old_ret = ret@;
            let ghost line = cur@;
            ret.push(cur);
            cur = Vec::new();
            proof {
                assert(views_of(ret@) =~= views_of(old_ret).push(line));
                lemma_names_of_lines_push(views_of(old_ret), line);
            }
        }
        if cur.len() > 0 {
            // a line continues: names are separated by one comma
            let ghost line_before = cur@;
            let ghost names_before = names_of_lines(views_of(ret@));
            cur.push(COMMA);
            cur.extend_from_slice(cb.as_slice());
            proof {
                assert(cur@ =~= line_before + seq![COMMA] + cb@);
                lemma_split_concat(line_before, cb@);
                lemma_split_single(cb@);
                assert(names_before + split_commas(cur@) =~= (names_before + split_commas(
                    line_before,
                )).push(cb@));
                assert(target.take(i + 1) =~= target.take(i as int).push(target[i as int]));
            }
        } else {
            let ghost names_before = names_of_lines(views_of(ret@));
            cur.extend_from_slice(cb.as_slice());
            proof {
                assert(cur@ =~= cb@);
                lemma_split_single(cb@);
                if i == 0 {
                    assert(names_before =~= Seq::<Seq<u8>>::empty());
                }
                assert(names_before + split_commas(cur@) =~= names_before.push(cb@));
                assert(target.take(i + 1) =~= target.take(i as int).push(target[i as int]));
            }
        }
        i = i + 1;
    }
    if n > 0 {
        let ghost old_ret = ret@;
        let ghost line = cur@;
        ret.push(cur);
        proof {
            assert(views_of(ret@) =~= views_of(old_ret).push(line));
            lemma_names_of_lines_push(views_of(old_ret), line);
            assert(target.take(n as int) =~= target);
        }
    } else {
        proof {
            assert(target =~= Seq::<Seq<u8>>::empty());
            assert(names_of_lines(views_of(ret@)) =~= target);
        }
    }
    ret
}

/// One JOIN message per batched payload.
pub fn join_channels(channels: &Vec<String>) -> (r: Vec<Message>)
    requires
        forall|i: int| 0 <= i < channels@.len() ==> channel_ok(
            #[trigger] bytes_of(channels@[i]@),
        ),
    ensures
        forall|i: int| 0 <= i < r@.len() ==> (#[trigger] r@[i]@).command == Some(
            "JOIN".spec_bytes(),
        ) && r@[i]@.params.len() == 1 && r@[i]@.params[0].len() <= JOIN_BUDGET && r@[i]@.nick
            is None && r@[i]@.user is None && r@[i]@.host is None,
        names_of_lines(Seq::new(r@.len(), |i: int| r@[i]@.params[0])) == bytes_of_all(channels@),
{
    batch_to_messages("JOIN", channels)
}

/// One PART message per batched payload.
pub fn part_channels(channels: &Vec<String>) -> (r: Vec<Message>)
    requires
        forall|i: int| 0 <= i < channels@.len() ==> channel_ok(
            #[trigger] bytes_of(channels@[i]@),
        ),
    ensures
        forall|i: int| 0 <= i < r@.len() ==> (#[trigger] r@[i]@).command == Some(
            "PART".spec_bytes(),
        ) && r@[i]@.params.len() == 1 && r@[i]@.params[0].len() <= JOIN_BUDGET && r@[i]@.nick
            is None && r@[i]@.user is None && r@[i]@.host is None,
        names_of_lines(Seq::new(r@.len(), |i: int| r@[i]@.params[0])) == bytes_of_all(channels@),
{
    batch_to_messages("PART", channels)
}

fn batch_to_messages(verb: &str, channels: &Vec<String>) -> (r: Vec<Message>)
    requires
        forall|i: int| 0 <= i < channels@.len() ==> channel_ok(
            #[trigger] bytes_of(channels@[i]@),
        ),
    ensures
        forall|i: int| 0 <= i < r@.len() ==> (#[trigger] r@[i]@).command == Some(verb.spec_bytes())
            && r@[i]@.params.len() == 1 && r@[i]@.params[0].len() <= JOIN_BUDGET && r@[i]@.nick
            is None && r@[i]@.user is None && r@[i]@.host is None,
        names_of_lines(Seq::new(r@.len(), |i: int| r@[i]@.params[0])) == bytes_of_all(channels@),
{
    let lines = join_part_channels(channels);
    let nl = lines.len();
    let ghost payloads = views_of(lines@);
    let mut ret: Vec<Message> = Vec::new();
    let mut i: usize = 0;
    while i < nl
        invariant
            i <= nl,
            nl == lines@.len(),
            payloads == views_of(lines@),
            forall|k: int| 0 <= k < nl ==> (#[trigger] payloads[k]).len() <= JOIN_BUDGET,
            ret@.len() == i,
            forall|k: int| 0 <= k < i ==> (#[trigger] ret@[k]@).command == Some(verb.spec_bytes())
                && ret@[k]@.params.len() == 1 && ret@[k]@.params[0] == payloads[k] && ret@[k]@.nick
                is None && ret@[k]@.user is None && ret@[k]@.host is None,
        decreases nl - i,
    {
        let mut params: Vec<Vec<u8>> = Vec::new();
        let payload = slice_to_vec_u8(lines[i].as_slice());
        params.push(payload);
        let m = Message::of_command(verb, params);
        proof {
            assert(views_of(m.params@) =~= seq![payloads[i as int]]);
        }
        ret.push(m);
        i = i + 1;
    }
    proof {
        assert(Seq::new(ret@.len(), |k: int| ret@[k]@.params[0]) =~= payloads);
    }
    ret
}

/// Copy a byte slice into a fresh vector.
fn slice_to_vec_u8(s: &[u8]) -> (r: Vec<u8>)
    ensures
        r@ == s@,
{
    vstd::slice::slice_to_vec(s)
}

/// The security choice for a connection: encrypted with the platform's
/// roots when requested, plain otherwise.
pub fn security(tls: bool) -> (r: Security)
    ensures
        tls ==> r == (Security::Secured {
            root_cert_path: None,
            client_cert_path: None,
            client_key_path: None,
        }),
        !tls ==> r == Security::Unsecured,
{
    if tls {
        Security::Secured { root_cert_path: None, client_cert_path: None, client_key_path: None }
    } else {
        Security::Unsecured
    }
}

/// Connection configuration from server name, port and the TLS choice.
pub fn client_config(server: &str, port: u16, tls: bool) -> (r: Config)
    ensures
        r.server@ == server@,
        r.port == port,
        tls ==> r.security == (Security::Secured {
            root_cert_path: None,
            client_cert_path: None,
            client_key_path: None,
        }),
        !tls ==> r.security == Security::Unsecured,
{
    Config { server: server.to_owned(), port, security: security(tls) }
}

/// The nickname after `cnt` collisions: the original with `cnt` filler
/// bytes appended.
pub open spec fn suffixed_nick(ours: Seq<u8>, cnt: int) -> Seq<u8> {
    ours + Seq::new(cnt as nat, |i: int| FILLER_BYTE)
}

/// Whether `target` is the client's own nickname, allowing for
/// `rename_cnt` collision suffixes appended to the original name.
#[verifier::loop_isolation(false)]
pub fn is_me(ours: &str, rename_cnt: u8, target: &str) -> (r: bool)
    ensures
        r <==> target.spec_bytes() == suffixed_nick(ours.spec_bytes(), rename_cnt as int),
{
    let a = ours.as_bytes();
    let b = target.as_bytes();
    let ghost expect = suffixed_nick(ours.spec_bytes(), rename_cnt as int);
    if b.len() < a.len() || b.len() - a.len() != rename_cnt as usize {
        proof {
            assert(expect.len() == a@.len() + rename_cnt as int);
        }
        return false;
    }
    let mut i: usize = 0;
    while i < a.len()
        invariant
            i <= a@.len(),
            a@ == ours.spec_bytes(),
            b@ == target.spec_bytes(),
            b@.len() == a@.len() + rename_cnt as int,
            forall|k: int| 0 <= k < i ==> a@[k] == b@[k],
        decreases a@.len() - i,
    {
        if a[i] != b[i] {
            proof {
                assert(expect[i as int] == a@[i as int]);
            }
            return false;
        }
        i = i + 1;
    }
    let mut j: usize = 0;
    while j < b.len() - a.len()
        invariant
            j <= rename_cnt as usize,
            a@ == ours.spec_bytes(),
            b@ == target.spec_bytes(),
            b@.len() == a@.len() + rename_cnt as int,
            forall|k: int| 0 <= k < a@.len() ==> a@[k] == b@[k],
            forall|k: int| 0 <= k < j ==> #[trigger] b@[a@.len() + k] == FILLER_BYTE,
        decreases b@.len() - a@.len() - j,
    {
        if b[a.len() + j] != FILLER_BYTE {
            proof {
                assert(expect[a@.len() + j] == FILLER_BYTE);
            }
            return false;
        }
        j = j + 1;
    }
    proof {
        assert forall|k: int| a@.len() <= k < b@.len() implies b@[k] == FILLER_BYTE by {
            assert(b@[a@.len() + (k - a@.len())] == FILLER_BYTE);
        }
        assert(b@ =~= expect);
    }
    true
}

} // verus!
