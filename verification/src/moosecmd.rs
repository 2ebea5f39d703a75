//! The grammar of the content-fetch chat command: a leading verb such as
//! `.moose`, an optional flag or name argument, and the rest of the text
//! as the name.  Names are kept as raw bytes; they are only ever passed
//! on percent-encoded.

use vstd::prelude::*;
use vstd::slice::slice_subrange;
use vstd::string::{StrSliceExecFns, StringSliceAdditionalSpecFns};

use crate::parse::eq_bytes;

verus! {

/// The reply to `.help` and to the `--help` flag.
pub const HELP_RESP: &'static str =
    "usage: ^[.!]?moose(?:img|search|me)? [--latest|--random|--search|--image|--] [moosename]";

/// A recognized chat command: plain replies, or a fetch with the name it
/// asks for.
pub enum MComm {
    Help,
    Bots,
    Search(Vec<u8>),
    Image(Vec<u8>),
    Irc(Vec<u8>),
}

/// The model of a recognized chat command.
pub ghost enum MCommSpec {
    Help,
    Bots,
    Search(Seq<u8>),
    Image(Seq<u8>),
    Irc(Seq<u8>),
}

impl View for MComm {
    type V = MCommSpec;

    open spec fn view(&self) -> MCommSpec {
        match self {
            MComm::Help => MCommSpec::Help,
            MComm::Bots => MCommSpec::Bots,
            MComm::Search(v) => MCommSpec::Search(v@),
            MComm::Image(v) => MCommSpec::Image(v@),
            MComm::Irc(v) => MCommSpec::Irc(v@),
        }
    }
}

/// The fetch family a verb selects.
#[derive(PartialEq, Eq, Structural, Clone, Copy)]
pub enum PComm {
    Search,
    Image,
    Irc,
}

/// Whether a byte counts as whitespace for splitting the command text.
pub open spec fn is_ws(b: u8) -> bool {
    b == 32 || b == 9 || b == 10 || b == 13 || b == 12
}

/// First whitespace byte at or after `i`, or the length of `s`.
pub open spec fn ws_end(s: Seq<u8>, i: int) -> int
    recommends
        0 <= i,
    decreases s.len() - i when 0 <= i <= s.len()
{
    if i >= s.len() {
        s.len() as int
    } else if is_ws(s[i]) {
        i
    } else {
        ws_end(s, i + 1)
    }
}

/// First non-whitespace byte at or after `i`, or the length of `s`.
pub open spec fn skip_ws(s: Seq<u8>, i: int) -> int
    recommends
        0 <= i,
    decreases s.len() - i when 0 <= i <= s.len()
{
    if i >= s.len() {
        s.len() as int
    } else if is_ws(s[i]) {
        skip_ws(s, i + 1)
    } else {
        i
    }
}

/// One past the last non-whitespace byte strictly before `j`, or zero.
pub open spec fn ws_rend(s: Seq<u8>, j: int) -> int
    recommends
        j <= s.len(),
    decreases j when 0 <= j <= s.len()
{
    if j <= 0 {
        0
    } else if is_ws(s[j - 1]) {
        ws_rend(s, j - 1)
    } else {
        j
    }
}

proof fn lemma_ws_end_bounds(s: Seq<u8>, i: int)
    requires
        0 <= i <= s.len(),
    ensures
        i <= ws_end(s, i) <= s.len(),
        ws_end(s, i) < s.len() ==> is_ws(s[ws_end(s, i)]),
        forall|k: int| i <= k < ws_end(s, i) ==> !is_ws(s[k]),
    decreases s.len() - i,
{
    if i < s.len() && !is_ws(s[i]) {
        lemma_ws_end_bounds(s, i + 1);
    }
}

proof fn lemma_skip_ws_bounds(s: Seq<u8>, i: int)
    requires
        0 <= i <= s.len(),
    ensures
        i <= skip_ws(s, i) <= s.len(),
        skip_ws(s, i) < s.len() ==> !is_ws(s[skip_ws(s, i)]),
        forall|k: int| i <= k < skip_ws(s, i) ==> is_ws(s[k]),
    decreases s.len() - i,
{
    if i < s.len() && is_ws(s[i]) {
        lemma_skip_ws_bounds(s, i + 1);
    }
}

proof fn lemma_ws_rend_bounds(s: Seq<u8>, j: int)
    requires
        0 <= j <= s.len(),
    ensures
        0 <= ws_rend(s, j) <= j,
        ws_rend(s, j) > 0 ==> !is_ws(s[ws_rend(s, j) - 1]),
        forall|k: int| ws_rend(s, j) <= k < j ==> is_ws(s[k]),
    decreases j,
{
    if j > 0 && is_ws(s[j - 1]) {
        lemma_ws_rend_bounds(s, j - 1);
    }
}

/// The text from `i` on with every whitespace byte replaced by a plain
/// space: what splitting into tokens and joining them with single spaces
/// amounts to.
pub open spec fn spaced(s: Seq<u8>, i: int) -> Seq<u8> {
    Seq::new((s.len() - i) as nat, |k: int| if is_ws(s[i + k]) { 32u8 } else { s[i + k] })
}

/// The text with leading and trailing whitespace removed.
pub open spec fn trim_bytes(s: Seq<u8>) -> Seq<u8> {
    if skip_ws(s, 0) == s.len() {
        Seq::empty()
    } else {
        s.subrange(skip_ws(s, 0), ws_rend(s, s.len() as int))
    }
}

/// The fetch command selected by a verb and a name.
pub open spec fn pick(p: PComm, name: Seq<u8>) -> MCommSpec {
    match p {
        PComm::Search => MCommSpec::Search(name),
        PComm::Image => MCommSpec::Image(name),
        PComm::Irc => MCommSpec::Irc(name),
    }
}

/// Which fetch family the leading token selects, if any.
pub open spec fn verb_of(t: Seq<u8>) -> Option<PComm> {
    if t == (".moose").spec_bytes() || t == ("!moose").spec_bytes() || t == (
    "moose").spec_bytes() || t == (".mooseme").spec_bytes() || t == ("!mooseme").spec_bytes() || t
        == ("mooseme").spec_bytes() {
        Some(PComm::Irc)
    } else if t == (".mooseimg").spec_bytes() || t == ("!mooseimg").spec_bytes() || t == (
    "mooseimg").spec_bytes() {
        Some(PComm::Image)
    } else if t == (".moosesearch").spec_bytes() || t == ("!moosesearch").spec_bytes() || t == (
    "moosesearch").spec_bytes() {
        Some(PComm::Search)
    } else {
        None
    }
}

/// The full command grammar over the message text: leading verb, then an
/// optional flag or name argument, then the rest of the text as the name,
/// trimmed.  A missing argument means a random pick.
pub open spec fn moose_spec(b: Seq<u8>) -> Option<MCommSpec> {
    let n = b.len() as int;
    let e0 = ws_end(b, 0);
    let t0 = b.subrange(0, e0);
    if t0 == (".bots").spec_bytes() || t0 == ("!bots").spec_bytes() {
        Some(MCommSpec::Bots)
    } else if t0 == (".help").spec_bytes() || t0 == ("!help").spec_bytes() {
        Some(MCommSpec::Help)
    } else {
        match verb_of(t0) {
            None => None,
            Some(p) => {
                if e0 >= n {
                    Some(pick(p, ("random").spec_bytes()))
                } else {
                    let s1 = e0 + 1;
                    let e1 = ws_end(b, s1);
                    let arg = b.subrange(s1, e1);
                    let rest = if e1 >= n {
                        Seq::<u8>::empty()
                    } else {
                        spaced(b, e1 + 1)
                    };
                    if arg == ("").spec_bytes() || arg == ("--").spec_bytes() {
                        Some(pick(p, trim_bytes(rest)))
                    } else if arg == ("-h").spec_bytes() || arg == ("--help").spec_bytes() {
                        Some(MCommSpec::Help)
                    } else if arg == ("-s").spec_bytes() || arg == ("--search").spec_bytes() {
                        Some(MCommSpec::Search(trim_bytes(rest)))
                    } else if arg == ("-i").spec_bytes() || arg == ("--image").spec_bytes() {
                        Some(MCommSpec::Image(trim_bytes(rest)))
                    } else if arg == ("-r").spec_bytes() || arg == ("--random").spec_bytes() {
                        Some(pick(p, ("random").spec_bytes()))
                    } else if arg == ("-l").spec_bytes() || arg == ("--latest").spec_bytes() {
                        Some(pick(p, ("latest").spec_bytes()))
                    } else if arg == ("-o").spec_bytes() || arg == ("--oldest").spec_bytes() {
                        Some(pick(p, ("oldest").spec_bytes()))
                    } else {
                        Some(pick(p, trim_bytes(spaced(b, s1))))
                    }
                }
            },
        }
    }
}

/// Exec scan for `ws_end`.
fn ws_end_at(s: &[u8], from: usize) -> (r: usize)
    requires
        from <= s@.len(),
    ensures
        r == ws_end(s@, from as int),
        from <= r <= s@.len(),
{
    let mut i = from;
    while i < s.len() && !(s[i] == 32 || s[i] == 9 || s[i] == 10 || s[i] == 13 || s[i] == 12)
        invariant
            from <= i <= s@.len(),
            ws_end(s@, from as int) == ws_end(s@, i as int),
        decreases s@.len() - i,
    {
        i = i + 1;
    }
    proof {
        lemma_ws_end_bounds(s@, from as int);
    }
    i
}

/// The rest of the text from `from` on, whitespace normalized to spaces
/// and the ends trimmed.
#[verifier::loop_isolation(false)]
fn spaced_trimmed(s: &[u8], from: usize) -> (v: Vec<u8>)
    requires
        from <= s@.len(),
    ensures
        v@ == trim_bytes(spaced(s@, from as int)),
{
    let ghost sp = spaced(s@, from as int);
    let n = s.len();
    // find the trimmed window directly in the original bytes: the
    // whitespace normalization neither adds nor removes whitespace
    proof {
        assert(forall|k: int| 0 <= k < sp.len() ==> (is_ws(#[trigger] sp[k]) == is_ws(
            s@[from + k],
        ) && (!is_ws(sp[k]) ==> sp[k] == s@[from + k])));
    }
    let mut a = from;
    while a < n && (s[a] == 32 || s[a] == 9 || s[a] == 10 || s[a] == 13 || s[a] == 12)
        invariant
            from <= a <= n,
            skip_ws(s@, from as int) == skip_ws(s@, a as int),
        decreases n - a,
    {
        a = a + 1;
    }
    proof {
        lemma_skip_ws_bounds(s@, from as int);
        assert(a == skip_ws(s@, from as int));
    }
    if a == n {
        proof {
            assert forall|k: int| 0 <= k < sp.len() implies is_ws(sp[k]) by {
                assert(is_ws(s@[from + k]));
            }
            lemma_skip_ws_bounds(sp, 0);
            if skip_ws(sp, 0) < sp.len() {
                assert(!is_ws(sp[skip_ws(sp, 0)]));
            }
            assert(trim_bytes(sp) =~= Seq::<u8>::empty());
        }
        return Vec::new();
    }
    proof {
        assert(!is_ws(s@[a as int]));
    }
    let mut z = n;
    while z > a && (s[z - 1] == 32 || s[z - 1] == 9 || s[z - 1] == 10 || s[z - 1] == 13 || s[z - 1]
        == 12)
        invariant
            a + 1 <= z <= n,
            ws_rend(s@, n as int) == ws_rend(s@, z as int),
        decreases z,
    {
        z = z - 1;
    }
    proof {
        assert(!is_ws(s@[z - 1]));
        assert(ws_rend(s@, z as int) == z);
    }
    // copy the window, replacing inner whitespace bytes by spaces
    let mut v: Vec<u8> = Vec::new();
    let mut i = a;
    while i < z
        invariant
            a <= i <= z,
            v@.len() == i - a,
            forall|k: int| 0 <= k < v@.len() ==> v@[k] == (if is_ws(s@[a + k]) {
                32u8
            } else {
                s@[a + k]
            }),
        decreases z - i,
    {
        let c = s[i];
        if c == 32 || c == 9 || c == 10 || c == 13 || c == 12 {
            v.push(32);
        } else {
            v.push(c);
        }
        i = i + 1;
    }
    proof {
        // the window in the original bytes matches the trim of the
        // normalized text
        lemma_skip_ws_bounds(sp, 0);
        assert(skip_ws(sp, 0) == a - from) by {
            assert forall|k: int| 0 <= k < a - from implies is_ws(sp[k]) by {
                assert(is_ws(s@[from + k]));
            }
            assert(!is_ws(sp[a - from]));
            if skip_ws(sp, 0) < a - from {
                assert(!is_ws(sp[skip_ws(sp, 0)]));
            }
            if skip_ws(sp, 0) > a - from {
                assert(is_ws(sp[a - from]));
            }
        }
        lemma_ws_rend_bounds(sp, sp.len() as int);
        lemma_ws_rend_bounds(s@, n as int);
        assert(ws_rend(sp, sp.len() as int) == z - from) by {
            assert forall|k: int| z - from <= k < sp.len() implies is_ws(sp[k]) by {
                assert(is_ws(s@[from + k]));
            }
            assert(!is_ws(sp[z - from - 1]));
            if ws_rend(sp, sp.len() as int) < z - from {
                assert(is_ws(sp[z - from - 1]));
            }
            if ws_rend(sp, sp.len() as int) > z - from {
                assert(!is_ws(sp[ws_rend(sp, sp.len() as int) - 1]));
            }
        }
        assert(v@ =~= trim_bytes(sp));
    }
    v
}

/// Parse the text of a private message as a chat command.
pub fn parse_moose_args(msg: &str) -> (r: Option<MComm>)
    ensures
        match r {
            Some(c) => moose_spec(msg.spec_bytes()) == Some(c@),
            None => moose_spec(msg.spec_bytes()) is None,
        },
{
    let b = msg.as_bytes();
    let n = b.len();
    let e0 = ws_end_at(b, 0);
    let t0 = slice_subrange(b, 0, e0);
    if eq_bytes(t0, ".bots".as_bytes()) || eq_bytes(t0, "!bots".as_bytes()) {
        return Some(MComm::Bots);
    }
    if eq_bytes(t0, ".help".as_bytes()) || eq_bytes(t0, "!help".as_bytes()) {
        return Some(MComm::Help);
    }
    let p = if eq_bytes(t0, ".moose".as_bytes()) || eq_bytes(t0, "!moose".as_bytes()) || eq_bytes(
        t0,
        "moose".as_bytes(),
    ) || eq_bytes(t0, ".mooseme".as_bytes()) || eq_bytes(t0, "!mooseme".as_bytes()) || eq_bytes(
        t0,
        "mooseme".as_bytes(),
    ) {
        PComm::Irc
    } else if eq_bytes(t0, ".mooseimg".as_bytes()) || eq_bytes(t0, "!mooseimg".as_bytes())
        || eq_bytes(t0, "mooseimg".as_bytes()) {
        PComm::Image
    } else if eq_bytes(t0, ".moosesearch".as_bytes()) || eq_bytes(t0, "!moosesearch".as_bytes())
        || eq_bytes(t0, "moosesearch".as_bytes()) {
        PComm::Search
    } else {
        proof {
            assert(verb_of(b@.subrange(0, e0 as int)) is None);
        }
        return None;
    };
    proof {
        assert(verb_of(b@.subrange(0, e0 as int)) == Some(p));
    }
    if e0 == n {
        return Some(picked(p, "random".as_bytes_vec()));
    }
    let s1 = e0 + 1;
    let e1 = ws_end_at(b, s1);
    let arg = slice_subrange(b, s1, e1);
    if eq_bytes(arg, "".as_bytes()) || eq_bytes(arg, "--".as_bytes()) {
        let rest = if e1 == n {
            Vec::new()
        } else {
            spaced_trimmed(b, e1 + 1)
        };
        proof {
            if e1 == n as int {
            } else {
                assert(rest@ == trim_bytes(spaced(b@, e1 + 1)));
            }
            assert(trim_bytes(Seq::<u8>::empty()) =~= Seq::<u8>::empty());
        }
        Some(picked(p, rest))
    } else if eq_bytes(arg, "-h".as_bytes()) || eq_bytes(arg, "--help".as_bytes()) {
        Some(MComm::Help)
    } else if eq_bytes(arg, "-s".as_bytes()) || eq_bytes(arg, "--search".as_bytes()) {
        let rest = if e1 == n {
            Vec::new()
        } else {
            spaced_trimmed(b, e1 + 1)
        };
        proof {
            assert(trim_bytes(Seq::<u8>::empty()) =~= Seq::<u8>::empty());
        }
        Some(MComm::Search(rest))
    } else if eq_bytes(arg, "-i".as_bytes()) || eq_bytes(arg, "--image".as_bytes()) {
        let rest = if e1 == n {
            Vec::new()
        } else {
            spaced_trimmed(b, e1 + 1)
        };
        proof {
            assert(trim_bytes(Seq::<u8>::empty()) =~= Seq::<u8>::empty());
        }
        Some(MComm::Image(rest))
    } else if eq_bytes(arg, "-r".as_bytes()) || eq_bytes(arg, "--random".as_bytes()) {
        Some(picked(p, "random".as_bytes_vec()))
    } else if eq_bytes(arg, "-l".as_bytes()) || eq_bytes(arg, "--latest".as_bytes()) {
        Some(picked(p, "latest".as_bytes_vec()))
    } else if eq_bytes(arg, "-o".as_bytes()) || eq_bytes(arg, "--oldest".as_bytes()) {
        Some(picked(p, "oldest".as_bytes_vec()))
    } else {
        Some(picked(p, spaced_trimmed(b, s1)))
    }
}

/// Build the fetch command a verb selects.
fn picked(p: PComm, name: Vec<u8>) -> (r: MComm)
    ensures
        r@ == pick(p, name@),
{
    match p {
        PComm::Search => MComm::Search(name),
        PComm::Image => MComm::Image(name),
        PComm::Irc => MComm::Irc(name),
    }
}

/// The window of `s` between `from` and `to` with surrounding whitespace
/// removed, copied out.
#[verifier::loop_isolation(false)]
pub fn trimmed_window(s: &[u8], from: usize, to: usize) -> (v: Vec<u8>)
    requires
        from <= to <= s@.len(),
    ensures
        v@ == trim_bytes(s@.subrange(from as int, to as int)),
{
    let ghost sub = s@.subrange(from as int, to as int);
    let mut a = from;
    while a < to && (s[a] == 32 || s[a] == 9 || s[a] == 10 || s[a] == 13 || s[a] == 12)
        invariant
            from <= a <= to <= s@.len(),
            sub == s@.subrange(from as int, to as int),
            skip_ws(sub, 0) == skip_ws(sub, a - from),
        decreases to - a,
    {
        proof {
            assert(sub[a - from] == s@[a as int]);
        }
        a = a + 1;
    }
    if a == to {
        proof {
            assert(skip_ws(sub, a - from) == sub.len());
            assert(trim_bytes(sub) =~= Seq::<u8>::empty());
        }
        return Vec::new();
    }
    proof {
        assert(sub[a - from] == s@[a as int]);
        assert(skip_ws(sub, a - from) == a - from);
        assert(!is_ws(sub[a - from]));
    }
    let mut z = to;
    while z > a + 1 && (s[z - 1] == 32 || s[z - 1] == 9 || s[z - 1] == 10 || s[z - 1] == 13 || s[z
        - 1] == 12)
        invariant
            a + 1 <= z <= to,
            sub == s@.subrange(from as int, to as int),
            ws_rend(sub, sub.len() as int) == ws_rend(sub, z - from),
        decreases z,
    {
        proof {
            assert(sub[z - 1 - from] == s@[z - 1]);
        }
        z = z - 1;
    }
    proof {
        if z == a + 1 {
            assert(ws_rend(sub, z - from) == z - from);
        } else {
            assert(sub[z - 1 - from] == s@[z - 1]);
            assert(!is_ws(sub[z - 1 - from]));
            assert(ws_rend(sub, z - from) == z - from);
        }
    }
    let v = vstd::slice::slice_to_vec(vstd::slice::slice_subrange(s, a, z));
    proof {
        assert(v@ =~= trim_bytes(sub));
    }
    v
}

} // verus!
