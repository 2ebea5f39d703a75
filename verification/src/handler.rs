//! The dispatcher's decision logic.  Every inbound message is turned
//! into a step: a list of immediate actions, a question for the
//! invite-persistence channel, or a fetch request whose outcome comes
//! back through one of the follow-up handlers.  The surrounding task
//! machinery performs the actions; all decisions are made here.

use vstd::prelude::*;
use vstd::string::{StrSliceExecFns, StringExecFns, StringSliceAdditionalSpecFns};
use vstd::utf8::valid_utf8;

use crate::helpers::{bytes_of, bytes_of_all, join_channels, names_of_lines, JOIN_BUDGET};
use crate::ircstate::IrcState;
use crate::moosecmd::{moose_spec, parse_moose_args, MComm, MCommSpec, HELP_RESP};
use crate::parse::{copy_bytes, eq_bytes, find_byte, lemma_find_byte_bounds, outbound, Message, MessageModel};
use crate::sender::{Envelope, Priority};

verus! {

/// The CTCP version query a client answers.
pub const VERSION_QUERY: &'static str = "\u{1}VERSION\u{1}";

/// The answer: the advertised application name and version.
pub const VERSION_REPLY: &'static str = "\u{1}VERSION moose-irc2/0.1.0\u{1}";

/// An immediate consequence of one inbound message.
pub enum HandlerAction {
    /// Queue this message at this priority.
    Send(Envelope),
    /// Report to the persistence channel that this channel was lost.
    InviteKicked(Vec<u8>),
}

/// A fetch the handler needs before it can go on.
pub enum FetchKind {
    /// Resolve a free-form name; `image` picks the image reply over the
    /// text-art one.
    Resolve { query: Vec<u8>, image: bool },
    /// Run a search query.
    Search { query: Vec<u8> },
    /// Fetch the text-art lines of a resolved name.
    Lines { moose: String },
}

/// What the dispatcher decided about one message.
pub enum HandlerStep {
    /// Perform these actions; nothing else to do.
    Done(Vec<HandlerAction>),
    /// Offer a joined-by-invite event to the persistence channel; its
    /// answer decides between joining and refusing.
    AskInvite { channel: Vec<u8>, inviter: Vec<u8> },
    /// Perform this fetch and hand its outcome to the follow-up handler.
    Fetch { kind: FetchKind, channel: Vec<u8>, sender: Vec<u8> },
}

/// Whether an action queues exactly this message at this priority.
pub open spec fn sent(a: HandlerAction, p: Priority, m: MessageModel) -> bool {
    a matches HandlerAction::Send(e) && e.priority == p && e.message@ == m
}

/// A command with no parameters.
pub open spec fn msg0(cmd: Seq<u8>) -> MessageModel {
    outbound(cmd, Seq::empty())
}

/// A command with one parameter.
pub open spec fn msg1(cmd: Seq<u8>, p0: Seq<u8>) -> MessageModel {
    outbound(cmd, seq![p0])
}

/// A command with two parameters.
pub open spec fn msg2(cmd: Seq<u8>, p0: Seq<u8>, p1: Seq<u8>) -> MessageModel {
    outbound(cmd, seq![p0, p1])
}

/// A step that only queues this one message.
pub open spec fn step_send1(step: HandlerStep, p: Priority, m: MessageModel) -> bool {
    step matches HandlerStep::Done(acts) && acts@.len() == 1 && sent(acts@[0], p, m)
}

/// A step that does nothing at all.
pub open spec fn step_none(step: HandlerStep) -> bool {
    step matches HandlerStep::Done(acts) && acts@.len() == 0
}

/// Who a message came from: the prefix name, or nobody.
pub open spec fn sender_of(m: MessageModel) -> Seq<u8> {
    match m.nick {
        Some(n) => n,
        None => Seq::empty(),
    }
}

fn exec_sender_of(msg: &Message) -> (r: Vec<u8>)
    ensures
        r@ == sender_of(msg@),
{
    match &msg.nick {
        Some(n) => copy_bytes(n),
        None => Vec::new(),
    }
}

fn mk0(cmd: &str) -> (m: Message)
    ensures
        m@ == msg0(cmd.spec_bytes()),
{
    let m = Message::of_command(cmd, Vec::new());
    proof {
        assert(m@.params =~= Seq::<Seq<u8>>::empty());
    }
    m
}

fn mk1(cmd: &str, p0: Vec<u8>) -> (m: Message)
    ensures
        m@ == msg1(cmd.spec_bytes(), p0@),
{
    let ghost v0 = p0@;
    let mut params: Vec<Vec<u8>> = Vec::new();
    params.push(p0);
    let m = Message::of_command(cmd, params);
    proof {
        assert(m@.params =~= seq![v0]);
    }
    m
}

fn mk2(cmd: &str, p0: Vec<u8>, p1: Vec<u8>) -> (m: Message)
    ensures
        m@ == msg2(cmd.spec_bytes(), p0@, p1@),
{
    let ghost v0 = p0@;
    let ghost v1 = p1@;
    let mut params: Vec<Vec<u8>> = Vec::new();
    params.push(p0);
    params.push(p1);
    let m = Message::of_command(cmd, params);
    proof {
        assert(m@.params =~= seq![v0, v1]);
    }
    m
}

fn send_only(p: Priority, m: Message) -> (acts: Vec<HandlerAction>)
    ensures
        acts@.len() == 1,
        sent(acts@[0], p, m@),
{
    let mut acts: Vec<HandlerAction> = Vec::new();
    acts.push(HandlerAction::Send(Envelope { message: m, priority: p }));
    acts
}

fn done_send1(p: Priority, m: Message) -> (step: HandlerStep)
    ensures
        step_send1(step, p, m@),
{
    HandlerStep::Done(send_only(p, m))
}

fn done_none() -> (step: HandlerStep)
    ensures
        step_none(step),
{
    HandlerStep::Done(Vec::new())
}

/// Relies on `String::from_utf8`: succeeds exactly on valid UTF-8 and
/// keeps the bytes as the string's contents.
#[verifier::external_body]
fn bytes_to_string(v: Vec<u8>) -> (r: Option<String>)
    ensures
        (r matches Some(s) ==> vstd::utf8::encode_utf8(s@) == v@ && valid_utf8(v@)),
        (r is None ==> !valid_utf8(v@)),
{
    match String::from_utf8(v) {
        Ok(s) => Some(s),
        Err(_) => None,
    }
}

/// The outcome of offering a joined-by-invite event: accepted means the
/// channel gets joined right away, with control priority so throttled
/// traffic cannot starve it; rejected means invites are disabled and the
/// inviter is told so by a notice that may be dropped but never blocks.
pub fn handle_invite_outcome(accepted: bool, channel: Vec<u8>, inviter: Vec<u8>) -> (acts: Vec<
    HandlerAction,
>)
    ensures
        acts@.len() == 1,
        accepted ==> sent(acts@[0], Priority::High, msg1(("JOIN").spec_bytes(), channel@)),
        !accepted ==> sent(
            acts@[0],
            Priority::Notify,
            msg2(("NOTICE").spec_bytes(), inviter@, ("Invites are disabled.").spec_bytes()),
        ),
{
    if accepted {
        send_only(Priority::High, mk1("JOIN", channel))
    } else {
        send_only(
            Priority::Notify,
            mk2("NOTICE", inviter, "Invites are disabled.".as_bytes_vec()),
        )
    }
}

/// The outcome of resolving a name.  Failure text goes back to the
/// channel; a resolved image request is answered with the image URL; a
/// resolved text-art request goes on to fetch the lines if the
/// content-fetch token was granted, and is refused with a notice
/// otherwise.
pub fn handle_resolve_outcome(
    image: bool,
    outcome: Result<String, String>,
    token_ok: bool,
    moose_url: &str,
    channel: Vec<u8>,
    sender: Vec<u8>,
) -> (step: HandlerStep)
    ensures
        ({
            match outcome {
                Err(e) => step_send1(
                    step,
                    Priority::Low,
                    msg2(("PRIVMSG").spec_bytes(), channel@, bytes_of(e@)),
                ),
                Ok(moose) => {
                    if image {
                        step_send1(
                            step,
                            Priority::Low,
                            msg2(
                                ("PRIVMSG").spec_bytes(),
                                channel@,
                                bytes_of(moose_url@ + ("/img/")@ + moose@),
                            ),
                        )
                    } else if token_ok {
                        step matches HandlerStep::Fetch { kind, channel: c, sender: s }
                            && kind matches FetchKind::Lines { moose: mo } && mo@ == moose@ && c@
                            == channel@ && s@ == sender@
                    } else {
                        step_send1(
                            step,
                            Priority::Notify,
                            msg2(
                                ("NOTICE").spec_bytes(),
                                sender@,
                                ("Please wait awhile before asking for another moose.").spec_bytes(),
                            ),
                        )
                    }
                },
            }
        }),
{
    match outcome {
        Err(e) => done_send1(Priority::Low, mk2("PRIVMSG", channel, e.as_str().as_bytes_vec())),
        Ok(moose) => {
            if image {
                let url = crate::webreq::img_url(moose_url, moose.as_str());
                done_send1(Priority::Low, mk2("PRIVMSG", channel, url.as_str().as_bytes_vec()))
            } else if token_ok {
                HandlerStep::Fetch { kind: FetchKind::Lines { moose }, channel, sender }
            } else {
                done_send1(
                    Priority::Notify,
                    mk2(
                        "NOTICE",
                        sender,
                        "Please wait awhile before asking for another moose.".as_bytes_vec(),
                    ),
                )
            }
        },
    }
}

/// A display text sent back to the channel as one ordinary throttled
/// reply; the shape of every search answer and of upstream error texts.
pub fn reply_text(channel: Vec<u8>, text: &str) -> (acts: Vec<HandlerAction>)
    ensures
        acts@.len() == 1,
        sent(
            acts@[0],
            Priority::Low,
            msg2(("PRIVMSG").spec_bytes(), channel@, bytes_of(text@)),
        ),
{
    send_only(Priority::Low, mk2("PRIVMSG", channel, text.as_bytes_vec()))
}

/// The last byte dropped when it is a carriage return.
pub open spec fn strip_cr(x: Seq<u8>) -> Seq<u8> {
    if x.len() > 0 && x.last() == 13u8 {
        x.drop_last()
    } else {
        x
    }
}

/// The text from `i` on cut at line feeds, each line with a trailing
/// carriage return removed; a trailing newline yields no empty last line.
pub open spec fn split_lines_from(b: Seq<u8>, i: int) -> Seq<Seq<u8>>
    recommends
        0 <= i,
    decreases b.len() - i when 0 <= i <= b.len() via split_lines_from_decreases
{
    if i >= b.len() {
        Seq::empty()
    } else {
        let c = find_byte(b, 10, i);
        if c >= b.len() {
            seq![strip_cr(b.subrange(i, c))]
        } else {
            seq![strip_cr(b.subrange(i, c))] + split_lines_from(b, c + 1)
        }
    }
}

#[via_fn]
proof fn split_lines_from_decreases(b: Seq<u8>, i: int) {
    if 0 <= i < b.len() {
        lemma_find_byte_bounds(b, 10, i);
    }
}

/// The lines of a text.
pub open spec fn split_lines(b: Seq<u8>) -> Seq<Seq<u8>> {
    split_lines_from(b, 0)
}

/// One line of `b` copied out, with a trailing carriage return removed.
fn copy_line(b: &[u8], from: usize, to: usize) -> (r: Vec<u8>)
    requires
        from <= to <= b@.len(),
    ensures
        r@ == strip_cr(b@.subrange(from as int, to as int)),
{
    let mut end = to;
    if end > from && b[end - 1] == 13 {
        end = end - 1;
    }
    let r = vstd::slice::slice_to_vec(vstd::slice::slice_subrange(b, from, end));
    proof {
        if to > from && b@[to - 1] == 13 {
            assert(r@ =~= strip_cr(b@.subrange(from as int, to as int)));
        } else {
            assert(r@ =~= strip_cr(b@.subrange(from as int, to as int)));
        }
    }
    r
}

/// The outcome of fetching text-art lines: each line becomes one
/// ordinary throttled reply to the channel; failure text goes back to
/// the channel the same way.
pub fn handle_lines_outcome(outcome: Result<String, String>, channel: Vec<u8>) -> (acts: Vec<
    HandlerAction,
>)
    ensures
        ({
            match outcome {
                Err(e) => acts@.len() == 1 && sent(
                    acts@[0],
                    Priority::Low,
                    msg2(("PRIVMSG").spec_bytes(), channel@, bytes_of(e@)),
                ),
                Ok(text) => {
                    let lines = split_lines(bytes_of(text@));
                    &&& acts@.len() == lines.len()
                    &&& forall|i: int| 0 <= i < lines.len() ==> sent(
                        #[trigger] acts@[i],
                        Priority::Low,
                        msg2(("PRIVMSG").spec_bytes(), channel@, lines[i]),
                    )
                },
            }
        }),
{
    match outcome {
        Err(e) => send_only(Priority::Low, mk2("PRIVMSG", channel, e.as_str().as_bytes_vec())),
        Ok(text) => {
            let b = text.as_str().as_bytes();
            let ghost bb = b@;
            let ghost lines = split_lines(bb);
            let n = b.len();
            let mut acts: Vec<HandlerAction> = Vec::new();
            let mut pos: usize = 0;
            let ghost done: Seq<Seq<u8>> = Seq::empty();
            proof {
                assert(Seq::<Seq<u8>>::empty() + split_lines_from(bb, 0) =~= split_lines_from(
                    bb,
                    0,
                ));
            }
            while pos < n
                invariant
                    pos <= n,
                    n == bb.len(),
                    bb == bytes_of(text@),
                    b@ == bb,
                    lines == split_lines(bb),
                    acts@.len() + split_lines_from(bb, pos as int).len() == lines.len(),
                    forall|i: int| 0 <= i < acts@.len() ==> sent(
                        #[trigger] acts@[i],
                        Priority::Low,
                        msg2(("PRIVMSG").spec_bytes(), channel@, lines[i]),
                    ),
                    forall|j: int| 0 <= j < split_lines_from(bb, pos as int).len() ==> lines[
                        acts@.len() + j
                    ] == split_lines_from(bb, pos as int)[j],
                decreases n - pos,
            {
                let c = crate::parse::find_byte_from(b, 10, pos);
                let line = copy_line(b, pos, c);
                let m = mk2("PRIVMSG", copy_bytes(&channel), line);
                let ghost before = acts@;
                let ghost rem = split_lines_from(bb, pos as int);
                acts.push(HandlerAction::Send(Envelope { message: m, priority: Priority::Low }));
                proof {
                    assert(rem[0] == strip_cr(bb.subrange(pos as int, find_byte(bb, 10, pos as int))));
                    assert(lines[before.len() as int] == rem[0]);
                }
                if c == n {
                    pos = n;
                    proof {
                        assert(split_lines_from(bb, pos as int) =~= Seq::<Seq<u8>>::empty());
                        assert(rem =~= seq![rem[0]]);
                    }
                } else {
                    pos = c + 1;
                    proof {
                        assert(rem =~= seq![rem[0]] + split_lines_from(bb, pos as int));
                        assert(forall|j: int|
                            0 <= j < split_lines_from(bb, pos as int).len() ==> rem[j + 1]
                                == split_lines_from(bb, pos as int)[j]);
                    }
                }
            }
            proof {
                assert(split_lines_from(bb, pos as int) =~= Seq::<Seq<u8>>::empty());
            }
            acts
        },
    }
}

/// An action that queues one High-priority JOIN line within the batch
/// budget.
pub open spec fn is_join_send(a: HandlerAction) -> bool {
    a matches HandlerAction::Send(e) && e.priority == Priority::High && e.message@ == msg1(
        ("JOIN").spec_bytes(),
        action_payload(a),
    ) && action_payload(a).len() <= JOIN_BUDGET
}

/// The single parameter carried by a queued message.
pub open spec fn action_payload(a: HandlerAction) -> Seq<u8> {
    match a {
        HandlerAction::Send(e) => if e.message@.params.len() >= 1 {
            e.message@.params[0]
        } else {
            Seq::empty()
        },
        HandlerAction::InviteKicked(c) => c@,
    }
}

/// The actions of the registration-complete arm: the authentication
/// line first when a secret is configured, then JOIN lines that carry
/// every configured channel exactly once.
pub open spec fn welcome_actions(pre: IrcState, acts: Seq<HandlerAction>) -> bool {
    let k: int = if pre.nickserv_pass is Some {
        1
    } else {
        0
    };
    &&& acts.len() >= k
    &&& (pre.nickserv_pass matches Some(p) ==> sent(
        acts[0],
        Priority::High,
        msg0(("NICKSERV IDENTIFY ").spec_bytes() + bytes_of(p@)),
    ))
    &&& forall|j: int| k <= j < acts.len() ==> is_join_send(#[trigger] acts[j])
    &&& names_of_lines(Seq::new((acts.len() - k) as nat, |i: int| action_payload(acts[k + i])))
        == bytes_of_all(pre.channels@)
}

/// The handling of an ordinary private message: run the text through the
/// chat-command grammar and answer as the recognized command asks, or do
/// nothing when it is no command (or not text at all).
pub open spec fn privmsg_step(
    pre: IrcState,
    target: Seq<u8>,
    text: Seq<u8>,
    sender: Seq<u8>,
    disable_search: bool,
    step: HandlerStep,
) -> bool {
    if !valid_utf8(text) {
        step_none(step)
    } else {
        match moose_spec(text) {
            None => step_none(step),
            Some(MCommSpec::Help) => step_send1(
                step,
                Priority::Low,
                msg2(("PRIVMSG").spec_bytes(), target, (HELP_RESP).spec_bytes()),
            ),
            Some(MCommSpec::Bots) => step_send1(
                step,
                Priority::Low,
                msg2(
                    ("PRIVMSG").spec_bytes(),
                    target,
                    bytes_of(
                        ("Moose :: Make moose @ ")@ + pre.moose_url@ + (
                        " :: See .moose --help for usage")@,
                    ),
                ),
            ),
            Some(MCommSpec::Search(q)) => if disable_search {
                step_send1(
                    step,
                    Priority::Low,
                    msg2(
                        ("PRIVMSG").spec_bytes(),
                        target,
                        bytes_of(
                            ("Search has been disabled on this server. See: ")@ + pre.moose_url@
                                + ("/gallery/0?q=")@ + crate::webreq::percent_enc(q),
                        ),
                    ),
                )
            } else {
                step matches HandlerStep::Fetch { kind, channel, sender: s } && kind
                    matches FetchKind::Search { query } && query@ == q && channel@ == target && s@
                    == sender
            },
            Some(MCommSpec::Image(q)) => step matches HandlerStep::Fetch { kind, channel, sender: s }
                && kind matches FetchKind::Resolve { query, image } && query@ == q && image
                && channel@ == target && s@ == sender,
            Some(MCommSpec::Irc(q)) => step matches HandlerStep::Fetch { kind, channel, sender: s }
                && kind matches FetchKind::Resolve { query, image } && query@ == q && !image
                && channel@ == target && s@ == sender,
        }
    }
}

/// What the dispatcher does with one message, by its command:
/// PING is answered, ERROR quits, self-targeted JOIN/PART/KICK are
/// logged or reported lost, a self-targeted INVITE asks the persistence
/// channel, a CTCP version query is answered, any other private message
/// runs the chat-command grammar, the welcome numeric sends the
/// authentication secret and the channel JOIN batch, the bad-nickname
/// numeric quits, and the collision numerics rename up to the limit and
/// then quit.  Everything else does nothing.  Only the collision arm
/// touches the session state.
pub open spec fn handled(
    pre: IrcState,
    post: IrcState,
    m: MessageModel,
    disable_search: bool,
    step: HandlerStep,
) -> bool {
    let cur = bytes_of(pre.current_nick@);
    let sender = sender_of(m);
    if m.command == Some(("PING").spec_bytes()) && m.params.len() >= 1 {
        post == pre && step_send1(step, Priority::High, msg1(("PONG").spec_bytes(), m.params[0]))
    } else if m.command == Some(("ERROR").spec_bytes()) {
        post == pre && step_send1(step, Priority::High, msg0(("QUIT").spec_bytes()))
    } else if m.command == Some(("JOIN").spec_bytes()) && m.params.len() >= 1 && sender == cur {
        post == pre && step_none(step)
    } else if m.command == Some(("PART").spec_bytes()) && m.params.len() >= 1 && sender == cur {
        post == pre && (step matches HandlerStep::Done(acts) && acts@.len() == 1 && (acts@[0]
            matches HandlerAction::InviteKicked(c) && c@ == m.params[0]))
    } else if m.command == Some(("INVITE").spec_bytes()) && m.params.len() >= 2 && m.params[0]
        == cur {
        post == pre && (step matches HandlerStep::AskInvite { channel, inviter } && channel@
            == m.params[1] && inviter@ == sender)
    } else if m.command == Some(("KICK").spec_bytes()) && m.params.len() >= 2 && m.params[1]
        == cur {
        post == pre && (step matches HandlerStep::Done(acts) && acts@.len() == 1 && (acts@[0]
            matches HandlerAction::InviteKicked(c) && c@ == m.params[0]))
    } else if m.command == Some(("PRIVMSG").spec_bytes()) && m.params.len() >= 2 && m.params[0]
        == cur && m.params[1] == (VERSION_QUERY).spec_bytes() {
        post == pre && step_send1(
            step,
            Priority::High,
            msg2(("NOTICE").spec_bytes(), sender, (VERSION_REPLY).spec_bytes()),
        )
    } else if m.command == Some(("PRIVMSG").spec_bytes()) && m.params.len() >= 2 {
        post == pre && privmsg_step(pre, m.params[0], m.params[1], sender, disable_search, step)
    } else if m.command == Some(("001").spec_bytes()) {
        post == pre && (step matches HandlerStep::Done(acts) && welcome_actions(pre, acts@))
    } else if m.command == Some(("432").spec_bytes()) {
        post == pre && step_send1(step, Priority::High, msg0(("QUIT").spec_bytes()))
    } else if m.command == Some(("433").spec_bytes()) || m.command == Some(("436").spec_bytes()) {
        if pre.collision_count() < crate::ircstate::MAX_RENAMES as int {
            &&& post.current_nick@ == pre.current_nick@ + seq!['_']
            &&& post.original_nick == pre.original_nick
            &&& post.nickserv_pass == pre.nickserv_pass
            &&& post.channels == pre.channels
            &&& post.moose_url == pre.moose_url
            &&& post.moose_delay == pre.moose_delay
            &&& step_send1(
                step,
                Priority::High,
                msg1(("NICK").spec_bytes(), bytes_of(post.current_nick@)),
            )
        } else {
            post == pre && step_send1(step, Priority::High, msg0(("QUIT").spec_bytes()))
        }
    } else {
        post == pre && step_none(step)
    }
}

fn kicked_only(c: Vec<u8>) -> (acts: Vec<HandlerAction>)
    ensures
        acts@.len() == 1,
        acts@[0] matches HandlerAction::InviteKicked(ch) && ch@ == c@,
{
    let mut acts: Vec<HandlerAction> = Vec::new();
    acts.push(HandlerAction::InviteKicked(c));
    acts
}

/// Decide what to do with one inbound message.  Only a nickname
/// collision changes the session state; every other arm leaves it
/// untouched and describes its actions in the returned step.
pub fn handle_message(state: &mut IrcState, msg: &Message, disable_search: bool) -> (step:
    HandlerStep)
    requires
        old(state).wf(),
    ensures
        final(state).wf(),
        handled(*old(state), *final(state), msg@, disable_search, step),
{
    let sender = exec_sender_of(msg);
    let cur = state.current_nick_bytes();
    let cmd = match &msg.command {
        Some(c) => c,
        None => {
            return done_none();
        },
    };
    if eq_bytes(cmd.as_slice(), "PING".as_bytes()) && msg.params.len() >= 1 {
        done_send1(Priority::High, mk1("PONG", copy_bytes(&msg.params[0])))
    } else if eq_bytes(cmd.as_slice(), "ERROR".as_bytes()) {
        done_send1(Priority::High, mk0("QUIT"))
    } else if eq_bytes(cmd.as_slice(), "JOIN".as_bytes()) && msg.params.len() >= 1 && eq_bytes(
        sender.as_slice(),
        cur.as_slice(),
    ) {
        done_none()
    } else if eq_bytes(cmd.as_slice(), "PART".as_bytes()) && msg.params.len() >= 1 && eq_bytes(
        sender.as_slice(),
        cur.as_slice(),
    ) {
        HandlerStep::Done(kicked_only(copy_bytes(&msg.params[0])))
    } else if eq_bytes(cmd.as_slice(), "INVITE".as_bytes()) && msg.params.len() >= 2 && eq_bytes(
        msg.params[0].as_slice(),
        cur.as_slice(),
    ) {
        HandlerStep::AskInvite { channel: copy_bytes(&msg.params[1]), inviter: sender }
    } else if eq_bytes(cmd.as_slice(), "KICK".as_bytes()) && msg.params.len() >= 2 && eq_bytes(
        msg.params[1].as_slice(),
        cur.as_slice(),
    ) {
        HandlerStep::Done(kicked_only(copy_bytes(&msg.params[0])))
    } else if eq_bytes(cmd.as_slice(), "PRIVMSG".as_bytes()) && msg.params.len() >= 2 && eq_bytes(
        msg.params[0].as_slice(),
        cur.as_slice(),
    ) && eq_bytes(msg.params[1].as_slice(), VERSION_QUERY.as_bytes()) {
        done_send1(
            Priority::High,
            mk2("NOTICE", sender, VERSION_REPLY.as_bytes_vec()),
        )
    } else if eq_bytes(cmd.as_slice(), "PRIVMSG".as_bytes()) && msg.params.len() >= 2 {
        handle_privmsg(state, msg, disable_search, sender)
    } else if eq_bytes(cmd.as_slice(), "001".as_bytes()) {
        handle_welcome(state)
    } else if eq_bytes(cmd.as_slice(), "432".as_bytes()) {
        done_send1(Priority::High, mk0("QUIT"))
    } else if eq_bytes(cmd.as_slice(), "433".as_bytes()) || eq_bytes(
        cmd.as_slice(),
        "436".as_bytes(),
    ) {
        let renamed = state.on_collision();
        if renamed {
            done_send1(Priority::High, mk1("NICK", state.current_nick_bytes()))
        } else {
            done_send1(Priority::High, mk0("QUIT"))
        }
    } else {
        done_none()
    }
}

fn handle_privmsg(state: &IrcState, msg: &Message, disable_search: bool, sender: Vec<u8>) -> (step:
    HandlerStep)
    requires
        state.wf(),
        msg@.params.len() >= 2,
    ensures
        privmsg_step(*state, msg@.params[0], msg@.params[1], sender@, disable_search, step),
{
    let target = copy_bytes(&msg.params[0]);
    let text = copy_bytes(&msg.params[1]);
    let stext = match bytes_to_string(text) {
        Some(s) => s,
        None => {
            return done_none();
        },
    };
    let comm = match parse_moose_args(stext.as_str()) {
        Some(c) => c,
        None => {
            return done_none();
        },
    };
    match comm {
        MComm::Help => done_send1(
            Priority::Low,
            mk2("PRIVMSG", target, HELP_RESP.as_bytes_vec()),
        ),
        MComm::Bots => {
            let mut resp = "Moose :: Make moose @ ".to_owned();
            resp.append(state.moose_url.as_str());
            resp.append(" :: See .moose --help for usage");
            done_send1(Priority::Low, mk2("PRIVMSG", target, resp.as_str().as_bytes_vec()))
        },
        MComm::Search(q) => {
            if disable_search {
                let url = crate::webreq::gallery_url(state.moose_url.as_str(), q.as_slice());
                let mut resp = "Search has been disabled on this server. See: ".to_owned();
                resp.append(url.as_str());
                proof {
                    assert(resp@ =~= ("Search has been disabled on this server. See: ")@
                        + state.moose_url@ + ("/gallery/0?q=")@ + crate::webreq::percent_enc(q@));
                }
                done_send1(Priority::Low, mk2("PRIVMSG", target, resp.as_str().as_bytes_vec()))
            } else {
                HandlerStep::Fetch {
                    kind: FetchKind::Search { query: q },
                    channel: target,
                    sender,
                }
            }
        },
        MComm::Image(q) => HandlerStep::Fetch {
            kind: FetchKind::Resolve { query: q, image: true },
            channel: target,
            sender,
        },
        MComm::Irc(q) => HandlerStep::Fetch {
            kind: FetchKind::Resolve { query: q, image: false },
            channel: target,
            sender,
        },
    }
}

#[verifier::loop_isolation(false)]
fn handle_welcome(state: &IrcState) -> (step: HandlerStep)
    requires
        state.wf(),
    ensures
        step matches HandlerStep::Done(acts) && welcome_actions(*state, acts@),
{
    let mut acts: Vec<HandlerAction> = Vec::new();
    match &state.nickserv_pass {
        Some(p) => {
            let mut raw = "NICKSERV IDENTIFY ".to_owned();
            raw.append(p.as_str());
            let m = Message {
                nick: None,
                user: None,
                host: None,
                command: Some(raw.as_str().as_bytes_vec()),
                params: Vec::new(),
            };
            proof {
                assert(m@.params =~= Seq::<Seq<u8>>::empty());
                assert(bytes_of(raw@) =~= ("NICKSERV IDENTIFY ").spec_bytes() + bytes_of(p@)) by {
                    crate::helpers::lemma_bytes_of_concat(("NICKSERV IDENTIFY ")@, p@);
                }
            }
            acts.push(HandlerAction::Send(Envelope { message: m, priority: Priority::High }));
        },
        None => {},
    }
    let ghost k: int = acts@.len() as int;
    let ghost prefix = acts@;
    let mut joins = join_channels(&state.channels);
    let ghost orig = joins@;
    let ghost jpays = Seq::new(orig.len(), |i: int| orig[i]@.params[0]);
    while joins.len() > 0
        invariant
            0 <= k <= 1,
            state.wf(),
            prefix.len() == k,
            acts@.len() >= k,
            acts@.subrange(0, k) == prefix,
            joins@ == orig.subrange(acts@.len() - k, orig.len() as int),
            acts@.len() - k <= orig.len(),
            forall|i: int| 0 <= i < orig.len() ==> (#[trigger] orig[i]@).command == Some(
                ("JOIN").spec_bytes(),
            ) && orig[i]@.params.len() == 1 && orig[i]@.params[0].len() <= JOIN_BUDGET
                && orig[i]@.nick is None && orig[i]@.user is None && orig[i]@.host is None,
            forall|j: int| k <= j < acts@.len() ==> is_join_send(#[trigger] acts@[j])
                && action_payload(acts@[j]) == jpays[j - k],
        decreases joins@.len(),
    {
        let ghost t = acts@.len() - k;
        let m = joins.remove(0);
        proof {
            assert(m == orig[t]);
            assert(joins@ =~= orig.subrange(t + 1, orig.len() as int));
        }
        let ghost before = acts@;
        acts.push(HandlerAction::Send(Envelope { message: m, priority: Priority::High }));
        proof {
            let a = acts@[before.len() as int];
            assert(orig[t]@.command == Some(("JOIN").spec_bytes()));
            assert(orig[t]@.params.len() == 1);
            assert(m@ == orig[t]@);
            assert(m@.params =~= seq![m@.params[0]]);
            assert(m@ == msg1(("JOIN").spec_bytes(), m@.params[0]));
            assert(is_join_send(a));
            assert(action_payload(a) == jpays[t]);
            assert(acts@.subrange(0, k) =~= prefix);
        }
    }
    proof {
        assert(acts@.len() - k == orig.len());
        assert(Seq::new((acts@.len() - k) as nat, |i: int| action_payload(acts@[k + i]))
            =~= jpays);
        if state.nickserv_pass is Some {
            assert(acts@[0] == prefix[0]);
        }
    }
    HandlerStep::Done(acts)
}

} // verus!
