//! The outbound pipeline's decision core: three queues of different
//! priority feeding one sink, and the token bucket that throttles the
//! lowest tier.  Control traffic (High) and user notices (Notify) bypass
//! the throttle; ordinary replies (Low) are bounded, lossy and
//! rate-limited.

use vstd::prelude::*;

use crate::parse::Message;

verus! {

/// How many Low-priority messages may wait before new ones are dropped.
pub const LOW_CAP: usize = 64;

/// The priority tag of an outbound message.
#[derive(Clone, Copy, PartialEq, Eq, Structural, Debug)]
pub enum Priority {
    High,
    Low,
    Notify,
}

/// A message together with its priority.
pub struct Envelope {
    pub message: Message,
    pub priority: Priority,
}

/// The three outbound queues: unbounded High, bounded lossy Low, and a
/// single Notify slot that drops a new notice while one is pending.
pub struct SendQueues {
    pub high: Vec<Message>,
    pub low: Vec<Message>,
    pub notify: Option<Message>,
}

/// The model of the queues.
pub ghost struct QueuesModel {
    pub high: Seq<Message>,
    pub low: Seq<Message>,
    pub notify: Option<Message>,
}

impl View for SendQueues {
    type V = QueuesModel;

    open spec fn view(&self) -> QueuesModel {
        QueuesModel { high: self.high@, low: self.low@, notify: self.notify }
    }
}

/// Which tier the next transmission comes from: always the highest
/// occupied one.
pub open spec fn next_tier(q: QueuesModel) -> Option<Priority> {
    if q.high.len() > 0 {
        Some(Priority::High)
    } else if q.notify is Some {
        Some(Priority::Notify)
    } else if q.low.len() > 0 {
        Some(Priority::Low)
    } else {
        None
    }
}

/// One dequeue step over the model: the first message of the highest
/// occupied tier leaves its queue.
pub open spec fn pop_model(q: QueuesModel) -> (Option<(Message, Priority)>, QueuesModel) {
    if q.high.len() > 0 {
        (
            Some((q.high[0], Priority::High)),
            QueuesModel { high: q.high.drop_first(), ..q },
        )
    } else if q.notify is Some {
        (
            Some((q.notify->0, Priority::Notify)),
            QueuesModel { notify: None, ..q },
        )
    } else if q.low.len() > 0 {
        (
            Some((q.low[0], Priority::Low)),
            QueuesModel { low: q.low.drop_first(), ..q },
        )
    } else {
        (None, q)
    }
}

impl SendQueues {
    /// Empty queues.
    pub fn new() -> (q: SendQueues)
        ensures
            q@.high.len() == 0,
            q@.low.len() == 0,
            q@.notify is None,
    {
        SendQueues { high: Vec::new(), low: Vec::new(), notify: None }
    }

    /// Queue a control-path message; these are never dropped.
    pub fn push_high(&mut self, m: Message)
        ensures
            final(self)@.high == old(self)@.high.push(m),
            final(self)@.low == old(self)@.low,
            final(self)@.notify == old(self)@.notify,
    {
        self.high.push(m);
    }

    /// Queue an ordinary reply; over the bound it is dropped instead.
    pub fn push_low(&mut self, m: Message) -> (accepted: bool)
        ensures
            accepted == (old(self)@.low.len() < LOW_CAP),
            accepted ==> final(self)@.low == old(self)@.low.push(m),
            !accepted ==> final(self)@.low == old(self)@.low,
            final(self)@.high == old(self)@.high,
            final(self)@.notify == old(self)@.notify,
    {
        if self.low.len() < LOW_CAP {
            self.low.push(m);
            true
        } else {
            false
        }
    }

    /// Offer a user notice; while one is already pending the new one is
    /// dropped, so a notice can never block or flood the pipeline.
    pub fn push_notify(&mut self, m: Message) -> (accepted: bool)
        ensures
            accepted == (old(self)@.notify is None),
            accepted ==> final(self)@.notify == Some(m),
            !accepted ==> final(self)@.notify == old(self)@.notify,
            final(self)@.high == old(self)@.high,
            final(self)@.low == old(self)@.low,
    {
        if self.notify.is_none() {
            self.notify = Some(m);
            true
        } else {
            false
        }
    }

    /// Take the next message to transmit, always from the highest
    /// occupied tier: High before Notify before Low.
    pub fn pop_next(&mut self) -> (r: Option<(Message, Priority)>)
        ensures
            (r, final(self)@) == pop_model(old(self)@),
            r matches Some(p) ==> Some(p.1) == next_tier(old(self)@),
            r is None ==> next_tier(old(self)@) is None,
    {
        if self.high.len() > 0 {
            let m = self.high.remove(0);
            proof {
                assert(final(self)@.high =~= old(self)@.high.drop_first());
            }
            Some((m, Priority::High))
        } else if self.notify.is_some() {
            let m = self.notify.take().unwrap();
            Some((m, Priority::Notify))
        } else if self.low.len() > 0 {
            let m = self.low.remove(0);
            proof {
                assert(final(self)@.low =~= old(self)@.low.drop_first());
            }
            Some((m, Priority::Low))
        } else {
            None
        }
    }
}

/// Priority precedence: with all three tiers occupied, three successive
/// dequeues hand out a High message, then the Notify one, then a Low
/// message, whatever order they were queued in.
pub proof fn lemma_priority_precedence(q: QueuesModel)
    requires
        q.high.len() > 0,
        q.notify is Some,
        q.low.len() > 0,
    ensures
        ({
            let (r1, q1) = pop_model(q);
            let (r2, q2) = pop_model(q1);
            let (r3, q3) = pop_model(q2);
            &&& r1 matches Some(p1) && p1.1 == Priority::High
            &&& q.high.len() == 1 ==> (r2 matches Some(p2) && p2.1 == Priority::Notify)
            &&& q.high.len() == 1 ==> (r3 matches Some(p3) && p3.1 == Priority::Low)
        }),
{
}

/// A token bucket over explicit millisecond timestamps: up to `burst`
/// tokens, one refilled every `interval_ms`, one consumed per throttled
/// send.
pub struct TokenBucket {
    pub burst: u64,
    pub interval_ms: u64,
    pub tokens: u64,
    pub last_refill_ms: u64,
}

impl TokenBucket {
    /// Well-formedness: a positive burst and interval, and never more
    /// tokens than the burst.
    pub open spec fn wf(&self) -> bool {
        &&& self.burst >= 1
        &&& self.interval_ms >= 1
        &&& self.tokens <= self.burst
    }

    /// The tokens available at `now_ms`, counting every whole interval
    /// elapsed since the last refill, capped at the burst.
    pub open spec fn available(&self, now_ms: u64) -> int {
        let refilled = self.tokens + (now_ms - self.last_refill_ms) / (self.interval_ms as int);
        if refilled > self.burst {
            self.burst as int
        } else {
            refilled
        }
    }

    /// A full bucket whose refill clock starts at `now_ms`.
    pub fn new(burst: u64, interval_ms: u64, now_ms: u64) -> (b: TokenBucket)
        requires
            burst >= 1,
            interval_ms >= 1,
        ensures
            b.wf(),
            b.burst == burst,
            b.interval_ms == interval_ms,
            b.tokens == burst,
            b.last_refill_ms == now_ms,
    {
        TokenBucket { burst, interval_ms, tokens: burst, last_refill_ms: now_ms }
    }

    /// Take one token if one is available at `now_ms`, refilling first.
    /// The burst and the interval never change; the refill clock advances
    /// by the whole intervals consumed.
    pub fn try_acquire(&mut self, now_ms: u64) -> (r: bool)
        requires
            old(self).wf(),
            now_ms >= old(self).last_refill_ms,
        ensures
            final(self).wf(),
            final(self).burst == old(self).burst,
            final(self).interval_ms == old(self).interval_ms,
            r == (old(self).available(now_ms) > 0),
            r ==> final(self).tokens == old(self).available(now_ms) - 1,
            !r ==> final(self).tokens == 0,
            final(self).last_refill_ms == now_ms - ((now_ms - old(self).last_refill_ms) % (
            old(self).interval_ms as int)),
            old(self).last_refill_ms <= final(self).last_refill_ms <= now_ms,
    {
        let elapsed = now_ms - self.last_refill_ms;
        let periods = elapsed / self.interval_ms;
        let rem = elapsed % self.interval_ms;
        proof {
            vstd::arithmetic::div_mod::lemma_fundamental_div_mod(
                elapsed as int,
                self.interval_ms as int,
            );
        }
        self.last_refill_ms = now_ms - rem;
        if periods >= self.burst - self.tokens {
            self.tokens = self.burst;
        } else {
            self.tokens = self.tokens + periods;
        }
        if self.tokens > 0 {
            self.tokens = self.tokens - 1;
            true
        } else {
            false
        }
    }

    /// How long until a token will be available: zero when one already
    /// is, otherwise the time to the next refill.
    pub fn ms_until_ready(&self, now_ms: u64) -> (r: u64)
        requires
            self.wf(),
            now_ms >= self.last_refill_ms,
        ensures
            self.available(now_ms) > 0 ==> r == 0,
            self.available(now_ms) == 0 ==> r == self.interval_ms - (now_ms
                - self.last_refill_ms) % (self.interval_ms as int),
    {
        let elapsed = now_ms - self.last_refill_ms;
        let periods = elapsed / self.interval_ms;
        let rem = elapsed % self.interval_ms;
        proof {
            vstd::arithmetic::div_mod::lemma_fundamental_div_mod(
                elapsed as int,
                self.interval_ms as int,
            );
        }
        if self.tokens > 0 || periods > 0 {
            0
        } else {
            self.interval_ms - rem
        }
    }
}

/// What the sender should do next.
pub enum NextSend {
    Transmit(Message, Priority),
    Wait(u64),
    Idle,
}

/// One scheduling step of the sender: take the next message by priority;
/// a High or Notify message bypasses the throttle entirely, a Low one
/// needs a token, and without one the sender is told how long to wait.
/// While waiting, nothing is dequeued.
pub fn next_transmission(q: &mut SendQueues, bucket: &mut TokenBucket, now_ms: u64) -> (r: NextSend)
    requires
        old(bucket).wf(),
        now_ms >= old(bucket).last_refill_ms,
    ensures
        final(bucket).wf(),
        final(bucket).burst == old(bucket).burst,
        final(bucket).interval_ms == old(bucket).interval_ms,
        next_tier(old(q)@) is None ==> (r is Idle && final(q)@ == old(q)@ && *final(bucket)
            == *old(bucket)),
        next_tier(old(q)@) == Some(Priority::High) || next_tier(old(q)@) == Some(
            Priority::Notify,
        ) ==> ({
            let (p, q2) = pop_model(old(q)@);
            &&& p matches Some(mp) && r == NextSend::Transmit(mp.0, mp.1)
            &&& final(q)@ == q2
            &&& *final(bucket) == *old(bucket)
        }),
        next_tier(old(q)@) == Some(Priority::Low) && old(bucket).available(now_ms) > 0 ==> ({
            let (p, q2) = pop_model(old(q)@);
            &&& p matches Some(mp) && r == NextSend::Transmit(mp.0, mp.1)
            &&& final(q)@ == q2
            &&& final(bucket).tokens == old(bucket).available(now_ms) - 1
        }),
        next_tier(old(q)@) == Some(Priority::Low) && old(bucket).available(now_ms) == 0 ==> ({
            &&& r matches NextSend::Wait(w) && w == old(bucket).interval_ms - (now_ms - old(
                bucket,
            ).last_refill_ms) % (old(bucket).interval_ms as int)
            &&& final(q)@ == old(q)@
            &&& final(bucket).tokens == 0
        }),
{
    if q.high.len() > 0 {
        let m = q.high.remove(0);
        proof {
            assert(final(q)@.high =~= old(q)@.high.drop_first());
        }
        NextSend::Transmit(m, Priority::High)
    } else if q.notify.is_some() {
        let m = q.notify.take().unwrap();
        NextSend::Transmit(m, Priority::Notify)
    } else if q.low.len() > 0 {
        if bucket.try_acquire(now_ms) {
            let m = q.low.remove(0);
            proof {
                assert(final(q)@.low =~= old(q)@.low.drop_first());
            }
            NextSend::Transmit(m, Priority::Low)
        } else {
            proof {
                vstd::arithmetic::div_mod::lemma_mod_bound(
                    (now_ms - old(bucket).last_refill_ms) as int,
                    old(bucket).interval_ms as int,
                );
                vstd::arithmetic::div_mod::lemma_small_mod(
                    ((now_ms - old(bucket).last_refill_ms) as int % (
                    old(bucket).interval_ms as int)) as nat,
                    old(bucket).interval_ms as nat,
                );
                let r0 = (now_ms - old(bucket).last_refill_ms) as int % (
                old(bucket).interval_ms as int);
                let d = old(bucket).interval_ms as int;
                assert(r0 / d == 0) by (nonlinear_arith)
                    requires
                        0 <= r0 < d,
                ;
            }
            let w = bucket.ms_until_ready(now_ms);
            NextSend::Wait(w)
        }
    } else {
        NextSend::Idle
    }
}

} // verus!
