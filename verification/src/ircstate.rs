//! Per-connection session state: the original and current nickname, the
//! configured channel set, the optional authentication secret, and the
//! token bucket that gates the content-fetch feature.

use vstd::prelude::*;
use vstd::string::{StrSliceExecFns, StringExecFns};

use crate::helpers::{bytes_of, channel_ok, CONFLICT_FILLER};

verus! {

/// Most nickname collisions the session recovers from by renaming; one
/// more ends the session instead.
pub const MAX_RENAMES: u8 = 3;

#[verifier::external_type_specification]
#[verifier::external_body]
pub struct ExRateLimiter(leaky_bucket::RateLimiter);

/// Relies on `leaky_bucket::RateLimiter::builder` and `Builder::build`:
/// an unfair token bucket holding up to `burst` tokens, full at the
/// start, refilled one token per `interval_ms` milliseconds.  `Builder::
/// interval` panics on a zero interval, which the precondition excludes.
#[verifier::external_body]
pub fn new_rate_limiter(burst: usize, interval_ms: u64) -> leaky_bucket::RateLimiter
    requires
        burst >= 1,
        interval_ms >= 1,
{
    leaky_bucket::RateLimiter::builder()
        .fair(false)
        .max(burst)
        .initial(burst)
        .interval(core::time::Duration::from_millis(interval_ms))
        .refill(1)
        .build()
}

/// Relies on `leaky_bucket::RateLimiter::try_acquire`: takes one token
/// if one is available right now.  The answer depends on the clock, so
/// nothing is promised of it.
#[verifier::external_body]
pub fn try_acquire_one(rl: &leaky_bucket::RateLimiter) -> bool {
    rl.try_acquire(1)
}

/// The collision suffix of `cnt` filler characters.
pub open spec fn filler_chars(cnt: int) -> Seq<char> {
    Seq::new(cnt as nat, |i: int| '_')
}

/// Shared session state, one instance per connection.
pub struct IrcState {
    pub original_nick: String,
    pub current_nick: String,
    pub nickserv_pass: Option<String>,
    pub channels: Vec<String>,
    pub moose_url: String,
    pub moose_delay: Option<leaky_bucket::RateLimiter>,
}

impl IrcState {
    /// How many collision renames have happened since registration.
    pub open spec fn collision_count(&self) -> int {
        self.current_nick@.len() - self.original_nick@.len()
    }

    /// Whether the content-fetch rate limit is configured at all.
    pub open spec fn has_moose_delay(&self) -> bool {
        self.moose_delay is Some
    }

    /// Well-formedness: the current nickname is the original one with one
    /// filler character per collision, at most `MAX_RENAMES` of them, and
    /// every configured channel name can ride in a JOIN batch.
    pub open spec fn wf(&self) -> bool {
        &&& self.current_nick@ == self.original_nick@ + filler_chars(self.collision_count())
        &&& 0 <= self.collision_count() <= MAX_RENAMES as int
        &&& forall|i: int| 0 <= i < self.channels@.len() ==> channel_ok(
            #[trigger] bytes_of(self.channels@[i]@),
        )
    }

    /// Fresh state for a new connection: the current nickname starts as
    /// the original, and a zero delay disables the content-fetch limit.
    pub fn new(
        nick: String,
        nickserv_pass: Option<String>,
        channels: Vec<String>,
        moose_url: String,
        moose_delay_ms: u64,
    ) -> (s: IrcState)
        requires
            forall|i: int| 0 <= i < channels@.len() ==> channel_ok(
                #[trigger] bytes_of(channels@[i]@),
            ),
        ensures
            s.wf(),
            s.collision_count() == 0,
            s.original_nick@ == nick@,
            s.current_nick@ == nick@,
            s.nickserv_pass == nickserv_pass,
            s.channels == channels,
            s.moose_url == moose_url,
            s.has_moose_delay() == (moose_delay_ms > 0),
    {
        let moose_delay = if moose_delay_ms == 0 {
            None
        } else {
            Some(new_rate_limiter(1, moose_delay_ms))
        };
        let s = IrcState {
            original_nick: nick.clone(),
            current_nick: nick,
            nickserv_pass,
            channels,
            moose_url,
            moose_delay,
        };
        proof {
            assert(s.current_nick@ =~= s.original_nick@ + filler_chars(0));
        }
        s
    }

    /// Take one content-fetch token if the feature is enabled and a token
    /// is available; a session without a configured delay always refuses.
    pub fn acquire_moose_token(&self) -> (r: bool)
        ensures
            !self.has_moose_delay() ==> !r,
    {
        match &self.moose_delay {
            None => false,
            Some(rl) => try_acquire_one(rl),
        }
    }

    /// The nickname-collision transition: while fewer than `MAX_RENAMES`
    /// renames have happened, append one filler character and report that
    /// a rename took place; at the limit, leave the state alone so the
    /// caller gives up instead.
    pub fn on_collision(&mut self) -> (renamed: bool)
        requires
            old(self).wf(),
        ensures
            final(self).wf(),
            renamed == (old(self).collision_count() < MAX_RENAMES as int),
            renamed ==> final(self).current_nick@ == old(self).current_nick@ + seq!['_']
                && final(self).collision_count() == old(self).collision_count() + 1,
            !renamed ==> *final(self) == *old(self),
            final(self).original_nick == old(self).original_nick,
            final(self).nickserv_pass == old(self).nickserv_pass,
            final(self).channels == old(self).channels,
            final(self).moose_url == old(self).moose_url,
            final(self).moose_delay == old(self).moose_delay,
    {
        let orig_len = self.original_nick.as_str().unicode_len();
        let cur_len = self.current_nick.as_str().unicode_len();
        if cur_len - orig_len >= MAX_RENAMES as usize {
            return false;
        }
        self.current_nick.append(CONFLICT_FILLER);
        proof {
            reveal_strlit("_");
            assert(("_")@ =~= seq!['_']);
            assert(final(self).current_nick@ == old(self).current_nick@ + seq!['_']);
            assert(final(self).current_nick@ =~= final(self).original_nick@ + filler_chars(
                final(self).collision_count(),
            ));
        }
        true
    }

    /// The current nickname as wire bytes.
    pub fn current_nick_bytes(&self) -> (r: Vec<u8>)
        ensures
            r@ == bytes_of(self.current_nick@),
    {
        self.current_nick.as_str().as_bytes_vec()
    }
}

} // verus!
