//! The receive loop's liveness decision.  The loop itself (awaiting
//! frames, the cancellation signal and the timer) lives outside the
//! verified library; what to do when the inactivity timer fires is
//! decided here.

use vstd::prelude::*;
use vstd::string::StringSliceAdditionalSpecFns;

use crate::handler::msg1;
use crate::parse::Message;

verus! {

/// What the receive loop does when the inactivity timer fires: after a
/// first silent minute a liveness probe is sent; a second one in a row
/// means the connection is dead and the session shuts down.
pub fn on_timeout(double_timeout: bool) -> (r: (bool, Option<Message>))
    ensures
        r.0 == double_timeout,
        double_timeout ==> r.1 is None,
        !double_timeout ==> (r.1 matches Some(m) && m@ == msg1(
            ("PING").spec_bytes(),
            ("PING").spec_bytes(),
        )),
{
    if double_timeout {
        (true, None)
    } else {
        let mut params: Vec<Vec<u8>> = Vec::new();
        params.push(vstd::string::StrSliceExecFns::as_bytes_vec("PING"));
        let m = Message::of_command("PING", params);
        proof {
            assert(m@.params =~= seq![("PING").spec_bytes()]);
        }
        (false, Some(m))
    }
}

} // verus!
