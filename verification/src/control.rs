//! The liveness query on the control socket: what the server answers and
//! how the one-shot client judges an answer.

use crate::laws::lemma_selection;
use crate::load_balancer::LoadBalancer;
use crate::model::RegistryView;
use crate::text::{from_utf8_lossy, lossy_text, same_text, trim, trimmed};
use vstd::prelude::*;

verus! {

/// Where the control socket lives.
pub const DEFAULT_UDS_PATH: &'static str = "/run/sidelb.sock";

/// How long the client waits to connect, and again to read, in seconds.
pub const UDS_CHECK_TIMEOUT_SECS: u64 = 5;

/// What the control socket answers for a registry: `HEALTHY` and a line
/// feed if any backend is active, else `UNHEALTHY` and a line feed.
pub open spec fn status_reply(s: RegistryView) -> Seq<char> {
    if s.has_active() {
        "HEALTHY\n"@
    } else {
        "UNHEALTHY\n"@
    }
}

/// What the control socket answers right now.
///
/// The client's query is not looked at: whatever it sent, or if it sent
/// nothing, the answer depends on the registry alone.
pub fn run_uds_status_server(lb: &LoadBalancer) -> (reply: &'static str)
    ensures
        reply@ == status_reply(lb@),
{
    if lb.has_active_backend() {
        "HEALTHY\n"
    } else {
        "UNHEALTHY\n"
    }
}

/// The control socket says `HEALTHY` exactly when a selection made at the
/// same moment would return a backend.
pub proof fn lemma_reply_agrees_with_selection(s: RegistryView)
    ensures
        status_reply(s) == "HEALTHY\n"@ <==> s.selection() is Some,
        status_reply(s) == "UNHEALTHY\n"@ <==> s.selection() is None,
{
    lemma_selection(s);
    reveal_strlit("HEALTHY\n");
    reveal_strlit("UNHEALTHY\n");
    assert("HEALTHY\n"@.len() != "UNHEALTHY\n"@.len());
}

/// Whether an answer, already decoded, says that the balancer is healthy:
/// without the white space around it, it reads `HEALTHY`.
pub fn text_reports_healthy(answer: &str) -> (healthy: bool)
    ensures
        healthy == (trimmed(answer@) == "HEALTHY"@),
{
    same_text(trim(answer), "HEALTHY")
}

/// The exit status of the one-shot health check for the bytes that the
/// control socket answered: 0 if they report health, 1 otherwise. No bytes
/// at all count as a failure.
pub fn perform_uds_health_check(response: &[u8]) -> (exit_status: i32)
    ensures
        exit_status == if response@.len() > 0 && trimmed(lossy_text(response@)) == "HEALTHY"@ {
            0i32
        } else {
            1i32
        },
{
    if response.len() == 0 {
        return 1;
    }
    let answer = from_utf8_lossy(response);
    if text_reports_healthy(answer.as_str()) {
        0
    } else {
        1
    }
}

} // verus!
