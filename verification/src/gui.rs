//! Command-line arguments of the application, and the integer decisions of
//! the per-device output task: the dead-man watchdog and the enable-state
//! signature that forces a send when an actuator is toggled.

use vstd::prelude::*;

verus! {

/// Arguments of the application: an optional device-server address.
pub struct Gui {
    pub server_addr: Option<String>,
}

impl Default for Gui {
    fn default() -> (g: Self)
        ensures
            g.server_addr is None,
    {
        Gui { server_addr: None }
    }
}

/// Heartbeat age, in milliseconds, beyond which device output is stopped.
pub const WATCHDOG_TIMEOUT_MS: u64 = 2_000;

/// Milliseconds since the last heartbeat, zero when the heartbeat is newer
/// than `now_ms`.
pub open spec fn heartbeat_age(now_ms: u64, heartbeat_ms: u64) -> int {
    if now_ms >= heartbeat_ms {
        now_ms - heartbeat_ms
    } else {
        0
    }
}

/// Dead-man watchdog: the pipeline has not produced fresh output for longer
/// than the timeout, so a device must not hold its last intensity.
pub fn heartbeat_stale(now_ms: u64, heartbeat_ms: u64) -> (stale: bool)
    ensures
        stale == (heartbeat_age(now_ms, heartbeat_ms) > WATCHDOG_TIMEOUT_MS),
        stale <==> now_ms as int > heartbeat_ms as int + WATCHDOG_TIMEOUT_MS as int,
{
    now_ms.saturating_sub(heartbeat_ms) > WATCHDOG_TIMEOUT_MS
}

/// The age of a heartbeat is the time elapsed since it, never negative:
/// counted forward from the heartbeat it reaches `now_ms`, and a heartbeat
/// stamped after `now_ms` is as fresh as one stamped at `now_ms`.
pub proof fn law_heartbeat_age_is_elapsed_time(now_ms: u64, heartbeat_ms: u64)
    ensures
        heartbeat_age(now_ms, heartbeat_ms) >= 0,
        now_ms >= heartbeat_ms ==> heartbeat_ms + heartbeat_age(now_ms, heartbeat_ms) == now_ms,
        now_ms < heartbeat_ms ==> heartbeat_age(now_ms, heartbeat_ms) == 0,
{
}

/// The age of a heartbeat only grows as time passes, so once stale it stays
/// stale until a newer heartbeat arrives.
pub proof fn law_heartbeat_staleness_persists(earlier_ms: u64, later_ms: u64, heartbeat_ms: u64)
    requires
        earlier_ms <= later_ms,
    ensures
        heartbeat_age(earlier_ms, heartbeat_ms) <= heartbeat_age(later_ms, heartbeat_ms),
        heartbeat_age(later_ms, heartbeat_ms) - heartbeat_age(earlier_ms, heartbeat_ms) <= later_ms
            - earlier_ms,
        heartbeat_age(earlier_ms, heartbeat_ms) > WATCHDOG_TIMEOUT_MS ==> heartbeat_age(
            later_ms,
            heartbeat_ms,
        ) > WATCHDOG_TIMEOUT_MS,
{
}

/// One enable flag shifted into a signature; the oldest bits leave at the top.
pub open spec fn signature_step(sig: u64, enabled: bool) -> u64 {
    ((sig << 1u64) | (if enabled { 1u64 } else { 0u64 })) as u64
}

/// The signature after shifting in each flag of `flags` in turn.
pub open spec fn signature_of(sig: u64, flags: Seq<bool>) -> u64
    decreases flags.len(),
{
    if flags.len() == 0 {
        sig
    } else {
        signature_step(signature_of(sig, flags.drop_last()), flags.last())
    }
}

/// Toggling the most recently shifted flag always changes the signature.
pub proof fn law_toggle_changes_signature(sig: u64, flags: Seq<bool>)
    requires
        flags.len() > 0,
    ensures
        signature_of(sig, flags) != signature_of(
            sig,
            flags.update(flags.len() - 1, !flags.last()),
        ),
{
    let toggled = flags.update(flags.len() - 1, !flags.last());
    assert(toggled.drop_last() =~= flags.drop_last());
    let base = signature_of(sig, flags.drop_last());
    assert(((base << 1u64) | 1u64) != ((base << 1u64) | 0u64)) by (bit_vector);
}

/// The enable-state signature of a device: its own flag, then each
/// vibrator's, then each oscillator's. A change of signature forces a send
/// even when the computed level is steady.
pub fn enable_signature(device: bool, vibrators: &[bool], oscillators: &[bool]) -> (sig: u64)
    ensures
        sig == signature_of(
            signature_of(if device { 1u64 } else { 0u64 }, vibrators@),
            oscillators@,
        ),
{
    let mut sig: u64 = if device {
        1
    } else {
        0
    };
    let ghost start = sig;
    let mut i: usize = 0;
    while i < vibrators.len()
        invariant
            i <= vibrators@.len(),
            sig == signature_of(start, vibrators@.take(i as int)),
        decreases vibrators@.len() - i,
    {
        proof {
            assert(vibrators@.take(i + 1).drop_last() =~= vibrators@.take(i as int));
        }
        sig = (sig << 1u64) | (if vibrators[i] {
            1u64
        } else {
            0u64
        });
        i = i + 1;
    }
    proof {
        assert(vibrators@.take(vibrators@.len() as int) =~= vibrators@);
    }
    let ghost mid = sig;
    let mut j: usize = 0;
    while j < oscillators.len()
        invariant
            j <= oscillators@.len(),
            sig == signature_of(mid, oscillators@.take(j as int)),
        decreases oscillators@.len() - j,
    {
        proof {
            assert(oscillators@.take(j + 1).drop_last() =~= oscillators@.take(j as int));
        }
        sig = (sig << 1u64) | (if oscillators[j] {
            1u64
        } else {
            0u64
        });
        j = j + 1;
    }
    proof {
        assert(oscillators@.take(oscillators@.len() as int) =~= oscillators@);
    }
    sig
}

} // verus!
