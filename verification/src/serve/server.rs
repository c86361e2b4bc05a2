//! Starting the server.

use vstd::prelude::*;
use crate::error::{fail, Fallible};
use crate::list;
use crate::serve::config;
use crate::serve::config::{short_secret, MIN_SESSION_SECRET_BYTES};
use crate::text;
use crate::types::timestamp::{Timestamp, MILLIS_PER_MINUTE};

verus! {

/// How long a session must have been silent to be taken for abandoned when the
/// server starts.
pub const SESSION_STALE_MINUTES: i64 = 60;

/// The moment before which a session must have been heard of last to be taken
/// for abandoned.
pub fn stale_before(now: Timestamp) -> (result: Timestamp)
    requires
        i64::MIN <= now.millis - SESSION_STALE_MINUTES * MILLIS_PER_MINUTE,
    ensures
        result.millis == now.millis - SESSION_STALE_MINUTES * MILLIS_PER_MINUTE,
{
    now.minus_minutes(SESSION_STALE_MINUTES)
}

/// Whether sessions were closed. A database that could not be opened counts
/// for nothing.
pub open spec fn closed_some() -> spec_fn((String, Option<usize>)) -> bool {
    |r: (String, Option<usize>)| r.1 matches Some(n) && n > 0
}

/// The collections in which abandoned sessions were closed, with how many.
pub fn sweep_counts(results: &Vec<(String, Option<usize>)>) -> (result: Vec<(String, usize)>)
    ensures
        result@ == list::keep(results@, closed_some()).map_values(
            |r: (String, Option<usize>)| (r.0, r.1->Some_0),
        ),
{
    let ghost p = closed_some();
    let ghost f = |r: (String, Option<usize>)| (r.0, r.1->Some_0);
    let mut counts: Vec<(String, usize)> = Vec::new();
    let mut i: usize = 0;
    proof {
        assert(counts@ =~= list::keep(results@.take(0), p).map_values(f));
    }
    while i < results.len()
        invariant
            i <= results@.len(),
            p == closed_some(),
            f == (|r: (String, Option<usize>)| (r.0, r.1->Some_0)),
            counts@ == list::keep(results@.take(i as int), p).map_values(f),
        decreases results@.len() - i,
    {
        let ghost kept = list::keep(results@.take(i as int), p);
        proof {
            list::lemma_keep_step(results@, p, i as int);
        }
        if let Some(n) = results[i].1 {
            if n > 0 {
                counts.push((results[i].0.clone(), n));
                proof {
                    assert(kept.push(results@[i as int]).map_values(f) =~= kept.map_values(f).push(
                        (results@[i as int].0, n),
                    ));
                }
            }
        }
        i += 1;
    }
    proof {
        assert(results@.take(i as int) == results@);
    }
    counts
}

/// Refuses a secret that is too short to make a key for cookies of.
pub fn check_session_secret(secret: &str) -> (result: Fallible<()>)
    ensures
        match result {
            Ok(_) => text::byte_len(secret@) >= MIN_SESSION_SECRET_BYTES,
            Err(e) => text::byte_len(secret@) < MIN_SESSION_SECRET_BYTES && e@
                == config::secret_message(text::byte_len(secret@)),
        },
{
    let n = text::byte_length(secret);
    if n < MIN_SESSION_SECRET_BYTES {
        let message = short_secret(n);
        return fail(message.as_str());
    }
    Ok(())
}

/// The seconds between two looks for idle sessions: a quarter of the time after
/// which they are closed, but at least one second and at most ten minutes.
/// `None` where they are never closed.
pub fn eviction_tick(timeout_minutes: u64) -> (result: Option<u64>)
    requires
        timeout_minutes * 60 <= u64::MAX,
    ensures
        match result {
            None => timeout_minutes == 0,
            Some(n) => timeout_minutes > 0 && n == if timeout_minutes * 15 > 600 {
                600
            } else {
                timeout_minutes * 15
            },
        },
        result matches Some(n) ==> 1 <= n <= 600,
{
    if timeout_minutes == 0 {
        return None;
    }
    let quarter: u64 = timeout_minutes * 60 / 4;
    if quarter < 1 {
        Some(1)
    } else if quarter > 600 {
        Some(600)
    } else {
        Some(quarter)
    }
}

/// The address that the server listens on.
pub fn bind_text(host: &str, port: u16) -> (result: String)
    ensures
        result@ == host@ + ":"@ + text::decimal(port as nat),
{
    let n = text::decimal_of(port as u64);
    text::cat3(host, ":", n.as_str())
}

/// The status of a failed request about a collection.
pub fn error_status(known: bool) -> (result: u16)
    ensures
        result == if known {
            500u16
        } else {
            404u16
        },
{
    if known {
        500
    } else {
        404
    }
}

/// A session that was closed at the start is told only where something of it was
/// open.
pub proof fn law_only_open_sessions_count(name: String, n: usize)
    ensures
        closed_some()((name, Some(n))) <==> n >= 1,
        !closed_some()((name, None)),
{
}

} // verus!
