//! Request-metadata decisions of the logging middleware: the request-id and
//! timing carriers, the slow-request threshold, and picking the client
//! address out of proxy headers.

use crate::text::{trim_exec, trim_spec};
use vstd::prelude::*;

verus! {

/// The unique id attached to one request.
#[derive(Debug, Clone)]
pub struct RequestId(pub String);

/// The timing context attached to one request while it is in flight.
/// `start_time_ms` is the start instant in milliseconds since the Unix
/// epoch.
#[derive(Debug, Clone)]
pub struct RequestMetrics {
    pub start_time_ms: i64,
    pub method: String,
    pub path: String,
}

/// The slow-request rule: anything over one second is logged as slow.
pub fn is_slow_request(duration_ms: u64) -> (r: bool)
    ensures
        r == (duration_ms > 1000),
{
    duration_ms > 1000
}

/// The text up to (not including) the first comma; all of it when there is
/// none.
pub open spec fn comma_prefix(s: Seq<char>) -> Seq<char>
    decreases s.len(),
{
    if s.len() == 0 {
        s
    } else if s[0] == ',' {
        Seq::empty()
    } else {
        seq![s[0]] + comma_prefix(s.drop_first())
    }
}

/// The text before the first comma is the prefix up to the comma's index.
proof fn lemma_comma_prefix(s: Seq<char>, k: int)
    requires
        0 <= k <= s.len(),
        forall|j: int| 0 <= j < k ==> s[j] != ',',
        k < s.len() ==> s[k] == ',',
    ensures
        comma_prefix(s) =~= s.take(k),
    decreases k,
{
    if k == 0 {
    } else {
        assert(forall|j: int| 0 <= j < s.drop_first().len() ==> s.drop_first()[j] == s[j + 1]);
        lemma_comma_prefix(s.drop_first(), k - 1);
        assert(comma_prefix(s) == seq![s[0]] + comma_prefix(s.drop_first()));
    }
}

/// The client address, as the logging middleware derives it: the trimmed
/// first entry of a forwarding header when one is present, else the
/// advertised real address, else the peer address of the connection.
pub fn client_ip_from(forwarded_for: Option<&str>, real_ip: Option<&str>, peer: &str) -> (r:
    String)
    ensures
        match forwarded_for {
            Some(f) => r@ == trim_spec(comma_prefix(f@)),
            None => match real_ip {
                Some(ri) => r@ == ri@,
                None => r@ == peer@,
            },
        },
{
    match forwarded_for {
        Some(f) => {
            let n = f.unicode_len();
            let mut k: usize = 0;
            while k < n && f.get_char(k) != ','
                invariant
                    k <= n,
                    n == f@.len(),
                    forall|j: int| 0 <= j < k ==> f@[j] != ',',
                decreases n - k,
            {
                k = k + 1;
            }
            proof {
                if k < n {
                    assert(f@[k as int] == ',');
                }
                lemma_comma_prefix(f@, k as int);
            }
            let first = f.substring_char(0, k);
            proof {
                assert(first@ =~= comma_prefix(f@));
            }
            trim_exec(first)
        },
        None => match real_ip {
            Some(ri) => ri.to_owned(),
            None => peer.to_owned(),
        },
    }
}

} // verus!
