//! Decisions of the metrics endpoint: which requests it answers, and the
//! per-second traffic figures it publishes.
use vstd::prelude::*;

verus! {

/// The ASCII bytes of `GET /metrics`.
pub open spec fn metrics_request_prefix() -> Seq<u8> {
    seq![71u8, 69u8, 84u8, 32u8, 47u8, 109u8, 101u8, 116u8, 114u8, 105u8, 99u8, 115u8]
}

/// The request asks for the metrics page: it starts with `GET /metrics`.
/// Any other request gets a 404.
pub fn is_metrics_request(request: &[u8]) -> (r: bool)
    ensures
        r == (request@.len() >= 12 && request@.subrange(0, 12) == metrics_request_prefix()),
{
    let prefix: [u8; 12] = [71, 69, 84, 32, 47, 109, 101, 116, 114, 105, 99, 115];
    assert(prefix@ =~= metrics_request_prefix());
    if request.len() < 12 {
        return false;
    }
    let mut k: usize = 0;
    while k < 12
        invariant
            k <= 12,
            request@.len() >= 12,
            prefix@ == metrics_request_prefix(),
            forall|j: int| 0 <= j < k ==> request@[j] == prefix@[j],
        decreases 12 - k,
    {
        if request[k] != prefix[k] {
            assert(request@.subrange(0, 12)[k as int] != metrics_request_prefix()[k as int]);
            return false;
        }
        k = k + 1;
    }
    assert(request@.subrange(0, 12) =~= metrics_request_prefix());
    true
}

/// Traffic totals at the last sample, to publish bytes per second.
pub struct ByteRate {
    pub last_egress: u64,
    pub last_ingress: u64,
}

/// Growth of a running total since `last`; none when it did not grow.
pub open spec fn growth(total: u64, last: u64) -> u64 {
    if total >= last {
        (total - last) as u64
    } else {
        0
    }
}

impl ByteRate {
    pub fn new(egress_total: u64, ingress_total: u64) -> (r: ByteRate)
        ensures
            r.last_egress == egress_total,
            r.last_ingress == ingress_total,
    {
        ByteRate { last_egress: egress_total, last_ingress: ingress_total }
    }

    /// Bytes sent and received since the last sample; the new totals become
    /// the reference for the next one.
    pub fn sample(&mut self, egress_total: u64, ingress_total: u64) -> (r: (u64, u64))
        ensures
            r == (growth(egress_total, old(self).last_egress), growth(ingress_total, old(self).last_ingress)),
            final(self).last_egress == egress_total,
            final(self).last_ingress == ingress_total,
    {
        let sent = egress_total.saturating_sub(self.last_egress);
        let received = ingress_total.saturating_sub(self.last_ingress);
        self.last_egress = egress_total;
        self.last_ingress = ingress_total;
        (sent, received)
    }
}

} // verus!
