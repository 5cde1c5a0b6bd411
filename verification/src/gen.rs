use vstd::prelude::*;

use crate::trie::Ipv4CidrRange;

verus! {

/// Relies on rand::random_range over `low..high`: it samples the half-open
/// range, so the result is at least `low` and strictly below `high`; an
/// empty range would panic, which the precondition rules out.
#[verifier::external_body]
fn random_u32_in(low: u32, high: u32) -> (r: u32)
    requires
        low < high,
    ensures
        low <= r < high,
{
    rand::random_range(low..high)
}

/// Draw `n` random 32-bit addresses, each strictly below `u32::MAX` (the
/// sampling range is half-open).
pub fn generate_ips(n: usize) -> (r: Vec<u32>)
    ensures
        r.len() == n,
        forall|i: int| 0 <= i < n ==> #[trigger] r[i] < u32::MAX,
{
    let mut out: Vec<u32> = Vec::new();
    while out.len() < n
        invariant
            out.len() <= n,
            forall|i: int| 0 <= i < out.len() ==> #[trigger] out[i] < u32::MAX,
        decreases n - out.len(),
    {
        out.push(random_u32_in(0, u32::MAX));
    }
    out
}

/// Draw `n` random CIDR ranges with prefix lengths between 4 and 23: the
/// mid-range specificities a benchmark exercises.
pub fn generate_cidrs(n: usize) -> (r: Vec<Ipv4CidrRange>)
    ensures
        r.len() == n,
        forall|i: int|
            0 <= i < n ==> 4 <= (#[trigger] r[i]).spec_mask() < 24 && r[i].wf() && r[i].spec_ip()
                < u32::MAX,
{
    let mut out: Vec<Ipv4CidrRange> = Vec::new();
    while out.len() < n
        invariant
            out.len() <= n,
            forall|i: int|
                0 <= i < out.len() ==> 4 <= (#[trigger] out[i]).spec_mask() < 24 && out[i].wf()
                    && out[i].spec_ip() < u32::MAX,
        decreases n - out.len(),
    {
        let ip = random_u32_in(0, u32::MAX);
        let mask = random_u32_in(4, 24);
        out.push(Ipv4CidrRange::new(ip, mask));
    }
    out
}

} // verus!
