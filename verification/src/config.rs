//! Settings of a node.

use vstd::prelude::*;

verus! {

/// The nodes that are asked for the network where no other is named.
pub const DEFAULT_SENTINELS: [&'static str; 1] = ["http://204.168.151.107:9440"];

/// Whether a node serves everyone or only itself.
#[derive(Debug, Clone, Copy, PartialEq, Eq, Structural)]
pub enum Mode {
    Private,
    Public,
}

/// The nodes that are asked for the network: those that are named, or those
/// that are known from the start.
pub fn resolve_sentinels(provided: &Vec<String>) -> (r: Vec<String>)
    ensures
        crate::text::views(r@) == if provided@.len() == 0 {
            seq![DEFAULT_SENTINELS@[0]@]
        } else {
            crate::text::views(provided@)
        },
{
    let mut r: Vec<String> = Vec::new();
    if provided.len() == 0 {
        r.push(DEFAULT_SENTINELS[0].to_string());
        assert(crate::text::views(r@) =~= seq![DEFAULT_SENTINELS@[0]@]);
        return r;
    }
    let ghost all = crate::text::views(provided@);
    let mut i: usize = 0;
    while i < provided.len()
        invariant
            i <= provided@.len(),
            all == crate::text::views(provided@),
            crate::text::views(r@) == all.take(i as int),
        decreases provided@.len() - i,
    {
        let ghost before = crate::text::views(r@);
        r.push(provided[i].clone());
        proof {
            assert(crate::text::views(r@) =~= before.push(all[i as int]));
            assert(all.take(i + 1) =~= all.take(i as int).push(all[i as int]));
        }
        i += 1;
    }
    assert(all.take(i as int) =~= all);
    r
}

} // verus!
