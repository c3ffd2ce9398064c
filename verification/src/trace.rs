//! Traceroute logs: the header line that lists the first address seen at each hop.

use vstd::prelude::*;
use crate::matrix::opt_chars;
use crate::text::{chars_of, string_from_chars};

verus! {

/// The header text for the hops `hops` (the first address of each hop, if any): a `,`,
/// then for each hop its address followed by `,`, or just `,` for a hop without one.
pub open spec fn route_header(hops: Seq<Option<Seq<char>>>) -> Seq<char>
    decreases hops.len(),
{
    if hops.len() == 0 {
        seq![',']
    } else {
        route_header(hops.drop_last()) + match hops.last() {
            Some(a) => a.push(','),
            None => seq![','],
        }
    }
}

/// The views of the hop addresses.
pub open spec fn hop_views(hops: Seq<Option<String>>) -> Seq<Option<Seq<char>>> {
    hops.map_values(|o: Option<String>| opt_chars(o))
}

/// The header line of a traceroute log.
pub fn route_header_line(hops: &Vec<Option<String>>) -> (r: String)
    ensures
        r@ == route_header(hop_views(hops@)),
{
    let mut v: Vec<char> = Vec::new();
    v.push(',');
    let mut k: usize = 0;
    assert(hop_views(hops@).take(0) =~= Seq::<Option<Seq<char>>>::empty());
    while k < hops.len()
        invariant
            k <= hops@.len(),
            v@ == route_header(hop_views(hops@).take(k as int)),
        decreases hops@.len() - k,
    {
        let ghost before = v@;
        match &hops[k] {
            Some(a) => {
                let cs = chars_of(a.as_str());
                let mut j: usize = 0;
                while j < cs.len()
                    invariant
                        j <= cs@.len(),
                        v@ == before + cs@.take(j as int),
                    decreases cs@.len() - j,
                {
                    v.push(cs[j]);
                    assert(cs@.take(j + 1) =~= cs@.take(j as int).push(cs@[j as int]));
                    j = j + 1;
                }
                assert(cs@.take(j as int) =~= cs@);
                v.push(',');
            },
            None => {
                v.push(',');
            },
        }
        let ghost t = hop_views(hops@).take(k + 1);
        assert(t.drop_last() =~= hop_views(hops@).take(k as int));
        assert(v@ =~= route_header(t));
        k = k + 1;
    }
    assert(hop_views(hops@).take(k as int) =~= hop_views(hops@));
    string_from_chars(&v, 0, v.len())
}

} // verus!
