//! The pure parts of the database functions' client of the service: the address
//! to connect to, the kind of a node named in a request, and the magnitude of an
//! edge.
use vstd::prelude::*;
use vstd::string::StrSliceExecFns;

use crate::data::NodeKind;
use crate::node_registry::kind_of_name;

verus! {

/// The scheme that a service address may start with.
pub open spec fn tcp_scheme() -> Seq<char> {
    seq!['t', 'c', 'p', ':', '/', '/']
}

/// The address without its `tcp://` scheme, when it has one.
pub open spec fn without_scheme(url: Seq<char>) -> Seq<char> {
    if url.len() >= 6 && url.take(6) == tcp_scheme() {
        url.skip(6)
    } else {
        url
    }
}

/// The service address to connect to: `url` without a leading `tcp://`.
pub fn strip_scheme(url: &str) -> (address: &str)
    ensures
        address@ == without_scheme(url@),
{
    let len = url.unicode_len();
    if len < 6 {
        return url;
    }
    let scheme = ['t', 'c', 'p', ':', '/', '/'];
    let mut i: usize = 0;
    while i < 6
        invariant
            i <= 6,
            len == url@.len(),
            len >= 6,
            scheme@ == tcp_scheme(),
            forall|k: int| 0 <= k < i ==> url@[k] == tcp_scheme()[k],
        decreases 6 - i,
    {
        if url.get_char(i) != scheme[i] {
            proof {
                assert(url@.take(6)[i as int] != tcp_scheme()[i as int]);
            }
            return url;
        }
        i = i + 1;
    }
    proof {
        assert(url@.take(6) =~= tcp_scheme());
    }
    let rest = url.substring_char(6, len);
    proof {
        assert(rest@ =~= url@.skip(6));
    }
    rest
}

/// The kind of node that a name stands for, by its first letter.
pub fn kind_from_prefix(prefix: &str) -> (kind: Option<NodeKind>)
    ensures
        kind == kind_of_name(prefix@),
{
    broadcast use vstd::string::axiom_spec_iter, vstd::string::next_postcondition;

    let mut chars = prefix.chars();
    match chars.next() {
        Some('U') => Some(NodeKind::User),
        Some('B') => Some(NodeKind::Beacon),
        Some('C') => Some(NodeKind::Comment),
        Some('O') => Some(NodeKind::Opinion),
        Some('V') => Some(NodeKind::PollVariant),
        Some('P') => Some(NodeKind::Poll),
        _ => None,
    }
}

/// The magnitude of an edge written with position `index`: zero for a negative
/// index, else the index cut to its low 32 bits, as a cast does.
pub fn edge_magnitude(index: i64) -> (magnitude: u32)
    ensures
        index < 0 ==> magnitude == 0,
        index >= 0 ==> magnitude == index % 0x1_0000_0000,
{
    if index < 0 {
        0
    } else {
        let m = index as u32;
        proof {
            assert(index >= 0 ==> m == index % 0x1_0000_0000) by (bit_vector)
                requires
                    m == index as u32,
            ;
        }
        m
    }
}

} // verus!
