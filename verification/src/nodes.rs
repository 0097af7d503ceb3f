//! Node kinds as the graph layer knows them, and how a node name tells its kind.
use vstd::prelude::*;

verus! {

/// The kind of a node, told by the first letter of its name.
#[derive(Debug, PartialEq, Eq, Structural, Clone, Copy, Hash)]
pub enum NodeKind {
    User,
    Beacon,
    Comment,
    Opinion,
    PollVariant,
    Poll,
}

/// The kind that a name's first letter stands for: `U`ser, `B`eacon, `C`omment,
/// `O`pinion, poll `V`ariant, `P`oll; `None` for an empty name or any other letter.
pub open spec fn kind_of_name(name: Seq<char>) -> Option<NodeKind> {
    if name.len() == 0 {
        None
    } else if name[0] == 'U' {
        Some(NodeKind::User)
    } else if name[0] == 'B' {
        Some(NodeKind::Beacon)
    } else if name[0] == 'C' {
        Some(NodeKind::Comment)
    } else if name[0] == 'O' {
        Some(NodeKind::Opinion)
    } else if name[0] == 'V' {
        Some(NodeKind::PollVariant)
    } else if name[0] == 'P' {
        Some(NodeKind::Poll)
    } else {
        None
    }
}

/// The name of a kind, as it is printed.
pub open spec fn kind_name(kind: NodeKind) -> Seq<char> {
    match kind {
        NodeKind::User => "User"@,
        NodeKind::Beacon => "Beacon"@,
        NodeKind::Comment => "Comment"@,
        NodeKind::Opinion => "Opinion"@,
        NodeKind::PollVariant => "PollVariant"@,
        NodeKind::Poll => "Poll"@,
    }
}

impl NodeKind {
    /// The name of the kind, as it is printed.
    pub fn to_string(&self) -> (name: String)
        ensures
            name@ == kind_name(*self),
    {
        let s = match self {
            NodeKind::User => "User",
            NodeKind::Beacon => "Beacon",
            NodeKind::Comment => "Comment",
            NodeKind::Opinion => "Opinion",
            NodeKind::PollVariant => "PollVariant",
            NodeKind::Poll => "Poll",
        };
        s.to_owned()
    }
}

/// The kind of node that a name stands for, by its first letter.
pub fn node_kind_from_prefix(name: &str) -> (kind: Option<NodeKind>)
    ensures
        kind == kind_of_name(name@),
{
    broadcast use vstd::string::axiom_spec_iter, vstd::string::next_postcondition;

    if name.is_empty() {
        return None;
    }
    let mut chars = name.chars();
    match chars.next() {
        Some('U') => Some(NodeKind::User),
        Some('B') => Some(NodeKind::Beacon),
        Some('C') => Some(NodeKind::Comment),
        Some('O') => Some(NodeKind::Opinion),
        Some('V') => Some(NodeKind::PollVariant),
        Some('P') => Some(NodeKind::Poll),
        _ => None,
    }
}

} // verus!
