//! The registry of named nodes: each name gets the next node id once, with the
//! node's kind and, for an owned object, its owner; and how a name tells its kind.
use vstd::hash_map::StringHashMap;
use vstd::prelude::*;

use crate::data::NodeKind;
use crate::random_walk::NodeId;

verus! {

/// The kind that a name's first letter stands for: `U`ser, `B`eacon, `C`omment,
/// `O`pinion, poll `V`ariant, `P`oll; `None` for an empty name or any other letter.
pub open spec fn kind_of_name(name: Seq<char>) -> Option<NodeKind> {
    if name.len() == 0 {
        None
    } else if name[0] == 'U' {
        Some(NodeKind::User)
    } else if name[0] == 'B' {
        Some(NodeKind::Beacon)
    } else if name[0] == 'C' {
        Some(NodeKind::Comment)
    } else if name[0] == 'O' {
        Some(NodeKind::Opinion)
    } else if name[0] == 'V' {
        Some(NodeKind::PollVariant)
    } else if name[0] == 'P' {
        Some(NodeKind::Poll)
    } else {
        None
    }
}

/// The kind of node that a name stands for, by its first letter.
pub fn node_kind_from_prefix(name: &str) -> (kind: Option<NodeKind>)
    ensures
        kind == kind_of_name(name@),
{
    broadcast use vstd::string::axiom_spec_iter, vstd::string::next_postcondition;

    if name.is_empty() {
        return None;
    }
    let mut chars = name.chars();
    match chars.next() {
        Some('U') => Some(NodeKind::User),
        Some('B') => Some(NodeKind::Beacon),
        Some('C') => Some(NodeKind::Comment),
        Some('O') => Some(NodeKind::Opinion),
        Some('V') => Some(NodeKind::PollVariant),
        Some('P') => Some(NodeKind::Poll),
        _ => None,
    }
}

/// What the registry knows of a node.
#[derive(Debug, Clone, PartialEq)]
pub struct NodeInfo {
    pub id: NodeId,
    pub name: String,
    pub kind: NodeKind,
    pub owner: Option<NodeId>,
}

/// The named nodes: ids by name, and what is known of each id.
pub struct NodeRegistry {
    pub name_to_id: StringHashMap<NodeId>,
    pub id_to_info: Vec<NodeInfo>,
    pub next_id: NodeId,
}

/// The contents of a registry: ids by name, and the infos by id.
pub struct RegistryView {
    pub names: Map<Seq<char>, NodeId>,
    pub infos: Seq<NodeInfo>,
}

impl View for NodeRegistry {
    type V = RegistryView;

    open spec fn view(&self) -> RegistryView {
        RegistryView { names: self.name_to_id@, infos: self.id_to_info@ }
    }
}

/// Registering `name`: a known name keeps its id and changes nothing; a new one
/// gets the next id, with `kind` and `owner`.
pub open spec fn register_spec(r: RegistryView, name: String, kind: NodeKind, owner: Option<NodeId>) -> (
    NodeId,
    RegistryView,
) {
    if r.names.contains_key(name@) {
        (r.names[name@], r)
    } else {
        let id = r.infos.len() as NodeId;
        (
            id,
            RegistryView {
                names: r.names.insert(name@, id),
                infos: r.infos.push(NodeInfo { id, name, kind, owner }),
            },
        )
    }
}

/// Why the nodes of an edge cannot be registered.
#[derive(Debug)]
pub enum AugGraphError {
    /// The edge leads from a node to itself.
    SelfReference,
    /// Edges between these kinds of nodes are not allowed.
    IncorrectNodeKinds(String, String),
}

/// What registering the two nodes of an edge from `src` to `dst` gives: their ids
/// and the registry after, or why it is refused. Between users both register as
/// users; an object's edge to a user registers the user and then the object, owned
/// by the user; a user's edge to an object registers the user and then the object;
/// other kinds, unknown kinds and self-references are refused.
pub open spec fn edge_registration(r: RegistryView, src: String, dst: String) -> Result<
    ((NodeId, NodeId), RegistryView),
    AugGraphError,
> {
    if src@ == dst@ {
        Err(AugGraphError::SelfReference)
    } else {
        match (kind_of_name(src@), kind_of_name(dst@)) {
            (Some(NodeKind::User), Some(NodeKind::User)) => {
                let (a, r1) = register_spec(r, src, NodeKind::User, None);
                let (b, r2) = register_spec(r1, dst, NodeKind::User, None);
                Ok(((a, b), r2))
            },
            (Some(k), Some(NodeKind::User)) => {
                let (b, r1) = register_spec(r, dst, NodeKind::User, None);
                let (a, r2) = register_spec(r1, src, k, Some(b));
                Ok(((a, b), r2))
            },
            (Some(NodeKind::User), Some(k)) => {
                let (a, r1) = register_spec(r, src, NodeKind::User, None);
                let (b, r2) = register_spec(r1, dst, k, None);
                Ok(((a, b), r2))
            },
            _ => Err(AugGraphError::IncorrectNodeKinds(src, dst)),
        }
    }
}

/// The ids, in ascending order, of the first `n` nodes of `infos` that are of kind
/// `kind`.
pub open spec fn ids_of_kind(infos: Seq<NodeInfo>, kind: NodeKind, n: int) -> Seq<NodeId>
    decreases n,
{
    if n <= 0 {
        Seq::empty()
    } else if infos[n - 1].kind == kind {
        ids_of_kind(infos, kind, n - 1).push((n - 1) as NodeId)
    } else {
        ids_of_kind(infos, kind, n - 1)
    }
}

impl NodeRegistry {
    /// Whether ids are handed out in order, each node's info carries its id, and the
    /// names and the infos agree both ways.
    pub open spec fn wf(&self) -> bool {
        let infos = self.id_to_info@;
        let names = self.name_to_id@;
        &&& self.next_id == infos.len()
        &&& forall|i: int| 0 <= i < infos.len() ==> (#[trigger] infos[i]).id == i
        &&& forall|i: int|
            0 <= i < infos.len() ==> names.contains_key((#[trigger] infos[i]).name@) && names[infos[i].name@]
                == i
        &&& forall|n: Seq<char>| #[trigger]
            names.contains_key(n) ==> names[n] < infos.len() && infos[names[n] as int].name@ == n
    }

    /// An empty registry.
    pub fn new() -> (registry: Self)
        ensures
            registry.wf(),
            registry@.names == Map::<Seq<char>, NodeId>::empty(),
            registry@.infos == Seq::<NodeInfo>::empty(),
    {
        NodeRegistry { name_to_id: StringHashMap::new(), id_to_info: Vec::new(), next_id: 0 }
    }

    /// The id of the node named `name`: its id if it is known, else the next id,
    /// now given to it with `kind` and `owner`.
    fn register_node(&mut self, name: String, kind: NodeKind, owner: Option<NodeId>) -> (id: NodeId)
        requires
            old(self).wf(),
            old(self).next_id < usize::MAX,
        ensures
            final(self).wf(),
            (id, final(self)@) == register_spec(old(self)@, name, kind, owner),
    {
        if let Some(id) = self.name_to_id.get(name.as_str()) {
            return *id;
        }
        let id = self.next_id;
        self.next_id = self.next_id + 1;
        let info = NodeInfo { id, name: name.clone(), kind, owner };
        self.name_to_id.insert(name, id);
        self.id_to_info.push(info);
        proof {
            let infos = self.id_to_info@;
            let names = self.name_to_id@;
            let old_infos = old(self).id_to_info@;
            let old_names = old(self).name_to_id@;
            assert forall|i: int| 0 <= i < infos.len() implies names.contains_key(
                (#[trigger] infos[i]).name@,
            ) && names[infos[i].name@] == i by {
                if i < old_infos.len() {
                    assert(infos[i] == old_infos[i]);
                    assert(old_names.contains_key(old_infos[i].name@));
                }
            }
            assert forall|n: Seq<char>| #[trigger] names.contains_key(n) implies names[n]
                < infos.len() && infos[names[n] as int].name@ == n by {
                if n != info.name@ {
                    assert(old_names.contains_key(n));
                    assert(infos[names[n] as int] == old_infos[names[n] as int]);
                }
            }
        }
        id
    }

    /// The id of the node named `name`; a new name gets the next id, with `kind`
    /// and no owner.
    pub fn register(&mut self, name: String, kind: NodeKind) -> (id: NodeId)
        requires
            old(self).wf(),
            old(self).next_id < usize::MAX,
        ensures
            final(self).wf(),
            (id, final(self)@) == register_spec(old(self)@, name, kind, None),
    {
        self.register_node(name, kind, None)
    }

    /// The id of the node named `name`; a new name gets the next id, with `kind`
    /// and owner `owner`.
    pub fn register_with_owner(&mut self, name: String, kind: NodeKind, owner: NodeId) -> (id:
        NodeId)
        requires
            old(self).wf(),
            old(self).next_id < usize::MAX,
        ensures
            final(self).wf(),
            (id, final(self)@) == register_spec(old(self)@, name, kind, Some(owner)),
    {
        self.register_node(name, kind, Some(owner))
    }

    /// Registers the two nodes of an edge from `src` to `dst`, by their kinds, and
    /// gives their ids; see [`edge_registration`]. A refused edge changes nothing.
    pub fn reg_owner_and_get_ids(&mut self, src: String, dst: String) -> (result: Result<
        (NodeId, NodeId),
        AugGraphError,
    >)
        requires
            old(self).wf(),
            old(self).next_id + 2 <= usize::MAX,
        ensures
            final(self).wf(),
            edge_registration(old(self)@, src, dst) matches Ok((ids, after)) ==> result
                == Ok::<(NodeId, NodeId), AugGraphError>(ids) && final(self)@ == after,
            edge_registration(old(self)@, src, dst) matches Err(e) ==> result == Err::<
                (NodeId, NodeId),
                AugGraphError,
            >(e) && final(self)@ == old(self)@,
    {
        if src.eq(&dst) {
            return Err(AugGraphError::SelfReference);
        }
        let src_kind = node_kind_from_prefix(src.as_str());
        let dst_kind = node_kind_from_prefix(dst.as_str());
        match (src_kind, dst_kind) {
            (Some(NodeKind::User), Some(NodeKind::User)) => {
                let src_id = self.register(src, NodeKind::User);
                let dst_id = self.register(dst, NodeKind::User);
                Ok((src_id, dst_id))
            },
            (Some(k), Some(NodeKind::User)) => {
                let dst_id = self.register(dst, NodeKind::User);
                let src_id = self.register_with_owner(src, k, dst_id);
                Ok((src_id, dst_id))
            },
            (Some(NodeKind::User), Some(k)) => {
                let src_id = self.register(src, NodeKind::User);
                let dst_id = self.register(dst, k);
                Ok((src_id, dst_id))
            },
            _ => Err(AugGraphError::IncorrectNodeKinds(src, dst)),
        }
    }

    /// What is known of node `id`.
    pub fn get_by_id(&self, id: NodeId) -> (info: Option<&NodeInfo>)
        ensures
            id < self.id_to_info@.len() ==> info == Some(&self.id_to_info@[id as int]),
            id >= self.id_to_info@.len() ==> info is None,
    {
        if id < self.id_to_info.len() {
            Some(&self.id_to_info[id])
        } else {
            None
        }
    }

    /// What is known of the node named `name`.
    pub fn get_by_name(&self, name: &str) -> (info: Option<&NodeInfo>)
        ensures
            info == (if self.name_to_id@.contains_key(name@) && self.name_to_id@[name@]
                < self.id_to_info@.len() {
                Some(&self.id_to_info@[self.name_to_id@[name@] as int])
            } else {
                None
            }),
    {
        match self.name_to_id.get(name) {
            Some(id) => self.get_by_id(*id),
            None => None,
        }
    }

    /// The ids of the nodes of kind `kind`, in ascending order.
    pub fn nodes_by_kind(&self, kind: NodeKind) -> (ids: Vec<NodeId>)
        ensures
            ids@ == ids_of_kind(self.id_to_info@, kind, self.id_to_info@.len() as int),
    {
        let mut ids: Vec<NodeId> = Vec::new();
        let mut i: usize = 0;
        while i < self.id_to_info.len()
            invariant
                i <= self.id_to_info@.len(),
                ids@ == ids_of_kind(self.id_to_info@, kind, i as int),
            decreases self.id_to_info@.len() - i,
        {
            if self.id_to_info[i].kind == kind {
                ids.push(i);
            }
            i = i + 1;
        }
        ids
    }
}

/// Registering a name a second time, with any kind and owner, gives the id of the
/// first registration and changes nothing.
pub proof fn lemma_register_twice(
    r: RegistryView,
    name: String,
    kind: NodeKind,
    owner: Option<NodeId>,
    again: String,
    kind2: NodeKind,
    owner2: Option<NodeId>,
)
    requires
        again@ == name@,
    ensures
        ({
            let (id, r1) = register_spec(r, name, kind, owner);
            let (id2, r2) = register_spec(r1, again, kind2, owner2);
            id2 == id && r2 == r1
        }),
{
}

} // verus!
