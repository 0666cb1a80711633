//! A snapshot of a host subtree, and the order in which a traversal visits it.

use crate::error::{FailureModel, HostError};
use crate::node::NodeModel;
use crate::path::{final_component, joined};
use vstd::prelude::*;

verus! {

/// What the host holds at one path, as it was when the snapshot was taken.
#[derive(Debug, PartialEq, Eq)]
pub enum HostNode {
    /// A file that reads to its end, with its bytes.
    File(Vec<u8>),
    /// A file that cannot be opened or read to its end.
    Unreadable(HostError),
    /// A directory with its children, in the order in which the host lists them.
    Dir(Vec<HostEntry>),
    /// A directory whose children cannot be listed.
    Unlistable(HostError),
}

/// A child of a host directory: its host path and what the host holds there.
#[derive(Debug, PartialEq, Eq)]
pub struct HostEntry {
    pub path: String,
    pub node: HostNode,
}

/// A host node that waits for its visit, with the virtual path it will get.
pub struct Pending {
    pub host: HostNode,
    pub path: Seq<char>,
}

/// What an observer is told of one visit: the virtual path and the node stored there.
pub struct Seen {
    pub path: Seq<char>,
    pub node: NodeModel,
}

/// What a traversal did: what it told its observer, in order, and why it
/// stopped early, if it did.
pub struct Outcome {
    pub events: Seq<Seen>,
    pub failure: Option<FailureModel>,
}

/// The number of files and directories in a host subtree.
pub open spec fn size(node: HostNode) -> nat
    decreases node,
{
    match node {
        HostNode::Dir(entries) => 1 + sizes(entries@),
        _ => 1,
    }
}

/// The number of files and directories in the subtrees of `entries`.
pub open spec fn sizes(entries: Seq<HostEntry>) -> nat
    decreases entries,
{
    if entries.len() == 0 {
        0
    } else {
        size(entries[0].node) + sizes(entries.drop_first())
    }
}

/// The number of files and directories in the subtrees that wait in `level`.
pub open spec fn weight(level: Seq<Pending>) -> nat
    decreases level.len(),
{
    if level.len() == 0 {
        0
    } else {
        size(level[0].host) + weight(level.drop_first())
    }
}

/// Every entry has a host path with a final component.
pub open spec fn named(entries: Seq<HostEntry>) -> bool {
    forall|i: int| 0 <= i < entries.len() ==> final_component(#[trigger] entries[i].path@) is Some
}

/// The entry as it waits below the virtual path `base`: under its final component.
pub open spec fn child(base: Seq<char>, entry: HostEntry) -> Pending {
    Pending { host: entry.node, path: joined(base, final_component(entry.path@)->0) }
}

/// The entries as they wait below the virtual path `base`, in their order.
pub open spec fn offspring(base: Seq<char>, entries: Seq<HostEntry>) -> Seq<Pending> {
    Seq::new(entries.len(), |i: int| child(base, entries[i]))
}

/// What a visit adds to the frontier: the children of a directory that could be
/// listed and whose children all have a final component; nothing otherwise.
pub open spec fn children(item: Pending) -> Seq<Pending> {
    match item.host {
        HostNode::Dir(entries) => if named(entries@) {
            offspring(item.path, entries@)
        } else {
            Seq::empty()
        },
        _ => Seq::empty(),
    }
}

/// The children of all items of a level, in the order of their parents.
pub open spec fn next_level(level: Seq<Pending>) -> Seq<Pending>
    decreases level.len(),
{
    if level.len() == 0 {
        Seq::empty()
    } else {
        children(level[0]) + next_level(level.drop_first())
    }
}

/// Breadth-first order: a level is visited whole, in its order, and then the
/// level of all its children.
pub open spec fn visit_order(level: Seq<Pending>) -> Seq<Pending>
    decreases weight(level),
    via visit_order_decreases
{
    if level.len() == 0 {
        Seq::empty()
    } else {
        level + visit_order(next_level(level))
    }
}

#[via_fn]
proof fn visit_order_decreases(level: Seq<Pending>) {
    lemma_next_level_weight(level);
}

/// Why the visit of an item stops the traversal, if it does: a file that
/// cannot be read, a directory that cannot be listed, or one with a child
/// whose host path has no final component.
pub open spec fn failure_of(item: Pending) -> Option<FailureModel> {
    match item.host {
        HostNode::File(_) => None,
        HostNode::Unreadable(e) => Some(FailureModel::Read(e@)),
        HostNode::Dir(entries) => if named(entries@) {
            None
        } else {
            Some(FailureModel::RelativePath)
        },
        HostNode::Unlistable(e) => Some(FailureModel::List(e@)),
    }
}

/// Whether the visit of an item stores a node: every visit but that of a file
/// that cannot be read. A directory is stored before its children are listed.
pub open spec fn stored(item: Pending) -> bool {
    !(item.host is Unreadable)
}

/// What the visit of an item stores, and tells the observer.
pub open spec fn seen_of(item: Pending) -> Seen {
    match item.host {
        HostNode::File(bytes) => Seen { path: item.path, node: NodeModel::File(bytes@) },
        _ => Seen { path: item.path, node: NodeModel::Dir },
    }
}

/// What comes of visiting `order` item by item until one stops the traversal.
pub open spec fn walk(order: Seq<Pending>) -> Outcome
    decreases order.len(),
{
    if order.len() == 0 {
        Outcome { events: Seq::empty(), failure: None }
    } else if failure_of(order[0]) is Some {
        Outcome {
            events: if stored(order[0]) {
                seq![seen_of(order[0])]
            } else {
                Seq::empty()
            },
            failure: failure_of(order[0]),
        }
    } else {
        let rest = walk(order.drop_first());
        Outcome { events: seq![seen_of(order[0])] + rest.events, failure: rest.failure }
    }
}

/// What comes of mapping the host subtree `host`, found at the host path
/// `path`: nothing but a failure where `path` has no final component, else a
/// breadth-first walk from the root, which waits under that component.
pub open spec fn mapped(path: Seq<char>, host: HostNode) -> Outcome {
    match final_component(path) {
        None => Outcome { events: Seq::empty(), failure: Some(FailureModel::RelativePath) },
        Some(name) => walk(
            visit_order(seq![Pending { host, path: joined(seq!['/'], name) }]),
        ),
    }
}

/// A mapping after the nodes of `events` were stored in it, one after the other.
pub open spec fn applied(mapping: Map<Seq<char>, NodeModel>, events: Seq<Seen>) -> Map<
    Seq<char>,
    NodeModel,
>
    decreases events.len(),
{
    if events.len() == 0 {
        mapping
    } else {
        applied(mapping, events.drop_last()).insert(events.last().path, events.last().node)
    }
}

/// What the visits of `items` store, in order.
pub open spec fn seen_all(items: Seq<Pending>) -> Seq<Seen> {
    Seq::new(items.len(), |i: int| seen_of(items[i]))
}

/// A subtree in which every file can be read, every directory can be listed,
/// and every child has a host path with a final component.
pub open spec fn sound(node: HostNode) -> bool
    decreases node,
{
    match node {
        HostNode::File(_) => true,
        HostNode::Dir(entries) => named(entries@) && forall|i: int|
            0 <= i < entries@.len() ==> sound(#[trigger] entries@[i].node),
        _ => false,
    }
}

/// The weight of two levels in a row is the sum of their weights.
pub proof fn lemma_weight_concat(a: Seq<Pending>, b: Seq<Pending>)
    ensures
        weight(a + b) == weight(a) + weight(b),
    decreases a.len(),
{
    if a.len() == 0 {
        assert(a + b =~= b);
    } else {
        assert((a + b).drop_first() =~= a.drop_first() + b);
        lemma_weight_concat(a.drop_first(), b);
    }
}

/// The children of a directory weigh what the directory holds below itself.
pub proof fn lemma_offspring_weight(base: Seq<char>, entries: Seq<HostEntry>)
    ensures
        weight(offspring(base, entries)) == sizes(entries),
    decreases entries.len(),
{
    if entries.len() > 0 {
        assert(offspring(base, entries).drop_first() =~= offspring(base, entries.drop_first()));
        lemma_offspring_weight(base, entries.drop_first());
    }
}

/// A visit takes one from the weight of its item and leaves the rest to the children.
pub proof fn lemma_children_weight(item: Pending)
    ensures
        weight(children(item)) < size(item.host),
        failure_of(item) is None ==> weight(children(item)) + 1 == size(item.host),
{
    match item.host {
        HostNode::Dir(entries) => {
            if named(entries@) {
                lemma_offspring_weight(item.path, entries@);
            }
        },
        _ => {},
    }
}

/// The next level is lighter than its level by at least the number of its items.
pub proof fn lemma_next_level_weight(level: Seq<Pending>)
    ensures
        weight(next_level(level)) + level.len() <= weight(level),
    decreases level.len(),
{
    if level.len() > 0 {
        lemma_children_weight(level[0]);
        lemma_next_level_weight(level.drop_first());
        lemma_weight_concat(children(level[0]), next_level(level.drop_first()));
    }
}

} // verus!
