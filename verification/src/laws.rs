//! What holds of the virtual filesystem whatever is mapped into it.

use crate::error::FailureModel;
use crate::host::{
    applied, children, failure_of, lemma_children_weight, lemma_next_level_weight,
    lemma_weight_concat, mapped, next_level, seen_all, seen_of, size, sound, stored, visit_order,
    walk, weight, HostNode, Pending, Seen,
};
use crate::node::NodeModel;
use crate::path::{final_component, joined, lemma_final_component_is_name, rooted};
use crate::vfs::file_at;
use vstd::prelude::*;

verus! {

/// A file that was mapped reads back byte for byte.
pub proof fn lemma_mapped_file_reads_back(
    mapping: Map<Seq<char>, NodeModel>,
    path: Seq<char>,
    bytes: Seq<u8>,
)
    ensures
        file_at(mapping.insert(path, NodeModel::File(bytes)), path) == Some(bytes),
{
}

/// A path that was mapped as a directory reads as absent, and so does a path
/// that was never mapped.
pub proof fn lemma_directory_and_unmapped_read_absent(
    mapping: Map<Seq<char>, NodeModel>,
    path: Seq<char>,
)
    ensures
        file_at(mapping.insert(path, NodeModel::Dir), path) is None,
        !mapping.contains_key(path) ==> file_at(mapping, path) is None,
{
}

/// Mapping a path a second time leaves the second node alone visible there,
/// changes nothing elsewhere, and adds no pair.
pub proof fn lemma_remapping_replaces(
    mapping: Map<Seq<char>, NodeModel>,
    path: Seq<char>,
    first: NodeModel,
    second: NodeModel,
)
    requires
        mapping.dom().finite(),
    ensures
        mapping.insert(path, first).insert(path, second) == mapping.insert(path, second),
        mapping.insert(path, first).insert(path, second)[path] == second,
        mapping.insert(path, first).insert(path, second).len() == mapping.insert(
            path,
            first,
        ).len(),
{
    assert(mapping.insert(path, first).insert(path, second) =~= mapping.insert(path, second));
    assert(mapping.insert(path, first).dom().insert(path) =~= mapping.insert(path, first).dom());
}

/// A host path without a final component maps nothing: the traversal fails
/// with the relative-path error before anything is stored or told.
pub proof fn lemma_unnamed_path_maps_nothing(
    mapping: Map<Seq<char>, NodeModel>,
    path: Seq<char>,
    host: HostNode,
)
    requires
        final_component(path) is None,
    ensures
        mapped(path, host).failure == Some(FailureModel::RelativePath),
        mapped(path, host).events.len() == 0,
        applied(mapping, mapped(path, host).events) == mapping,
{
}

/// The root and the empty path have no final component.
pub proof fn lemma_root_and_empty_are_unnamed()
    ensures
        final_component(seq!['/']) is None,
        final_component(Seq::<char>::empty()) is None,
{
    let root = seq!['/'];
    assert(root.last() == '/');
    assert(root.skip(1) =~= Seq::<char>::empty());
    assert(root.take(0) =~= Seq::<char>::empty());
}

/// The root of a traversal waits directly under the virtual root: at a
/// separator followed by the final component of the host path, which holds no
/// separator. Nothing else of the host path is kept.
pub proof fn lemma_root_is_one_segment(path: Seq<char>)
    requires
        final_component(path) is Some,
    ensures
        joined(seq!['/'], final_component(path)->0) == seq!['/'] + final_component(path)->0,
        rooted(joined(seq!['/'], final_component(path)->0)),
        forall|j: int|
            0 <= j < final_component(path)->0.len() ==> final_component(path)->0[j] != '/',
{
    lemma_final_component_is_name(path);
    let name = final_component(path)->0;
    let root = seq!['/'] + name;
    assert(seq!['/'].last() == '/');
    assert(root.last() == name.last());
}

/// A child waits at the virtual path of its parent, a separator, and the final
/// component of its own host path.
pub proof fn lemma_child_is_below_its_parent(item: Pending, k: int)
    requires
        rooted(item.path),
        0 <= k < children(item).len(),
    ensures
        item.host is Dir,
        k < item.host->Dir_0@.len(),
        children(item)[k].host == item.host->Dir_0@[k].node,
        children(item)[k].path == item.path + seq!['/'] + final_component(
            item.host->Dir_0@[k].path@,
        )->0,
        rooted(children(item)[k].path),
{
    let entry = item.host->Dir_0@[k];
    lemma_final_component_is_name(entry.path@);
    let name = final_component(entry.path@)->0;
    let below = item.path + seq!['/'] + name;
    assert(below.last() == name.last());
    assert(below[0] == item.path[0]);
}

/// Every visit of a traversal is at a virtual path of the right shape.
pub proof fn lemma_visited_paths_are_rooted(level: Seq<Pending>)
    requires
        forall|i: int| 0 <= i < level.len() ==> rooted(#[trigger] level[i].path),
    ensures
        forall|j: int|
            0 <= j < visit_order(level).len() ==> rooted(#[trigger] visit_order(level)[j].path),
    decreases weight(level),
{
    if level.len() > 0 {
        let below = next_level(level);
        lemma_next_level_weight(level);
        lemma_next_level_is_rooted(level);
        lemma_visited_paths_are_rooted(below);
        let order = visit_order(level);
        assert forall|j: int| 0 <= j < order.len() implies rooted(#[trigger] order[j].path) by {
            if j >= level.len() {
                assert(order[j] == visit_order(below)[j - level.len()]);
            }
        }
    }
}

/// The children of items at virtual paths of the right shape wait at such paths.
pub proof fn lemma_next_level_is_rooted(level: Seq<Pending>)
    requires
        forall|i: int| 0 <= i < level.len() ==> rooted(#[trigger] level[i].path),
    ensures
        forall|t: int|
            0 <= t < next_level(level).len() ==> rooted(#[trigger] next_level(level)[t].path),
    decreases level.len(),
{
    if level.len() > 0 {
        let rest = level.drop_first();
        let first = children(level[0]);
        assert forall|i: int| 0 <= i < rest.len() implies rooted(#[trigger] rest[i].path) by {
            assert(rest[i] == level[i + 1]);
        }
        lemma_next_level_is_rooted(rest);
        assert forall|t: int| 0 <= t < next_level(level).len() implies rooted(
            #[trigger] next_level(level)[t].path,
        ) by {
            if t < first.len() {
                lemma_child_is_below_its_parent(level[0], t);
                assert(next_level(level)[t] == first[t]);
            } else {
                assert(next_level(level)[t] == next_level(rest)[t - first.len()]);
            }
        }
    }
}

/// As long as no visit fails, a walk stores what each visit stores, in order.
pub proof fn lemma_walk_before_failure(order: Seq<Pending>, k: int)
    requires
        0 <= k <= order.len(),
        forall|j: int| 0 <= j < k ==> failure_of(#[trigger] order[j]) is None,
    ensures
        walk(order).events == seen_all(order.take(k)) + walk(order.skip(k)).events,
        walk(order).failure == walk(order.skip(k)).failure,
    decreases k,
{
    if k == 0 {
        assert(order.skip(0) =~= order);
        assert(seen_all(order.take(0)) + walk(order).events =~= walk(order).events);
    } else {
        let rest = order.drop_first();
        assert(failure_of(order[0]) is None);
        assert forall|j: int| 0 <= j < k - 1 implies failure_of(#[trigger] rest[j]) is None by {
            assert(rest[j] == order[j + 1]);
        }
        lemma_walk_before_failure(rest, k - 1);
        assert(rest.skip(k - 1) =~= order.skip(k));
        assert(seq![seen_of(order[0])] + seen_all(rest.take(k - 1)) =~= seen_all(order.take(k)));
        assert(seq![seen_of(order[0])] + (seen_all(rest.take(k - 1)) + walk(
            order.skip(k),
        ).events) =~= seen_all(order.take(k)) + walk(order.skip(k)).events);
    }
}

/// A walk ends at the first visit that fails, with the failure of that visit.
/// It has stored what the visits before it store, and what the failing visit
/// stores where it stores anything; of the items behind it, nothing.
pub proof fn lemma_walk_stops_at_first_failure(order: Seq<Pending>, k: int)
    requires
        0 <= k < order.len(),
        forall|j: int| 0 <= j < k ==> failure_of(#[trigger] order[j]) is None,
        failure_of(order[k]) is Some,
    ensures
        walk(order).failure == failure_of(order[k]),
        stored(order[k]) ==> walk(order).events == seen_all(order.take(k + 1)),
        !stored(order[k]) ==> walk(order).events == seen_all(order.take(k)),
{
    lemma_walk_before_failure(order, k);
    let tail = order.skip(k);
    assert(tail[0] == order[k]);
    if stored(order[k]) {
        assert(seen_all(order.take(k)) + seq![seen_of(order[k])] =~= seen_all(order.take(k + 1)));
    } else {
        assert(seen_all(order.take(k)) + Seq::<Seen>::empty() =~= seen_all(order.take(k)));
    }
}

/// A walk in which no visit fails stores what every visit stores, and does not fail.
pub proof fn lemma_walk_without_failure(order: Seq<Pending>)
    requires
        forall|j: int| 0 <= j < order.len() ==> failure_of(#[trigger] order[j]) is None,
    ensures
        walk(order).failure is None,
        walk(order).events == seen_all(order),
{
    lemma_walk_before_failure(order, order.len() as int);
    assert(order.skip(order.len() as int) =~= Seq::<Pending>::empty());
    assert(order.take(order.len() as int) =~= order);
    assert(seen_all(order) + Seq::<Seen>::empty() =~= seen_all(order));
}

/// Every path that was stored is in the mapping afterwards, and every other
/// path is as it was before: present with the same node, or absent.
pub proof fn lemma_applied_touches_its_paths_alone(
    mapping: Map<Seq<char>, NodeModel>,
    events: Seq<Seen>,
    path: Seq<char>,
)
    ensures
        (exists|i: int| 0 <= i < events.len() && (#[trigger] events[i]).path == path) ==> applied(
            mapping,
            events,
        ).contains_key(path),
        (forall|i: int| 0 <= i < events.len() ==> (#[trigger] events[i]).path != path) ==> {
            &&& applied(mapping, events).contains_key(path) == mapping.contains_key(path)
            &&& mapping.contains_key(path) ==> applied(mapping, events)[path] == mapping[path]
        },
    decreases events.len(),
{
    if events.len() > 0 {
        let rest = events.drop_last();
        lemma_applied_touches_its_paths_alone(mapping, rest, path);
        if exists|i: int| 0 <= i < events.len() && (#[trigger] events[i]).path == path {
            let i = choose|i: int| 0 <= i < events.len() && (#[trigger] events[i]).path == path;
            if i < rest.len() {
                assert(rest[i].path == path);
            }
        }
        if forall|i: int| 0 <= i < events.len() ==> (#[trigger] events[i]).path != path {
            assert forall|i: int| 0 <= i < rest.len() implies (#[trigger] rest[i]).path != path by {
                assert(rest[i] == events[i]);
            }
            assert(events[events.len() - 1].path != path);
        }
    }
}

/// A traversal that a file which cannot be read stops has stored every node
/// that was visited before that file, and has stored nothing at the path of
/// that file or of an item behind it, unless a visit before stored there:
/// such a path is as it was before the traversal.
pub proof fn lemma_unreadable_file_leaves_earlier_visits(
    mapping: Map<Seq<char>, NodeModel>,
    order: Seq<Pending>,
    k: int,
    path: Seq<char>,
)
    requires
        0 <= k < order.len(),
        forall|j: int| 0 <= j < k ==> failure_of(#[trigger] order[j]) is None,
        order[k].host is Unreadable,
    ensures
        walk(order).failure == failure_of(order[k]),
        walk(order).events == seen_all(order.take(k)),
        forall|j: int|
            0 <= j < k ==> applied(mapping, walk(order).events).contains_key(
                (#[trigger] order[j]).path,
            ),
        (forall|j: int| 0 <= j < k ==> (#[trigger] order[j]).path != path) ==> {
            &&& applied(mapping, walk(order).events).contains_key(path) == mapping.contains_key(
                path,
            )
            &&& mapping.contains_key(path) ==> applied(mapping, walk(order).events)[path]
                == mapping[path]
        },
{
    lemma_walk_stops_at_first_failure(order, k);
    let events = walk(order).events;
    assert forall|j: int| 0 <= j < k implies applied(mapping, events).contains_key(
        (#[trigger] order[j]).path,
    ) by {
        assert(events[j].path == order[j].path);
        lemma_applied_touches_its_paths_alone(mapping, events, order[j].path);
    }
    if forall|j: int| 0 <= j < k ==> (#[trigger] order[j]).path != path {
        assert forall|i: int| 0 <= i < events.len() implies (#[trigger] events[i]).path != path by {
            assert(events[i].path == order[i].path);
        }
        lemma_applied_touches_its_paths_alone(mapping, events, path);
    }
}

/// The children of an item of a level stand in the next level.
pub proof fn lemma_children_in_next_level(level: Seq<Pending>, i: int, k: int)
    requires
        0 <= i < level.len(),
        0 <= k < children(level[i]).len(),
    ensures
        exists|t: int|
            0 <= t < next_level(level).len() && #[trigger] next_level(level)[t] == children(
                level[i],
            )[k],
    decreases level.len(),
{
    let rest = level.drop_first();
    if i == 0 {
        assert(next_level(level)[k] == children(level[0])[k]);
    } else {
        assert(rest[i - 1] == level[i]);
        lemma_children_in_next_level(rest, i - 1, k);
        let t = choose|t: int|
            0 <= t < next_level(rest).len() && #[trigger] next_level(rest)[t] == children(
                level[i],
            )[k];
        let shift = children(level[0]).len() as int;
        assert(next_level(level)[shift + t] == children(level[i])[k]);
    }
}

/// Breadth first: each child of a visited item is visited later than the item.
pub proof fn lemma_children_are_visited_later(level: Seq<Pending>, i: int, k: int)
    requires
        0 <= i < visit_order(level).len(),
        0 <= k < children(visit_order(level)[i]).len(),
    ensures
        exists|j: int|
            i < j < visit_order(level).len() && #[trigger] visit_order(level)[j] == children(
                visit_order(level)[i],
            )[k],
    decreases weight(level),
{
    let order = visit_order(level);
    let below = next_level(level);
    let later = visit_order(below);
    let n = level.len() as int;
    lemma_next_level_weight(level);
    assert(order == level + later);
    if i < n {
        lemma_children_in_next_level(level, i, k);
        let t = choose|t: int|
            0 <= t < below.len() && #[trigger] below[t] == children(level[i])[k];
        assert(later == below + visit_order(next_level(below)));
        assert(later[t] == below[t]);
        assert(order[n + t] == later[t]);
    } else {
        assert(order[i] == later[i - n]);
        lemma_children_are_visited_later(below, i - n, k);
        let j = choose|j: int|
            i - n < j < later.len() && #[trigger] later[j] == children(later[i - n])[k];
        assert(order[n + j] == later[j]);
    }
}

/// In a traversal of sound subtrees every file and directory is visited: the
/// order has one visit for each of them, and none of the visits fails.
pub proof fn lemma_sound_level_is_visited_whole(level: Seq<Pending>)
    requires
        forall|i: int| 0 <= i < level.len() ==> sound(#[trigger] level[i].host),
    ensures
        visit_order(level).len() == weight(level),
        forall|j: int|
            0 <= j < visit_order(level).len() ==> sound(#[trigger] visit_order(level)[j].host),
        forall|j: int|
            0 <= j < visit_order(level).len() ==> failure_of(#[trigger] visit_order(level)[j])
                is None,
    decreases weight(level),
{
    if level.len() > 0 {
        let below = next_level(level);
        lemma_next_level_weight(level);
        lemma_sound_next_level(level);
        lemma_sound_level_is_visited_whole(below);
        let order = visit_order(level);
        assert(order == level + visit_order(below));
        assert forall|j: int| 0 <= j < order.len() implies sound(#[trigger] order[j].host) by {
            if j >= level.len() {
                assert(order[j] == visit_order(below)[j - level.len()]);
            }
        }
    }
}

/// The next level of a level of sound subtrees is made of sound subtrees, and
/// weighs what the level weighs without its own items.
pub proof fn lemma_sound_next_level(level: Seq<Pending>)
    requires
        forall|i: int| 0 <= i < level.len() ==> sound(#[trigger] level[i].host),
    ensures
        forall|t: int|
            0 <= t < next_level(level).len() ==> sound(#[trigger] next_level(level)[t].host),
        weight(next_level(level)) + level.len() == weight(level),
    decreases level.len(),
{
    if level.len() > 0 {
        let rest = level.drop_first();
        let first = children(level[0]);
        assert forall|i: int| 0 <= i < rest.len() implies sound(#[trigger] rest[i].host) by {
            assert(rest[i] == level[i + 1]);
        }
        lemma_sound_next_level(rest);
        assert(sound(level[0].host));
        lemma_children_weight(level[0]);
        lemma_weight_concat(first, next_level(rest));
        assert forall|t: int| 0 <= t < next_level(level).len() implies sound(
            #[trigger] next_level(level)[t].host,
        ) by {
            if t < first.len() {
                assert(next_level(level)[t] == first[t]);
            } else {
                assert(next_level(level)[t] == next_level(rest)[t - first.len()]);
            }
        }
    }
}

/// Mapping a sound subtree at a path with a final component does not fail,
/// and tells the observer once of each file and directory of the subtree, in
/// breadth-first order, the root first.
pub proof fn lemma_sound_subtree_is_mapped_whole(path: Seq<char>, host: HostNode)
    requires
        final_component(path) is Some,
        sound(host),
    ensures
        mapped(path, host).failure is None,
        mapped(path, host).events.len() == size(host),
        mapped(path, host).events == seen_all(
            visit_order(seq![Pending { host, path: joined(seq!['/'], final_component(path)->0) }]),
        ),
        mapped(path, host).events[0].path == joined(seq!['/'], final_component(path)->0),
{
    let root = Pending { host, path: joined(seq!['/'], final_component(path)->0) };
    let level = seq![root];
    lemma_sound_level_is_visited_whole(level);
    lemma_walk_without_failure(visit_order(level));
    assert(level.drop_first() =~= Seq::<Pending>::empty());
    assert(weight(level.drop_first()) == 0);
    assert(level[0] == root);
    assert(weight(level) == size(host));
    assert(visit_order(level)[0] == root);
}

} // verus!
