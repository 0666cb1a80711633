//! Mapping a whole host subtree, breadth first.

use crate::error::{MapError, RelativePathError};
use crate::host::{
    applied, child, children, lemma_children_weight, lemma_weight_concat, mapped, named,
    next_level, offspring, seen_of, visit_order, walk, weight, HostNode, Pending, Seen,
};
use crate::node::{copy_bytes, FSNode, NodeModel};
use crate::path::{file_name, final_component, join, joined};
use crate::vfs::VirtualFS;
use std::collections::VecDeque;
use vstd::prelude::*;

verus! {

/// One visit as the observer is told of it: the virtual path and a copy of the
/// node that was stored there.
#[derive(Debug, PartialEq, Eq)]
pub struct Event {
    pub path: String,
    pub node: FSNode,
}

impl View for Event {
    type V = Seen;

    open spec fn view(&self) -> Seen {
        Seen { path: self.path@, node: self.node@ }
    }
}

/// What a log of events tells, in order.
pub open spec fn told(log: Seq<Event>) -> Seq<Seen> {
    Seq::new(log.len(), |i: int| log[i]@)
}

/// The frontier as a level of waiting items.
spec fn waiting(fifo: Seq<(&HostNode, String)>) -> Seq<Pending> {
    Seq::new(fifo.len(), |i: int| Pending { host: *fifo[i].0, path: fifo[i].1@ })
}

/// The order of the visits still to come, when the first `split` items of the
/// frontier are what is left of one level and the others are children of the
/// items of that level that were visited before.
spec fn order_ahead(frontier: Seq<Pending>, split: int) -> Seq<Pending> {
    frontier.take(split) + visit_order(frontier.skip(split) + next_level(frontier.take(split)))
}

/// A frontier made of children alone is a level of its own.
proof fn lemma_new_level(frontier: Seq<Pending>)
    ensures
        order_ahead(frontier, 0) == order_ahead(frontier, frontier.len() as int),
        order_ahead(frontier, 0) == visit_order(frontier),
{
    let none = Seq::<Pending>::empty();
    assert(frontier.take(0) =~= none);
    assert(frontier.skip(0) =~= frontier);
    assert(frontier + next_level(none) =~= frontier);
    assert(none + visit_order(frontier) =~= visit_order(frontier));
    let all = frontier.len() as int;
    assert(frontier.take(all) =~= frontier);
    assert(frontier.skip(all) =~= none);
    assert(none + next_level(frontier) =~= next_level(frontier));
    if frontier.len() == 0 {
        assert(frontier + visit_order(next_level(frontier)) =~= none);
    }
}

/// The visit of the first item of the frontier is the next one, and what is
/// ahead after it is what the frontier without it, with its children behind,
/// has ahead.
proof fn lemma_visit(frontier: Seq<Pending>, split: int)
    requires
        1 <= split <= frontier.len(),
    ensures
        order_ahead(frontier, split).len() > 0,
        order_ahead(frontier, split)[0] == frontier[0],
        order_ahead(frontier, split).drop_first() == order_ahead(
            frontier.drop_first() + children(frontier[0]),
            split - 1,
        ),
{
    let first = frontier[0];
    let after = frontier.drop_first() + children(first);
    let level = frontier.take(split);
    assert(level[0] == first);
    assert(level.drop_first() =~= after.take(split - 1));
    assert(after.skip(split - 1) =~= frontier.skip(split) + children(first));
    assert(frontier.skip(split) + next_level(level) =~= after.skip(split - 1) + next_level(
        after.take(split - 1),
    ));
    assert(order_ahead(frontier, split).drop_first() =~= order_ahead(after, split - 1));
}

/// `applied` stores the last event last.
proof fn lemma_applied_push(mapping: Map<Seq<char>, NodeModel>, events: Seq<Seen>, last: Seen)
    ensures
        applied(mapping, events.push(last)) == applied(mapping, events).insert(
            last.path,
            last.node,
        ),
{
    assert(events.push(last).drop_last() =~= events);
}

impl VirtualFS {
    /// Maps the host subtree `host`, found at the host path `path`, below the
    /// virtual root: the subtree's root under the final component of `path`,
    /// every other node under its parent. The nodes are visited breadth first;
    /// each visit stores one node and adds one event to `log`. The first visit
    /// that fails ends the traversal with its error, and what was stored before
    /// stays stored.
    #[verifier::loop_isolation(false)]
    pub fn map_path(&mut self, path: &str, host: &HostNode, log: &mut Vec<Event>) -> (r: Result<
        (),
        MapError,
    >)
        ensures
            told(final(log)@) == told(old(log)@) + mapped(path@, *host).events,
            final(self)@ == applied(old(self)@, mapped(path@, *host).events),
            match r {
                Ok(_) => mapped(path@, *host).failure is None,
                Err(e) => mapped(path@, *host).failure == Some(e@),
            },
    {
        let ghost goal = mapped(path@, *host);
        let name = match file_name(path) {
            Some(name) => name,
            None => {
                proof {
                    assert(told(log@) + goal.events =~= told(log@));
                }
                return Err(MapError::RelativePath(RelativePathError));
            },
        };
        proof {
            reveal_strlit("/");
            assert("/"@ =~= seq!['/']);
        }
        let root_path = join("/", name.as_str());
        let mut fifo: VecDeque<(&HostNode, String)> = VecDeque::new();
        fifo.push_back((host, root_path));
        let ghost mut done: Seq<Seen> = Seq::empty();
        let ghost mut split: int = 0;
        proof {
            let root = Pending { host: *host, path: joined(seq!['/'], name@) };
            assert(waiting(fifo@) =~= seq![root]);
            lemma_new_level(waiting(fifo@));
            assert(told(log@) + done =~= told(log@));
            assert(done + walk(order_ahead(waiting(fifo@), split)).events =~= goal.events);
        }
        loop
            invariant
                0 <= split <= fifo@.len(),
                told(log@) == told(old(log)@) + done,
                self@ == applied(old(self)@, done),
                goal.events == done + walk(order_ahead(waiting(fifo@), split)).events,
                goal.failure == walk(order_ahead(waiting(fifo@), split)).failure,
            decreases weight(waiting(fifo@)),
        {
            let ghost frontier = waiting(fifo@);
            proof {
                if split == 0 {
                    lemma_new_level(frontier);
                    split = frontier.len() as int;
                }
            }
            let (node, rel_path) = match fifo.pop_front() {
                Some(item) => item,
                None => {
                    proof {
                        assert(frontier =~= Seq::<Pending>::empty());
                        lemma_new_level(frontier);
                        assert(done + Seq::<Seen>::empty() =~= done);
                    }
                    return Ok(());
                },
            };
            let ghost item = Pending { host: *node, path: rel_path@ };
            let ghost rest = waiting(fifo@);
            let ghost ahead = order_ahead(frontier, split);
            let ghost before = done;
            let ghost heard = log@;
            proof {
                assert(frontier[0] == item);
                assert(rest =~= frontier.drop_first());
                lemma_visit(frontier, split);
                lemma_children_weight(item);
                lemma_weight_concat(rest, children(item));
                assert(frontier.drop_first() + Seq::<Pending>::empty() =~= frontier.drop_first());
            }
            match node {
                HostNode::Dir(entries) => {
                    let kept = self.map_dir(rel_path.as_str()).duplicate();
                    log.push(Event { path: rel_path.clone(), node: kept });
                    proof {
                        lemma_applied_push(old(self)@, before, seen_of(item));
                        assert(log@.last()@ == seen_of(item));
                        assert(told(log@) =~= told(heard).push(seen_of(item)));
                        assert(told(log@) =~= told(old(log)@) + before.push(seen_of(item)));
                        done = done.push(seen_of(item));
                    }
                    let mut i: usize = 0;
                    while i < entries.len()
                        invariant
                            i <= entries@.len(),
                            forall|j: int|
                                0 <= j < i ==> final_component(#[trigger] entries@[j].path@) is Some,
                            waiting(fifo@) == rest + offspring(rel_path@, entries@.take(i as int)),
                        decreases entries@.len() - i,
                    {
                        let base = match file_name(entries[i].path.as_str()) {
                            Some(base) => base,
                            None => {
                                proof {
                                    assert(!named(entries@));
                                    assert(walk(ahead).events =~= seq![seen_of(item)]);
                                    assert(before + seq![seen_of(item)] =~= done);
                                }
                                return Err(MapError::RelativePath(RelativePathError));
                            },
                        };
                        let below = join(rel_path.as_str(), base.as_str());
                        let ghost queued = fifo@;
                        fifo.push_back((&entries[i].node, below));
                        i = i + 1;
                        proof {
                            let entry = entries@[i - 1];
                            assert(entries@.take(i as int) =~= entries@.take(i - 1).push(entry));
                            assert(fifo@ == queued.push((&entries@[i - 1].node, below)));
                            assert(waiting(fifo@) =~= waiting(queued).push(
                                child(rel_path@, entry),
                            ));
                            assert(offspring(rel_path@, entries@.take(i as int)) =~= offspring(
                                rel_path@,
                                entries@.take(i - 1),
                            ).push(child(rel_path@, entry)));
                            assert(waiting(fifo@) =~= rest + offspring(
                                rel_path@,
                                entries@.take(i as int),
                            ));
                        }
                    }
                    proof {
                        assert(entries@.take(i as int) =~= entries@);
                        assert(named(entries@));
                        assert(children(item) == offspring(rel_path@, entries@));
                        split = split - 1;
                        assert(before + (seq![seen_of(item)] + walk(ahead.drop_first()).events)
                            =~= done + walk(ahead.drop_first()).events);
                    }
                },
                HostNode::Unlistable(e) => {
                    let kept = self.map_dir(rel_path.as_str()).duplicate();
                    log.push(Event { path: rel_path.clone(), node: kept });
                    proof {
                        lemma_applied_push(old(self)@, before, seen_of(item));
                        assert(log@.last()@ == seen_of(item));
                        assert(told(log@) =~= told(heard).push(seen_of(item)));
                        assert(told(log@) =~= told(old(log)@) + before.push(seen_of(item)));
                        assert(walk(ahead).events =~= seq![seen_of(item)]);
                        assert(before + seq![seen_of(item)] =~= before.push(seen_of(item)));
                    }
                    return Err(MapError::List(e.duplicate()));
                },
                HostNode::File(bytes) => {
                    let read = Ok(copy_bytes(bytes.as_slice()));
                    let kept = match self.map_file(read, rel_path.as_str()) {
                        Ok(node) => node.duplicate(),
                        Err(e) => {
                            return Err(MapError::Read(e));
                        },
                    };
                    log.push(Event { path: rel_path.clone(), node: kept });
                    proof {
                        lemma_applied_push(old(self)@, before, seen_of(item));
                        assert(log@.last()@ == seen_of(item));
                        assert(told(log@) =~= told(heard).push(seen_of(item)));
                        assert(told(log@) =~= told(old(log)@) + before.push(seen_of(item)));
                        assert(before + (seq![seen_of(item)] + walk(ahead.drop_first()).events)
                            =~= before.push(seen_of(item)) + walk(ahead.drop_first()).events);
                        done = done.push(seen_of(item));
                        split = split - 1;
                    }
                },
                HostNode::Unreadable(e) => {
                    let read = Err(e.duplicate());
                    match self.map_file(read, rel_path.as_str()) {
                        Ok(_) => {},
                        Err(e) => {
                            proof {
                                assert(done + Seq::<Seen>::empty() =~= done);
                            }
                            return Err(MapError::Read(e));
                        },
                    }
                },
            }
        }
    }
}

} // verus!
