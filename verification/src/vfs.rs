//! The virtual filesystem: an ordered mapping from virtual paths to nodes.

use crate::error::HostError;
use crate::node::{FSNode, NodeModel};
use crate::order::{lemma_path_order, path_before, place_of, Place};
use vstd::prelude::*;

verus! {

/// One stored pair.
struct Entry {
    path: String,
    node: FSNode,
}

/// The paths of `entries` rise strictly in the path order.
spec fn rising(entries: Seq<Entry>) -> bool {
    forall|i: int, j: int|
        0 <= i < j < entries.len() ==> path_before(
            #[trigger] entries[i].path@,
            #[trigger] entries[j].path@,
        )
}

/// Some entry of `entries` has the path `key`.
spec fn holds(entries: Seq<Entry>, key: Seq<char>) -> bool {
    exists|i: int| 0 <= i < entries.len() && #[trigger] entries[i].path@ == key
}

/// The mapping that a sequence of entries stands for.
spec fn mapping_of(entries: Seq<Entry>) -> Map<Seq<char>, NodeModel> {
    Map::new(
        |key: Seq<char>| holds(entries, key),
        |key: Seq<char>|
            entries[choose|i: int| 0 <= i < entries.len() && #[trigger] entries[i].path@ == key].node@,
    )
}

/// The bytes that a mapping gives for `path`: those of the file stored there, if one is.
pub open spec fn file_at(mapping: Map<Seq<char>, NodeModel>, path: Seq<char>) -> Option<Seq<u8>> {
    if mapping.contains_key(path) {
        match mapping[path] {
            NodeModel::File(bytes) => Some(bytes),
            NodeModel::Dir => None,
        }
    } else {
        None
    }
}

/// In a rising sequence every entry is what the mapping gives for its path.
proof fn lemma_mapping_at(entries: Seq<Entry>, i: int)
    requires
        rising(entries),
        0 <= i < entries.len(),
    ensures
        mapping_of(entries).contains_key(entries[i].path@),
        mapping_of(entries)[entries[i].path@] == entries[i].node@,
{
    let key = entries[i].path@;
    let j = choose|j: int| 0 <= j < entries.len() && #[trigger] entries[j].path@ == key;
    lemma_path_order(key, key, key);
    if j < i {
        assert(path_before(entries[j].path@, entries[i].path@));
    } else if i < j {
        assert(path_before(entries[i].path@, entries[j].path@));
    }
}

/// Putting an entry between those before its path and those after it keeps the
/// sequence rising, and adds exactly that pair to the mapping.
proof fn lemma_mapping_insert(entries: Seq<Entry>, at: int, entry: Entry)
    requires
        rising(entries),
        0 <= at <= entries.len(),
        forall|j: int| 0 <= j < at ==> path_before(#[trigger] entries[j].path@, entry.path@),
        forall|j: int|
            at <= j < entries.len() ==> path_before(entry.path@, #[trigger] entries[j].path@),
    ensures
        rising(entries.insert(at, entry)),
        mapping_of(entries.insert(at, entry)) == mapping_of(entries).insert(
            entry.path@,
            entry.node@,
        ),
{
    let grown = entries.insert(at, entry);
    assert forall|i: int, j: int| 0 <= i < j < grown.len() implies path_before(
        #[trigger] grown[i].path@,
        #[trigger] grown[j].path@,
    ) by {
        let oi = if i < at { i } else { i - 1 };
        let oj = if j < at { j } else { j - 1 };
        if i == at {
            assert(grown[j] == entries[oj]);
        } else if j == at {
            assert(grown[i] == entries[oi]);
        } else {
            assert(grown[i] == entries[oi]);
            assert(grown[j] == entries[oj]);
            assert(path_before(entries[oi].path@, entries[oj].path@));
        }
    }
    let before = mapping_of(entries);
    let after = mapping_of(grown);
    let want = before.insert(entry.path@, entry.node@);
    assert forall|key: Seq<char>| after.contains_key(key) <==> want.contains_key(key) by {
        if after.contains_key(key) {
            let i = choose|i: int| 0 <= i < grown.len() && #[trigger] grown[i].path@ == key;
            if i != at {
                let oi = if i < at { i } else { i - 1 };
                assert(grown[i] == entries[oi]);
                assert(entries[oi].path@ == key);
            }
        }
        if want.contains_key(key) {
            if key == entry.path@ {
                assert(grown[at].path@ == key);
            } else {
                let i = choose|i: int| 0 <= i < entries.len() && #[trigger] entries[i].path@ == key;
                let ni = if i < at { i } else { i + 1 };
                assert(grown[ni] == entries[i]);
                assert(grown[ni].path@ == key);
            }
        }
    }
    assert forall|key: Seq<char>| after.contains_key(key) implies after[key] == want[key] by {
        if key == entry.path@ {
            lemma_mapping_at(grown, at);
        } else {
            let i = choose|i: int| 0 <= i < entries.len() && #[trigger] entries[i].path@ == key;
            let ni = if i < at { i } else { i + 1 };
            assert(grown[ni] == entries[i]);
            lemma_mapping_at(entries, i);
            lemma_mapping_at(grown, ni);
        }
    }
    assert(after =~= want);
}

/// Replacing the node of an entry keeps the sequence rising, and changes the
/// mapping at that path alone.
proof fn lemma_mapping_update(entries: Seq<Entry>, at: int, entry: Entry)
    requires
        rising(entries),
        0 <= at < entries.len(),
        entries[at].path@ == entry.path@,
    ensures
        rising(entries.update(at, entry)),
        mapping_of(entries.update(at, entry)) == mapping_of(entries).insert(
            entry.path@,
            entry.node@,
        ),
{
    let changed = entries.update(at, entry);
    assert forall|i: int, j: int| 0 <= i < j < changed.len() implies path_before(
        #[trigger] changed[i].path@,
        #[trigger] changed[j].path@,
    ) by {
        assert(changed[i].path@ == entries[i].path@);
        assert(changed[j].path@ == entries[j].path@);
        assert(path_before(entries[i].path@, entries[j].path@));
    }
    let before = mapping_of(entries);
    let after = mapping_of(changed);
    let want = before.insert(entry.path@, entry.node@);
    assert forall|key: Seq<char>| after.contains_key(key) <==> want.contains_key(key) by {
        if after.contains_key(key) {
            let i = choose|i: int| 0 <= i < changed.len() && #[trigger] changed[i].path@ == key;
            assert(entries[i].path@ == key);
        }
        if want.contains_key(key) {
            if key == entry.path@ {
                assert(changed[at].path@ == key);
            } else {
                let i = choose|i: int| 0 <= i < entries.len() && #[trigger] entries[i].path@ == key;
                assert(changed[i].path@ == key);
            }
        }
    }
    assert forall|key: Seq<char>| after.contains_key(key) implies after[key] == want[key] by {
        if key == entry.path@ {
            lemma_mapping_at(changed, at);
        } else {
            let i = choose|i: int| 0 <= i < entries.len() && #[trigger] entries[i].path@ == key;
            assert(changed[i] == entries[i]);
            lemma_mapping_at(entries, i);
            lemma_mapping_at(changed, i);
        }
    }
    assert(after =~= want);
}

/// A rising sequence stands for a finite mapping with one pair for each entry.
proof fn lemma_mapping_len(entries: Seq<Entry>)
    requires
        rising(entries),
    ensures
        mapping_of(entries).dom().finite(),
        mapping_of(entries).len() == entries.len(),
    decreases entries.len(),
{
    if entries.len() == 0 {
        assert(mapping_of(entries) =~= Map::<Seq<char>, NodeModel>::empty());
    } else {
        let last = entries.len() - 1;
        let rest = entries.drop_last();
        let tail = entries[last];
        assert forall|i: int, j: int| 0 <= i < j < rest.len() implies path_before(
            #[trigger] rest[i].path@,
            #[trigger] rest[j].path@,
        ) by {
            assert(rest[i] == entries[i]);
            assert(rest[j] == entries[j]);
            assert(path_before(entries[i].path@, entries[j].path@));
        }
        lemma_mapping_len(rest);
        assert forall|j: int| 0 <= j < last implies path_before(
            #[trigger] rest[j].path@,
            tail.path@,
        ) by {
            assert(rest[j] == entries[j]);
            assert(path_before(entries[j].path@, entries[last].path@));
        }
        lemma_mapping_insert(rest, last, tail);
        assert(rest.insert(last, tail) =~= entries);
        if mapping_of(rest).contains_key(tail.path@) {
            let i = choose|i: int| 0 <= i < rest.len() && #[trigger] rest[i].path@ == tail.path@;
            assert(path_before(rest[i].path@, tail.path@));
            lemma_path_order(tail.path@, tail.path@, tail.path@);
        }
    }
}

/// The virtual filesystem. It starts empty and grows by mapping; nothing is
/// ever removed, and mapping a path again replaces what was stored there.
pub struct VirtualFS {
    mapping: Vec<Entry>,
}

impl View for VirtualFS {
    type V = Map<Seq<char>, NodeModel>;

    closed spec fn view(&self) -> Map<Seq<char>, NodeModel> {
        mapping_of(self.mapping@)
    }
}

impl VirtualFS {
    #[verifier::type_invariant]
    spec fn ordered(self) -> bool {
        rising(self.mapping@)
    }

    /// An empty filesystem.
    pub fn new() -> (vfs: Self)
        ensures
            vfs@ == Map::<Seq<char>, NodeModel>::empty(),
    {
        let vfs = VirtualFS { mapping: Vec::new() };
        assert(vfs@ =~= Map::<Seq<char>, NodeModel>::empty());
        vfs
    }

    /// Finds where `path` is stored, or where it would have to go.
    fn locate(&self, path: &str) -> (r: (usize, bool))
        ensures
            r.0 <= self.mapping@.len(),
            r.1 ==> r.0 < self.mapping@.len() && self.mapping@[r.0 as int].path@ == path@,
            !r.1 ==> forall|j: int|
                0 <= j < r.0 ==> path_before(#[trigger] self.mapping@[j].path@, path@),
            !r.1 ==> forall|j: int|
                r.0 <= j < self.mapping@.len() ==> path_before(
                    path@,
                    #[trigger] self.mapping@[j].path@,
                ),
    {
        proof {
            use_type_invariant(self);
        }
        let mut lo: usize = 0;
        let mut hi: usize = self.mapping.len();
        while lo < hi
            invariant
                rising(self.mapping@),
                lo <= hi <= self.mapping@.len(),
                forall|j: int| 0 <= j < lo ==> path_before(#[trigger] self.mapping@[j].path@, path@),
                forall|j: int|
                    hi <= j < self.mapping@.len() ==> path_before(
                        path@,
                        #[trigger] self.mapping@[j].path@,
                    ),
            decreases hi - lo,
        {
            let mid: usize = lo + (hi - lo) / 2;
            match place_of(self.mapping[mid].path.as_str(), path) {
                Place::Same => {
                    return (mid, true);
                },
                Place::Before => {
                    proof {
                        assert forall|j: int| 0 <= j < mid + 1 implies path_before(
                            #[trigger] self.mapping@[j].path@,
                            path@,
                        ) by {
                            if j < mid {
                                assert(path_before(
                                    self.mapping@[j].path@,
                                    self.mapping@[mid as int].path@,
                                ));
                                lemma_path_order(
                                    self.mapping@[j].path@,
                                    self.mapping@[mid as int].path@,
                                    path@,
                                );
                            }
                        }
                    }
                    lo = mid + 1;
                },
                Place::After => {
                    proof {
                        assert forall|j: int| mid <= j < self.mapping@.len() implies path_before(
                            path@,
                            #[trigger] self.mapping@[j].path@,
                        ) by {
                            if mid < j {
                                assert(path_before(
                                    self.mapping@[mid as int].path@,
                                    self.mapping@[j].path@,
                                ));
                                lemma_path_order(
                                    path@,
                                    self.mapping@[mid as int].path@,
                                    self.mapping@[j].path@,
                                );
                            }
                        }
                    }
                    hi = mid;
                },
            }
        }
        (lo, false)
    }

    /// Stores `node` at `path`, in place of what was there, and says where it stands.
    fn put(&mut self, path: &str, node: FSNode) -> (at: usize)
        ensures
            final(self)@ == old(self)@.insert(path@, node@),
            at < final(self).mapping@.len(),
            final(self).mapping@[at as int].node == node,
    {
        proof {
            use_type_invariant(&*self);
        }
        let (at, found) = self.locate(path);
        let entry = Entry { path: path.to_owned(), node };
        let mut mapping: Vec<Entry> = Vec::new();
        std::mem::swap(&mut mapping, &mut self.mapping);
        proof {
            if found {
                lemma_mapping_update(mapping@, at as int, entry);
            } else {
                lemma_mapping_insert(mapping@, at as int, entry);
            }
        }
        if found {
            mapping.set(at, entry);
        } else {
            mapping.insert(at, entry);
        }
        self.mapping = mapping;
        at
    }

    /// Stores the bytes that were read from a host file as a file at `rel_path`,
    /// in place of what was there, and hands out the stored node. When the read
    /// failed, nothing is stored and the host's error is handed on.
    pub fn map_file(&mut self, read: Result<Vec<u8>, HostError>, rel_path: &str) -> (r: Result<
        &FSNode,
        HostError,
    >)
        ensures
            match read {
                Ok(bytes) => {
                    &&& r is Ok
                    &&& r->Ok_0@ == NodeModel::File(bytes@)
                    &&& final(self)@ == old(self)@.insert(rel_path@, NodeModel::File(bytes@))
                },
                Err(e) => {
                    &&& r == Err::<&FSNode, HostError>(e)
                    &&& final(self)@ == old(self)@
                },
            },
    {
        match read {
            Ok(bytes) => {
                let at = self.put(rel_path, FSNode::File(bytes));
                Ok(&self.mapping[at].node)
            },
            Err(e) => Err(e),
        }
    }

    /// Stores a directory marker at `path`, in place of what was there, and
    /// hands out the stored node.
    pub fn map_dir(&mut self, path: &str) -> (node: &FSNode)
        ensures
            node@ == NodeModel::Dir,
            final(self)@ == old(self)@.insert(path@, NodeModel::Dir),
    {
        let at = self.put(path, FSNode::Dir);
        &self.mapping[at].node
    }

    /// The node stored at `path`, if there is one.
    pub fn get(&self, path: &str) -> (r: Option<&FSNode>)
        ensures
            match r {
                Some(node) => self@.contains_key(path@) && self@[path@] == node@,
                None => !self@.contains_key(path@),
            },
    {
        proof {
            use_type_invariant(self);
        }
        let (at, found) = self.locate(path);
        if found {
            proof {
                lemma_mapping_at(self.mapping@, at as int);
            }
            Some(&self.mapping[at].node)
        } else {
            proof {
                if self@.contains_key(path@) {
                    let i = choose|i: int|
                        0 <= i < self.mapping@.len() && #[trigger] self.mapping@[i].path@ == path@;
                    lemma_path_order(path@, path@, path@);
                }
            }
            None
        }
    }

    /// The bytes of the file stored at `path`. There are none where nothing is
    /// stored at `path`, and none where a directory is.
    pub fn read_file(&self, path: &str) -> (r: Option<&[u8]>)
        ensures
            match r {
                Some(bytes) => file_at(self@, path@) == Some(bytes@),
                None => file_at(self@, path@) is None,
            },
    {
        match self.get(path) {
            Some(node) => node.contents(),
            None => None,
        }
    }

    /// The number of stored pairs.
    pub fn len(&self) -> (n: usize)
        ensures
            self@.dom().finite(),
            n == self@.len(),
    {
        proof {
            use_type_invariant(self);
            lemma_mapping_len(self.mapping@);
        }
        self.mapping.len()
    }

    /// The stored paths in rising order.
    pub fn paths(&self) -> (out: Vec<String>)
        ensures
            out@.len() == self@.len(),
            self@.dom().finite(),
            forall|i: int| 0 <= i < out@.len() ==> self@.contains_key(#[trigger] out@[i]@),
            forall|key: Seq<char>|
                self@.contains_key(key) ==> exists|i: int|
                    0 <= i < out@.len() && #[trigger] out@[i]@ == key,
            forall|i: int, j: int|
                0 <= i < j < out@.len() ==> path_before(#[trigger] out@[i]@, #[trigger] out@[j]@),
    {
        proof {
            use_type_invariant(self);
            lemma_mapping_len(self.mapping@);
        }
        let mut out: Vec<String> = Vec::new();
        let mut i: usize = 0;
        while i < self.mapping.len()
            invariant
                i <= self.mapping@.len(),
                out@.len() == i,
                forall|j: int| 0 <= j < i ==> #[trigger] out@[j]@ == self.mapping@[j].path@,
            decreases self.mapping@.len() - i,
        {
            out.push(self.mapping[i].path.clone());
            i = i + 1;
        }
        proof {
            assert forall|i: int| 0 <= i < out@.len() implies self@.contains_key(
                #[trigger] out@[i]@,
            ) by {
                lemma_mapping_at(self.mapping@, i);
            }
            assert forall|key: Seq<char>| self@.contains_key(key) implies exists|i: int|
                0 <= i < out@.len() && #[trigger] out@[i]@ == key by {
                let i = choose|i: int|
                    0 <= i < self.mapping@.len() && #[trigger] self.mapping@[i].path@ == key;
                assert(out@[i]@ == key);
            }
            assert forall|i: int, j: int| 0 <= i < j < out@.len() implies path_before(
                #[trigger] out@[i]@,
                #[trigger] out@[j]@,
            ) by {
                assert(path_before(self.mapping@[i].path@, self.mapping@[j].path@));
            }
        }
        out
    }
}

impl Default for VirtualFS {
    fn default() -> (vfs: Self)
        ensures
            vfs@ == Map::<Seq<char>, NodeModel>::empty(),
    {
        VirtualFS::new()
    }
}

} // verus!
