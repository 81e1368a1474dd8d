//! Merging two folder trees by name.

use vstd::prelude::*;
use std::sync::Arc;
use crate::entry::{
    child_index, has_name, lemma_folder_model, model, models, names_unique, node_children,
    node_name, FileEntry, FileEntryMeta, FileInfo, Node, RcFileEntry,
};
use crate::error::{FormatFault, PakError};

verus! {

/// Position of the first node of `nodes` that carries the name `name`.
pub open spec fn first_named(nodes: Seq<Node>, name: Seq<char>) -> Option<int>
    decreases nodes.len(),
{
    if nodes.len() == 0 {
        None
    } else {
        match first_named(nodes.drop_last(), name) {
            Some(i) => Some(i),
            None => if node_name(nodes.last()) == name {
                Some(nodes.len() - 1)
            } else {
                None
            },
        }
    }
}

/// What `first_named` finds is a position of the name with none before it;
/// where it finds nothing, the name does not occur.
pub proof fn lemma_first_named_is_first(nodes: Seq<Node>, name: Seq<char>)
    ensures
        match first_named(nodes, name) {
            Some(i) => 0 <= i < nodes.len() && node_name(nodes[i]) == name && forall|j: int|
                0 <= j < i ==> node_name(#[trigger] nodes[j]) != name,
            None => forall|j: int| 0 <= j < nodes.len() ==> node_name(#[trigger] nodes[j]) != name,
        },
    decreases nodes.len(),
{
    if nodes.len() > 0 {
        let rest = nodes.drop_last();
        lemma_first_named_is_first(rest, name);
        match first_named(rest, name) {
            Some(i) => {
                assert(rest[i] == nodes[i]);
                assert forall|j: int| 0 <= j < i implies node_name(#[trigger] nodes[j])
                    != name by {
                    assert(rest[j] == nodes[j]);
                }
            },
            None => {
                assert forall|j: int| 0 <= j < nodes.len() - 1 implies node_name(
                    #[trigger] nodes[j],
                ) != name by {
                    assert(rest[j] == nodes[j]);
                }
            },
        }
    }
}

/// The position `i` is the first at which `nodes` has the name `name`.
pub proof fn lemma_first_named(nodes: Seq<Node>, name: Seq<char>, i: int)
    requires
        0 <= i < nodes.len(),
        node_name(nodes[i]) == name,
        forall|j: int| 0 <= j < i ==> node_name(#[trigger] nodes[j]) != name,
    ensures
        first_named(nodes, name) == Some(i),
{
    lemma_first_named_is_first(nodes, name);
    match first_named(nodes, name) {
        Some(k) => {
            if k < i {
                assert(node_name(nodes[k]) != name);
            }
            if i < k {
                assert(node_name(nodes[i]) != name);
            }
        },
        None => {
            assert(node_name(nodes[i]) != name);
        },
    }
}

/// The children of a folder that had the children `ours` after the first
/// `upto` children of the folder `other` were merged into it, one after the
/// other: a child whose name is new is appended; a folder that meets a
/// folder of its name is merged with it in place; a file that meets an entry
/// of its name, or a folder that meets a file, is a conflict (`None`).
pub open spec fn merge_children(ours: Seq<Node>, other: Node, upto: nat) -> Option<Seq<Node>>
    decreases other, upto,
{
    if upto == 0 || upto > node_children(other).len() {
        Some(ours)
    } else {
        match other {
            Node::File { .. } => Some(ours),
            Node::Folder { children, .. } => match merge_children(ours, other, (upto - 1) as nat) {
                None => None,
                Some(prev) => {
                    let child = children[upto - 1];
                    match first_named(prev, node_name(child)) {
                        None => Some(prev.push(child)),
                        Some(i) => if prev[i] is Folder && child is Folder {
                            match merge_children(
                                node_children(prev[i]),
                                child,
                                node_children(child).len(),
                            ) {
                                Some(merged) => Some(
                                    prev.update(
                                        i,
                                        Node::Folder {
                                            name: node_name(prev[i]),
                                            children: merged,
                                        },
                                    ),
                                ),
                                None => None,
                            }
                        } else {
                            None
                        },
                    }
                },
            },
        }
    }
}

/// Once merging a prefix of the children of `other` has met a conflict,
/// merging any longer prefix meets it too.
pub proof fn lemma_conflict_stays(ours: Seq<Node>, other: Node, k: nat, n: nat)
    requires
        k <= n <= node_children(other).len(),
        merge_children(ours, other, k) is None,
    ensures
        merge_children(ours, other, n) is None,
    decreases n,
{
    if k < n {
        lemma_conflict_stays(ours, other, k, (n - 1) as nat);
    }
}

/// The folder `ours` after the folder `other` was merged into it, or `None`
/// where the two trees conflict.
pub open spec fn merged(ours: Node, other: Node) -> Option<Node> {
    match merge_children(node_children(ours), other, node_children(other).len()) {
        Some(children) => Some(Node::Folder { name: node_name(ours), children }),
        None => None,
    }
}

/// The failure that a conflict between two trees is reported as.
pub open spec fn merge_conflict() -> PakError {
    PakError::ParseFormat { offset: 0, fault: FormatFault::MergeConflict }
}

/// A copy of a list of handles that shares the entries.
fn share_all(children: &Vec<RcFileEntry>) -> (r: Vec<RcFileEntry>)
    ensures
        r@ == children@,
{
    let mut out: Vec<RcFileEntry> = Vec::with_capacity(children.len());
    let mut i: usize = 0;
    while i < children.len()
        invariant
            i <= children@.len(),
            out@ == children@.take(i as int),
        decreases children@.len() - i,
    {
        out.push(Arc::clone(&children[i]));
        assert(out@ =~= children@.take(i + 1));
        i += 1;
    }
    assert(children@.take(i as int) =~= children@);
    out
}

/// `Arc::try_unwrap` of the standard library: the entry itself where no
/// other handle shares it, else the handle as it was given.
#[verifier::external_body]
fn unwrap_or_share(entry: RcFileEntry) -> (r: Result<FileEntry, RcFileEntry>)
    ensures
        match r {
            Ok(owned) => owned == *entry,
            Err(shared) => shared == entry,
        },
{
    Arc::try_unwrap(entry)
}

impl FileEntry {
    /// A copy of this entry; the copy of a folder shares the children.
    pub fn duplicate(&self) -> (r: FileEntry)
        ensures
            r@ == self@,
    {
        match &self.meta {
            FileEntryMeta::Folder { children } => {
                proof {
                    lemma_folder_model(self);
                }
                FileEntry::folder(self.name.clone(), share_all(children))
            },
            FileEntryMeta::File {
                offset,
                compressed_len,
                decompressed_len,
                unk,
                unk2,
                compressed,
                compression_level,
                timestamp,
            } => FileEntry::file(
                self.name.clone(),
                FileInfo {
                    offset: *offset,
                    compressed_len: *compressed_len,
                    decompressed_len: *decompressed_len,
                    unk: *unk,
                    unk2: *unk2,
                    compressed: *compressed,
                    compression_level: *compression_level,
                    timestamp: *timestamp,
                },
            ),
        }
    }

    /// An entry that may be changed, made from a handle: the entry behind
    /// the handle itself where nothing else shares it, else a copy of it, so
    /// that what others share is never changed.
    pub fn unshared(entry: RcFileEntry) -> (r: FileEntry)
        ensures
            r@ == entry@,
    {
        match unwrap_or_share(entry) {
            Ok(owned) => owned,
            Err(shared) => shared.duplicate(),
        }
    }

    /// The folder that results from merging the folder `other` into this
    /// folder; neither is changed, and subtrees that need no merging are
    /// shared with them.
    pub fn merged_with(&self, other: &FileEntry) -> (r: Result<FileEntry, PakError>)
        requires
            self@ is Folder,
            other@ is Folder,
        ensures
            match merged(self@, other@) {
                Some(n) => r matches Ok(m) && m@ == n,
                None => r matches Err(e) && e == merge_conflict(),
            },
        decreases *other,
    {
        proof {
            lemma_folder_model(self);
            lemma_folder_model(other);
        }
        match (&self.meta, &other.meta) {
            (
                FileEntryMeta::Folder { children: self_children },
                FileEntryMeta::Folder { children: other_children },
            ) => {
                let mut out = share_all(self_children);
                let mut j: usize = 0;
                while j < other_children.len()
                    invariant
                        j <= other_children@.len(),
                        other.meta == (FileEntryMeta::Folder { children: *other_children }),
                        other@ is Folder,
                        node_children(other@) == models(other_children@),
                        node_children(self@) == models(self_children@),
                        merge_children(node_children(self@), other@, j as nat) == Some(
                            models(out@),
                        ),
                    decreases other_children@.len() - j,
                {
                    let child = &other_children[j];
                    let ghost prev = models(out@);
                    assert(model(**child) == node_children(other@)[j as int]);
                    match child_index(&out, &child.name) {
                        None => {
                            proof {
                                lemma_first_named_is_first(prev, child.name@);
                                if first_named(prev, child.name@) is Some {
                                    assert(has_name(prev, child.name@));
                                }
                            }
                            out.push(Arc::clone(child));
                            assert(models(out@) =~= prev.push(model(**child)));
                        },
                        Some(i) => {
                            proof {
                                lemma_first_named(prev, child.name@, i as int);
                            }
                            let ours = &out[i];
                            let both_folders = match (&ours.meta, &child.meta) {
                                (
                                    FileEntryMeta::Folder { .. },
                                    FileEntryMeta::Folder { .. },
                                ) => true,
                                _ => false,
                            };
                            if !both_folders {
                                proof {
                                    assert(merge_children(
                                        node_children(self@),
                                        other@,
                                        (j + 1) as nat,
                                    ) is None);
                                    lemma_conflict_stays(
                                        node_children(self@),
                                        other@,
                                        (j + 1) as nat,
                                        node_children(other@).len(),
                                    );
                                }
                                return Err(
                                    PakError::ParseFormat {
                                        offset: 0,
                                        fault: FormatFault::MergeConflict,
                                    },
                                );
                            }
                            let sub = match ours.merged_with(child) {
                                Ok(sub) => sub,
                                Err(e) => {
                                    proof {
                                        assert(merge_children(
                                            node_children(self@),
                                            other@,
                                            (j + 1) as nat,
                                        ) is None);
                                        lemma_conflict_stays(
                                            node_children(self@),
                                            other@,
                                            (j + 1) as nat,
                                            node_children(other@).len(),
                                        );
                                    }
                                    return Err(e);
                                },
                            };
                            let ghost sub_model = sub@;
                            out.set(i, Arc::new(sub));
                            assert(models(out@) =~= prev.update(i as int, sub_model));
                        },
                    }
                    j += 1;
                }
                Ok(FileEntry::folder(self.name.clone(), out))
            },
            _ => Err(PakError::ParseFormat { offset: 0, fault: FormatFault::MergeConflict }),
        }
    }

    /// Merges `other` into this node. Where the two trees conflict, this
    /// node is left as it was.
    pub fn merge(&mut self, other: Self) -> (r: Result<(), PakError>)
        requires
            old(self)@ is Folder,
            other@ is Folder,
        ensures
            match merged(old(self)@, other@) {
                Some(n) => r is Ok && final(self)@ == n,
                None => r == Err::<(), PakError>(merge_conflict()) && *final(self) == *old(self),
            },
    {
        match self.merged_with(&other) {
            Ok(m) => {
                *self = m;
                Ok(())
            },
            Err(e) => Err(e),
        }
    }

    /// Merges refcounted children from `other` into this node. Where the two
    /// trees conflict, this node is left as it was.
    pub fn merge_ref(&mut self, other: RcFileEntry) -> (r: Result<(), PakError>)
        requires
            old(self)@ is Folder,
            other@ is Folder,
        ensures
            match merged(old(self)@, other@) {
                Some(n) => r is Ok && final(self)@ == n,
                None => r == Err::<(), PakError>(merge_conflict()) && *final(self) == *old(self),
            },
    {
        match self.merged_with(&other) {
            Ok(m) => {
                *self = m;
                Ok(())
            },
            Err(e) => Err(e),
        }
    }
}

/// No node of `a` carries the name of a node of `b`.
pub open spec fn disjoint_names(a: Seq<Node>, b: Seq<Node>) -> bool {
    forall|i: int, j: int|
        0 <= i < a.len() && 0 <= j < b.len() ==> node_name(#[trigger] a[i]) != node_name(
            #[trigger] b[j],
        )
}

/// Merging children none of whose names is taken appends them in order.
pub proof fn lemma_merge_disjoint(ours: Seq<Node>, other: Node, upto: nat)
    requires
        other is Folder,
        upto <= node_children(other).len(),
        disjoint_names(ours, node_children(other)),
        names_unique(node_children(other)),
    ensures
        merge_children(ours, other, upto) == Some(ours + node_children(other).take(upto as int)),
    decreases upto,
{
    let theirs = node_children(other);
    if upto == 0 {
        assert(ours + theirs.take(0) =~= ours);
    } else {
        lemma_merge_disjoint(ours, other, (upto - 1) as nat);
        let prev = ours + theirs.take(upto - 1);
        let child = theirs[upto - 1];
        assert(first_named(prev, node_name(child)) is None) by {
            lemma_first_named_is_first(prev, node_name(child));
            if first_named(prev, node_name(child)) is Some {
                let k = first_named(prev, node_name(child))->Some_0;
                if k < ours.len() {
                    assert(prev[k] == ours[k]);
                    assert(node_name(ours[k]) != node_name(theirs[upto - 1]));
                } else {
                    assert(prev[k] == theirs[k - ours.len()]);
                    assert(node_name(theirs[k - ours.len()]) != node_name(theirs[upto - 1]));
                }
            }
        }
        assert(prev.push(child) =~= ours + theirs.take(upto as int));
    }
}

/// Merging is associative where no name occurs among the children of two of
/// the three folders: merging `b` into `a` and then `c` into the result
/// gives the folder that merging `c` into `b` and the result into `a` gives.
pub proof fn lemma_merge_associative(a: Node, b: Node, c: Node)
    requires
        a is Folder,
        b is Folder,
        c is Folder,
        names_unique(node_children(b)),
        names_unique(node_children(c)),
        disjoint_names(node_children(a), node_children(b)),
        disjoint_names(node_children(a), node_children(c)),
        disjoint_names(node_children(b), node_children(c)),
    ensures
        merged(a, b) is Some,
        merged(b, c) is Some,
        merged(merged(a, b)->Some_0, c) == merged(a, merged(b, c)->Some_0),
        merged(merged(a, b)->Some_0, c) == Some(
            Node::Folder {
                name: node_name(a),
                children: node_children(a) + node_children(b) + node_children(c),
            },
        ),
{
    let ac = node_children(a);
    let bc = node_children(b);
    let cc = node_children(c);
    lemma_merge_disjoint(ac, b, bc.len());
    assert(bc.take(bc.len() as int) =~= bc);
    lemma_merge_disjoint(bc, c, cc.len());
    assert(cc.take(cc.len() as int) =~= cc);
    let ab = merged(a, b)->Some_0;
    let bc_node = merged(b, c)->Some_0;
    assert(node_children(ab) == ac + bc);
    assert(node_children(bc_node) == bc + cc);
    assert(disjoint_names(ac + bc, cc)) by {
        assert forall|i: int, j: int| 0 <= i < (ac + bc).len() && 0 <= j < cc.len() implies node_name(
            #[trigger] (ac + bc)[i],
        ) != node_name(#[trigger] cc[j]) by {
            if i < ac.len() {
                assert(node_name(ac[i]) != node_name(cc[j]));
            } else {
                assert(node_name(bc[i - ac.len()]) != node_name(cc[j]));
            }
        }
    }
    lemma_merge_disjoint(ac + bc, c, cc.len());
    assert(disjoint_names(ac, bc + cc)) by {
        assert forall|i: int, j: int| 0 <= i < ac.len() && 0 <= j < (bc + cc).len() implies node_name(
            #[trigger] ac[i],
        ) != node_name(#[trigger] (bc + cc)[j]) by {
            if j < bc.len() {
                assert(node_name(ac[i]) != node_name(bc[j]));
            } else {
                assert(node_name(ac[i]) != node_name(cc[j - bc.len()]));
            }
        }
    }
    assert(names_unique(bc + cc)) by {
        assert forall|i: int, j: int| 0 <= i < j < (bc + cc).len() implies node_name(
            #[trigger] (bc + cc)[i],
        ) != node_name(#[trigger] (bc + cc)[j]) by {
            if j < bc.len() {
                assert(node_name(bc[i]) != node_name(bc[j]));
            } else if i < bc.len() {
                assert(node_name(bc[i]) != node_name(cc[j - bc.len()]));
            } else {
                assert(node_name(cc[i - bc.len()]) != node_name(cc[j - bc.len()]));
            }
        }
    }
    lemma_merge_disjoint(ac, bc_node, (bc + cc).len());
    assert((bc + cc).take((bc + cc).len() as int) =~= bc + cc);
    assert((ac + bc) + cc =~= ac + (bc + cc));
}

/// Merging leaves the entries that a folder had where they were, each with
/// its name and its kind.
pub proof fn lemma_merge_keeps_entries(ours: Seq<Node>, other: Node, upto: nat)
    requires
        merge_children(ours, other, upto) is Some,
    ensures
        merge_children(ours, other, upto)->Some_0.len() >= ours.len(),
        forall|k: int|
            0 <= k < ours.len() ==> node_name(
                #[trigger] merge_children(ours, other, upto)->Some_0[k],
            ) == node_name(ours[k]) && (merge_children(ours, other, upto)->Some_0[k] is File
                <==> ours[k] is File),
    decreases upto,
{
    if upto == 0 || upto > node_children(other).len() || other is File {
    } else {
        lemma_merge_keeps_entries(ours, other, (upto - 1) as nat);
        let prev = merge_children(ours, other, (upto - 1) as nat)->Some_0;
        let child = node_children(other)[upto - 1];
        let next = merge_children(ours, other, upto)->Some_0;
        match first_named(prev, node_name(child)) {
            None => {
                assert(next == prev.push(child));
                assert forall|k: int| 0 <= k < ours.len() implies next[k] == prev[k] by {}
            },
            Some(i) => {
                lemma_first_named_is_first(prev, node_name(child));
                assert(0 <= i < prev.len());
                assert(prev[i] is Folder);
                assert forall|k: int| 0 <= k < ours.len() implies node_name(#[trigger] next[k])
                    == node_name(ours[k]) && (next[k] is File <==> ours[k] is File) by {
                    if k != i {
                        assert(next[k] == prev[k]);
                    }
                }
            },
        }
    }
}

/// Merging fails whenever the two folders hold entries of one name of which
/// at least one is a file.
pub proof fn lemma_merge_collision(ours: Seq<Node>, other: Node, i: int, j: int)
    requires
        other is Folder,
        names_unique(ours),
        0 <= i < ours.len(),
        0 <= j < node_children(other).len(),
        node_name(ours[i]) == node_name(node_children(other)[j]),
        ours[i] is File || node_children(other)[j] is File,
    ensures
        merge_children(ours, other, node_children(other).len()) is None,
{
    let child = node_children(other)[j];
    let name = node_name(child);
    match merge_children(ours, other, j as nat) {
        None => {
            lemma_conflict_stays(ours, other, j as nat, node_children(other).len());
        },
        Some(prev) => {
            lemma_merge_keeps_entries(ours, other, j as nat);
            assert forall|k: int| 0 <= k < i implies node_name(#[trigger] prev[k]) != name by {
                assert(node_name(ours[k]) != node_name(ours[i]));
            }
            lemma_first_named(prev, name, i);
            assert(merge_children(ours, other, (j + 1) as nat) is None);
            lemma_conflict_stays(ours, other, (j + 1) as nat, node_children(other).len());
        },
    }
}

/// No folder of the tree holds two children of one name.
pub open spec fn unique_throughout(n: Node) -> bool
    decreases n,
{
    n is Folder ==> names_unique(node_children(n)) && forall|i: int|
        0 <= i < node_children(n).len() ==> unique_throughout(#[trigger] node_children(n)[i])
}

/// The two folder trees hold, at the same path, entries of one name of
/// which at least one is a file.
pub open spec fn collide(a: Node, b: Node) -> bool
    decreases b,
{
    a is Folder && b is Folder && exists|i: int, j: int|
        0 <= i < node_children(a).len() && 0 <= j < node_children(b).len() && node_name(
            #[trigger] node_children(a)[i],
        ) == node_name(#[trigger] node_children(b)[j]) && (node_children(a)[i] is File
            || node_children(b)[j] is File || collide(node_children(a)[i], node_children(b)[j]))
}

/// Merging leaves an entry as it was where no child that was merged so far
/// carries its name.
pub proof fn lemma_merge_untouched(ours: Seq<Node>, other: Node, upto: nat, i: int)
    requires
        0 <= i < ours.len(),
        upto <= node_children(other).len(),
        merge_children(ours, other, upto) is Some,
        forall|j: int|
            0 <= j < upto ==> node_name(#[trigger] node_children(other)[j]) != node_name(ours[i]),
    ensures
        merge_children(ours, other, upto)->Some_0.len() > i,
        merge_children(ours, other, upto)->Some_0[i] == ours[i],
    decreases upto,
{
    if upto > 0 && other is Folder {
        lemma_merge_untouched(ours, other, (upto - 1) as nat, i);
        let prev = merge_children(ours, other, (upto - 1) as nat)->Some_0;
        let child = node_children(other)[upto - 1];
        lemma_first_named_is_first(prev, node_name(child));
        match first_named(prev, node_name(child)) {
            None => {},
            Some(k) => {
                assert(node_name(prev[k]) == node_name(child));
                assert(k != i);
            },
        }
    }
}

/// Merging fails whenever the two trees hold, at the same path and however
/// deep, entries of one name of which at least one is a file.
pub proof fn lemma_deep_collision(a: Node, b: Node)
    requires
        unique_throughout(a),
        unique_throughout(b),
        collide(a, b),
    ensures
        merged(a, b) is None,
    decreases b,
{
    let ours = node_children(a);
    let theirs = node_children(b);
    let (i, j) = choose|i: int, j: int|
        0 <= i < node_children(a).len() && 0 <= j < node_children(b).len() && node_name(
            #[trigger] node_children(a)[i],
        ) == node_name(#[trigger] node_children(b)[j]) && (node_children(a)[i] is File
            || node_children(b)[j] is File || collide(node_children(a)[i], node_children(b)[j]));
    if ours[i] is File || theirs[j] is File {
        lemma_merge_collision(ours, b, i, j);
    } else {
        let name = node_name(theirs[j]);
        lemma_deep_collision(ours[i], theirs[j]);
        match merge_children(ours, b, j as nat) {
            None => {
                lemma_conflict_stays(ours, b, j as nat, theirs.len());
            },
            Some(prev) => {
                assert forall|k: int| 0 <= k < j implies node_name(#[trigger] theirs[k])
                    != node_name(ours[i]) by {
                    assert(node_name(theirs[k]) != node_name(theirs[j]));
                }
                lemma_merge_untouched(ours, b, j as nat, i);
                lemma_merge_keeps_entries(ours, b, j as nat);
                assert forall|k: int| 0 <= k < i implies node_name(#[trigger] prev[k]) != name by {
                    assert(node_name(ours[k]) != node_name(ours[i]));
                }
                lemma_first_named(prev, name, i);
                assert(merge_children(ours, b, (j + 1) as nat) is None);
                lemma_conflict_stays(ours, b, (j + 1) as nat, theirs.len());
            },
        }
    }
}

} // verus!
