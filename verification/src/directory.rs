//! Rebuilding the file tree from the entries of the file index, which list
//! the tree in pre-order.

use vstd::prelude::*;
use crate::entry::{
    child_index, has_name, lemma_folder_model, model, models, node_children, node_name,
    FileEntry, FileEntryMeta, Node,
};
use crate::error::FormatFault;

verus! {

/// A folder of the index whose children are still being read.
#[derive(Debug)]
pub struct Directory {
    /// Whether this is the first folder of the index.
    pub is_root: bool,
    /// Number of children that are still to come.
    pub children_remaining: usize,
    /// Number of children that the folder announced.
    pub children_count: usize,
    /// The folder with the children read so far.
    pub entry: FileEntry,
}

/// An open folder as a mathematical value.
pub struct Frame {
    pub is_root: bool,
    pub remaining: nat,
    pub declared: nat,
    pub node: Node,
}

impl View for Directory {
    type V = Frame;

    open spec fn view(&self) -> Frame {
        Frame {
            is_root: self.is_root,
            remaining: self.children_remaining as nat,
            declared: self.children_count as nat,
            node: model(self.entry),
        }
    }
}

/// The stack of open folders as a sequence of frames, outermost first.
pub open spec fn frames_of(parents: Seq<Directory>) -> Seq<Frame> {
    Seq::new(parents.len(), |i: int| parents[i]@)
}

/// Every frame of the stack holds a folder.
pub open spec fn all_folders(frames: Seq<Frame>) -> bool {
    forall|i: int| 0 <= i < frames.len() ==> (#[trigger] frames[i]).node is Folder
}

/// The display name of the root folder when the archive gives it none.
pub open spec fn root_name() -> Seq<char> {
    "Root"@
}

/// The stack after `child` became the next child of the innermost open
/// folder. It is a fault if no folder is open, if that folder has all the
/// children it announced, if the child has no name, or if the folder already
/// has a child of that name.
pub open spec fn attach_child(frames: Seq<Frame>, child: Node) -> Result<Seq<Frame>, FormatFault> {
    if frames.len() == 0 {
        Err(FormatFault::NoParent)
    } else {
        let top = frames.last();
        if top.remaining == 0 {
            Err(FormatFault::TooManyChildren)
        } else if node_name(child).len() == 0 {
            Err(FormatFault::EmptyName)
        } else if has_name(node_children(top.node), node_name(child)) {
            Err(FormatFault::DuplicateName)
        } else {
            Ok(
                frames.drop_last().push(
                    Frame {
                        is_root: top.is_root,
                        remaining: (top.remaining - 1) as nat,
                        declared: top.declared,
                        node: Node::Folder {
                            name: node_name(top.node),
                            children: node_children(top.node).push(child),
                        },
                    },
                ),
            )
        }
    }
}

/// The innermost open folder is complete and is not the root, so it is due
/// to be closed.
pub open spec fn closable(frames: Seq<Frame>) -> bool {
    frames.len() > 0 && frames.last().remaining == 0 && !frames.last().is_root
}

/// The stack after every folder that is complete has been closed: as long as
/// the innermost folder awaits no more children and is not the root, it
/// leaves the stack and becomes a child of the folder below it.
pub open spec fn coalesce(frames: Seq<Frame>) -> Result<Seq<Frame>, FormatFault>
    decreases frames.len(),
{
    if closable(frames) {
        match attach_child(frames.drop_last(), frames.last().node) {
            Ok(next) => if next.len() < frames.len() {
                coalesce(next)
            } else {
                Ok(next)
            },
            Err(e) => Err(e),
        }
    } else {
        Ok(frames)
    }
}

/// The stack after one decoded entry was taken in. A folder opens a new
/// frame; the first folder is the root, and is shown as "Root" if it has no
/// name. A file becomes a child of the innermost open folder. Then complete
/// folders are closed.
pub open spec fn accept_entry(
    parsed_root: bool,
    frames: Seq<Frame>,
    node: Node,
    children_count: nat,
) -> Result<Seq<Frame>, FormatFault> {
    match node {
        Node::Folder { name, .. } => coalesce(
            frames.push(
                Frame {
                    is_root: !parsed_root,
                    remaining: children_count,
                    declared: children_count,
                    node: Node::Folder {
                        name: if !parsed_root && name.len() == 0 {
                            root_name()
                        } else {
                            name
                        },
                        children: Seq::empty(),
                    },
                },
            ),
        ),
        Node::File { .. } => match attach_child(frames, node) {
            Ok(next) => coalesce(next),
            Err(e) => Err(e),
        },
    }
}

/// What a function on the stack owes, given what the rules say (`expected`).
pub open spec fn stack_result(
    expected: Result<Seq<Frame>, FormatFault>,
    r: Result<Vec<Directory>, FormatFault>,
) -> bool {
    match expected {
        Ok(next) => r matches Ok(v) && frames_of(v@) == next && all_folders(next),
        Err(e) => r matches Err(got) && got == e,
    }
}

/// Makes `entry` the next child of the innermost open folder.
pub fn attach(parents: Vec<Directory>, entry: FileEntry) -> (r: Result<
    Vec<Directory>,
    FormatFault,
>)
    requires
        all_folders(frames_of(parents@)),
    ensures
        stack_result(attach_child(frames_of(parents@), entry@), r),
{
    let ghost before = frames_of(parents@);
    let mut parents = parents;
    let mut top = match parents.pop() {
        Some(top) => top,
        None => {
            return Err(FormatFault::NoParent);
        },
    };
    assert(top@ == before.last());
    assert(frames_of(parents@) =~= before.drop_last());
    if top.children_remaining == 0 {
        return Err(FormatFault::TooManyChildren);
    }
    if entry.name.as_str().unicode_len() == 0 {
        return Err(FormatFault::EmptyName);
    }
    proof {
        lemma_folder_model(&top.entry);
    }
    let taken = match &top.entry.meta {
        FileEntryMeta::Folder { children } => child_index(children, &entry.name).is_some(),
        FileEntryMeta::File { .. } => false,
    };
    if taken {
        return Err(FormatFault::DuplicateName);
    }
    let ghost old_children = top.entry.meta->Folder_children@;
    let ghost child = entry@;
    top.children_remaining = top.children_remaining - 1;
    top.entry.meta.push_child(entry);
    proof {
        lemma_folder_model(&top.entry);
        assert(models(top.entry.meta->Folder_children@) =~= models(old_children).push(child));
    }
    parents.push(top);
    assert(frames_of(parents@) =~= attach_child(before, child)->Ok_0);
    Ok(parents)
}

/// Closes every folder that is complete.
pub fn coalesce_parents(parents: Vec<Directory>) -> (r: Result<Vec<Directory>, FormatFault>)
    requires
        all_folders(frames_of(parents@)),
    ensures
        stack_result(coalesce(frames_of(parents@)), r),
{
    let mut stack = parents;
    loop
        invariant
            all_folders(frames_of(stack@)),
            coalesce(frames_of(stack@)) == coalesce(frames_of(parents@)),
        decreases stack@.len(),
    {
        let ghost frames = frames_of(stack@);
        let n = stack.len();
        if n == 0 || stack[n - 1].children_remaining != 0 || stack[n - 1].is_root {
            assert(!closable(frames));
            return Ok(stack);
        }
        assert(closable(frames));
        let dir = match stack.pop() {
            Some(dir) => dir,
            None => {
                return Ok(stack);
            },
        };
        assert(dir@ == frames.last());
        assert(frames_of(stack@) =~= frames.drop_last());
        match attach(stack, dir.entry) {
            Ok(next) => {
                stack = next;
            },
            Err(e) => {
                return Err(e);
            },
        }
    }
}

/// Takes in one decoded entry with the number of children it announces.
pub fn accept(parsed_root: bool, parents: Vec<Directory>, entry: FileEntry, children: usize) -> (r:
    Result<Vec<Directory>, FormatFault>)
    requires
        all_folders(frames_of(parents@)),
    ensures
        stack_result(
            accept_entry(parsed_root, frames_of(parents@), entry@, children as nat),
            r,
        ),
{
    let ghost before = frames_of(parents@);
    let mut parents = parents;
    match &entry.meta {
        FileEntryMeta::Folder { .. } => {
            let is_root = !parsed_root;
            let name = if is_root && entry.name.as_str().unicode_len() == 0 {
                "Root".to_owned()
            } else {
                entry.name
            };
            let fresh = FileEntry::folder(name, Vec::new());
            assert(node_children(fresh@) =~= Seq::<Node>::empty());
            parents.push(
                Directory {
                    is_root,
                    children_remaining: children,
                    children_count: children,
                    entry: fresh,
                },
            );
            assert(frames_of(parents@) =~= before.push(parents@.last()@));
            coalesce_parents(parents)
        },
        FileEntryMeta::File { .. } => match attach(parents, entry) {
            Ok(next) => coalesce_parents(next),
            Err(e) => Err(e),
        },
    }
}

} // verus!
