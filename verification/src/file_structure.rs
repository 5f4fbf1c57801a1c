//! Turning what a walk over a directory tree finds into folder and file
//! nodes. Reading the disk is the caller's part; what was read comes in as
//! plain values.

use crate::types::{EdgeData, Graph, GraphView, NodeContents, NodeData, NodeId, Relation};
use std::path::PathBuf;
use vstd::prelude::*;

verus! {

/// Why a path cannot be the root of the tree.
#[derive(Debug, Clone, Copy, PartialEq, Eq, Structural)]
pub enum RootError {
    /// The path does not lead to a directory.
    NotADirectory,
    /// The path has no last component to name the directory by.
    NoDirectoryName,
}

/// The node of a folder.
pub open spec fn folder_node(display_name: String, path: PathBuf) -> NodeData {
    NodeData { contents: NodeContents::Folder { display_name, path } }
}

/// The node of a file.
pub open spec fn file_node(display_name: String, path: PathBuf) -> NodeData {
    NodeData { contents: NodeContents::File { display_name, path } }
}

/// The node of a directory entry: a folder for a directory, a file for
/// anything else.
pub open spec fn entry_node(display_name: String, path: PathBuf, is_dir: bool) -> NodeData {
    if is_dir {
        folder_node(display_name, path)
    } else {
        file_node(display_name, path)
    }
}

/// The store after the entry was added below `parent`: one node more, and
/// one `IsParentOf` edge from `parent` to it.
pub open spec fn with_entry(
    g: GraphView,
    parent: NodeId,
    display_name: String,
    path: PathBuf,
    is_dir: bool,
) -> GraphView {
    g.with_node(entry_node(display_name, path, is_dir)).with_edge(
        EdgeData { from: parent, to: g.nodes.len() as NodeId, relation: Relation::IsParentOf },
    )
}

/// Adds the folder node that the tree hangs from. `is_dir` says whether
/// `root_path` leads to a directory, `dir_name` is its last component if it
/// has one. A path that is no directory is refused first, then one without
/// a name; a refusal leaves the store as it was.
pub fn create_root_node(
    graph: &mut Graph,
    root_path: PathBuf,
    is_dir: bool,
    dir_name: Option<String>,
) -> (created: Result<NodeId, RootError>)
    ensures
        old(graph).wf() ==> final(graph).wf(),
        !is_dir ==> created == Err::<NodeId, RootError>(RootError::NotADirectory),
        is_dir && dir_name is None ==> created == Err::<NodeId, RootError>(
            RootError::NoDirectoryName,
        ),
        created is Err ==> final(graph)@ == old(graph)@,
        is_dir && dir_name is Some ==> created == Ok::<NodeId, RootError>(
            old(graph)@.nodes.len() as NodeId,
        ) && final(graph)@ == old(graph)@.with_node(folder_node(dir_name.unwrap(), root_path)),
{
    if !is_dir {
        return Err(RootError::NotADirectory);
    }
    match dir_name {
        None => Err(RootError::NoDirectoryName),
        Some(display_name) => {
            let root_node = NodeData {
                contents: NodeContents::Folder { display_name, path: root_path },
            };
            Ok(graph.add_node(root_node))
        },
    }
}

/// Adds the node of one directory entry and the edge that makes
/// `parent_node` its parent, and returns the id of the new node.
pub fn add_entry(
    graph: &mut Graph,
    parent_node: NodeId,
    display_name: String,
    path: PathBuf,
    is_dir: bool,
) -> (node: NodeId)
    requires
        old(graph)@.has_node(parent_node),
    ensures
        old(graph).wf() ==> final(graph).wf(),
        node == old(graph)@.nodes.len(),
        final(graph)@ == with_entry(old(graph)@, parent_node, display_name, path, is_dir),
{
    let contents = if is_dir {
        NodeContents::Folder { display_name, path }
    } else {
        NodeContents::File { display_name, path }
    };
    let node = graph.add_node(NodeData { contents });
    graph.add_edge(EdgeData { from: parent_node, to: node, relation: Relation::IsParentOf });
    node
}

} // verus!
