use graph::file_structure::{add_entry, create_root_node, RootError};
use graph::{Graph, NodeContents};
use std::path::PathBuf;

#[test]
fn the_root_is_a_folder_named_by_its_last_component() {
    let mut graph = Graph::default();
    let root =
        create_root_node(&mut graph, PathBuf::from("/work/project"), true, Some("project".into()));
    assert_eq!(root, Ok(0));
    match &graph.node_data(0).unwrap().contents {
        NodeContents::Folder { display_name, path } => {
            assert_eq!(display_name, "project");
            assert_eq!(path, &PathBuf::from("/work/project"));
        }
        other => panic!("not a folder: {other:?}"),
    }
    assert_eq!(graph.nodes().count(), 1);
    assert_eq!(graph.edges().count(), 0);
}

#[test]
fn a_root_that_is_no_directory_is_refused() {
    let mut graph = Graph::default();
    assert_eq!(
        create_root_node(&mut graph, PathBuf::from("/work/file"), false, Some("file".into())),
        Err(RootError::NotADirectory)
    );
    assert_eq!(
        create_root_node(&mut graph, PathBuf::from("/"), false, None),
        Err(RootError::NotADirectory)
    );
    assert_eq!(graph.nodes().count(), 0);
}

#[test]
fn a_root_without_a_name_is_refused() {
    let mut graph = Graph::default();
    assert_eq!(
        create_root_node(&mut graph, PathBuf::from("/"), true, None),
        Err(RootError::NoDirectoryName)
    );
    assert_eq!(graph.nodes().count(), 0);
}

#[test]
fn entries_become_folders_and_files_below_their_parent() {
    let mut graph = Graph::default();
    let root = create_root_node(&mut graph, PathBuf::from("p"), true, Some("p".into())).unwrap();
    let src = add_entry(&mut graph, root, "src".into(), PathBuf::from("p/src"), true);
    let readme = add_entry(&mut graph, root, "README".into(), PathBuf::from("p/README"), false);
    let lib = add_entry(&mut graph, src, "lib.rs".into(), PathBuf::from("p/src/lib.rs"), false);
    assert_eq!((root, src, readme, lib), (0, 1, 2, 3));
    assert!(matches!(
        &graph.node_data(src).unwrap().contents,
        NodeContents::Folder { display_name, path }
            if display_name == "src" && path == &PathBuf::from("p/src")
    ));
    assert!(matches!(
        &graph.node_data(readme).unwrap().contents,
        NodeContents::File { display_name, path }
            if display_name == "README" && path == &PathBuf::from("p/README")
    ));
    assert!(matches!(
        &graph.node_data(lib).unwrap().contents,
        NodeContents::File { display_name, .. } if display_name == "lib.rs"
    ));
    assert_eq!(graph.node_children(root), Some(vec![src, readme]));
    assert_eq!(graph.node_children(src), Some(vec![lib]));
    assert_eq!(graph.node_incoming_edges(lib), Some(&[2usize][..]));
    assert!(graph.is_well_formed());
}
