//! Finding the files of Rust source, and hanging the symbols of a document
//! under its file node.

use crate::types::{
    ids_below, lemma_extends_transitive, lemma_with_edge_extends, lemma_with_node_extends,
    EdgeData, Graph, GraphView, NodeContents, NodeData, NodeId, Relation,
};
use std::path::PathBuf;
use vstd::prelude::*;

verus! {

/// The extension of the file name of `path`, which `Path::extension`
/// returns, as text.
pub uninterp spec fn extension(path: PathBuf) -> Option<Seq<char>>;

/// `Path::extension` of the standard library, with its result turned to
/// text: the extension of the file name of `path`, if it has one.
#[verifier::external_body]
fn path_extension(path: &PathBuf) -> (found: Option<String>)
    ensures
        found is Some <==> extension(*path) is Some,
        found is Some ==> found.unwrap()@ == extension(*path).unwrap(),
{
    path.extension().map(|extension| extension.to_string_lossy().into_owned())
}

/// Whether `node` is a file of Rust source: a file whose name has the
/// extension `rs`.
pub open spec fn is_rust_source(node: NodeData) -> bool {
    node.contents matches NodeContents::File { path, .. } && extension(path) == Some("rs"@)
}

/// The test that the node with a given id is a file of Rust source.
pub open spec fn is_rust_source_in(g: GraphView) -> spec_fn(NodeId) -> bool {
    |id: NodeId| is_rust_source(g.nodes[id as int])
}

/// The ids of the files of Rust source in `g`, in ascending order.
pub open spec fn rust_sources(g: GraphView) -> Seq<NodeId> {
    ids_below(g.nodes.len()).filter(is_rust_source_in(g))
}

/// Finds the files whose symbols are worth asking for: those of Rust
/// source.
pub fn rust_source_files(graph: &Graph) -> (files: Vec<NodeId>)
    ensures
        files@ == rust_sources(graph@),
{
    let ids = graph.nodes();
    let ghost all = ids_below(graph@.nodes.len());
    let ghost wanted = is_rust_source_in(graph@);
    let mut files: Vec<NodeId> = Vec::new();
    let mut id: usize = ids.start;
    while id < ids.end
        invariant
            ids.end == graph@.nodes.len(),
            id <= ids.end,
            all == ids_below(graph@.nodes.len()),
            wanted == is_rust_source_in(graph@),
            files@ == all.take(id as int).filter(wanted),
        decreases ids.end - id,
    {
        proof {
            all.lemma_take_succ_push(id as int);
            all.take(id as int).lemma_filter_push(id, wanted);
        }
        if let Some(node) = graph.node_data(id) {
            if is_rust_source_file(node) {
                files.push(id);
            }
        }
        id += 1;
    }
    assert(all.take(id as int) =~= all);
    files
}

/// Whether `node` is a file of Rust source.
pub fn is_rust_source_file(node: &NodeData) -> (is: bool)
    ensures
        is == is_rust_source(*node),
{
    match &node.contents {
        NodeContents::File { path, .. } => match path_extension(path) {
            Some(found) => {
                let rs = "rs".to_owned();
                found == rs
            },
            None => false,
        },
        _ => false,
    }
}

/// A symbol of a document together with the symbols nested in it.
#[derive(Debug)]
pub struct DocumentSymbol {
    pub name: String,
    pub children: Option<Vec<DocumentSymbol>>,
}

/// What a language server answers when asked for the symbols of a document.
#[derive(Debug)]
pub enum DocumentSymbolResponse {
    /// A list of symbols without nesting.
    Flat,
    /// The symbols at the top level of the document, each with its subtree.
    Nested(Vec<DocumentSymbol>),
}

/// Why the symbols of a document could not be added.
#[derive(Debug, Clone, Copy, PartialEq, Eq, Structural)]
pub enum SymbolError {
    /// The answer was a flat list, which carries no nesting to follow.
    FlatNotSupported,
}

/// The node that stands for a symbol called `name`.
pub open spec fn item_node(name: String) -> NodeData {
    NodeData { contents: NodeContents::Item { display_name: name, moniker: None } }
}

/// The store after `symbol` and everything nested in it were added below
/// `parent`: first a node for the symbol and the edge from `parent` to it,
/// then, below that node, its nested symbols in order.
pub open spec fn with_symbol(g: GraphView, parent: NodeId, symbol: DocumentSymbol) -> GraphView
    decreases symbol,
{
    let item = g.nodes.len() as NodeId;
    let own = g.with_node(item_node(symbol.name)).with_edge(
        EdgeData { from: parent, to: item, relation: Relation::IsParentOf },
    );
    match symbol.children {
        Some(children) => with_symbols(own, item, children@),
        None => own,
    }
}

/// The store after each of `symbols` was added below `parent`, in order.
pub open spec fn with_symbols(g: GraphView, parent: NodeId, symbols: Seq<DocumentSymbol>) -> GraphView
    decreases symbols,
{
    if symbols.len() == 0 {
        g
    } else {
        with_symbol(with_symbols(g, parent, symbols.drop_last()), parent, symbols.last())
    }
}

/// Adds the symbols of a document below its file node `file_id`, each
/// with everything nested in it. A flat answer is refused and leaves the
/// store as it was.
pub fn add_document_symbols(
    graph: &mut Graph,
    file_id: NodeId,
    document_symbols: DocumentSymbolResponse,
) -> (added: Result<(), SymbolError>)
    requires
        old(graph)@.has_node(file_id),
    ensures
        old(graph).wf() ==> final(graph).wf(),
        match document_symbols {
            DocumentSymbolResponse::Flat => added == Err::<(), SymbolError>(
                SymbolError::FlatNotSupported,
            ) && final(graph)@ == old(graph)@,
            DocumentSymbolResponse::Nested(symbols) => added is Ok && final(graph)@
                == with_symbols(old(graph)@, file_id, symbols@),
        },
        final(graph)@.extends(old(graph)@),
{
    match document_symbols {
        DocumentSymbolResponse::Flat => {
            proof {
                lemma_with_symbols_extends(graph@, file_id, Seq::empty());
            }
            Err(SymbolError::FlatNotSupported)
        },
        DocumentSymbolResponse::Nested(symbols) => {
            add_below(graph, file_id, symbols);
            Ok(())
        },
    }
}

/// Adds a node for `symbol` with an `IsParentOf` edge from `parent_id` to
/// it, and then, below that node, everything nested in `symbol`.
pub fn add_document_symbol(graph: &mut Graph, parent_id: NodeId, symbol: DocumentSymbol) -> (added:
    Result<(), SymbolError>)
    requires
        old(graph)@.has_node(parent_id),
    ensures
        added is Ok,
        old(graph).wf() ==> final(graph).wf(),
        final(graph)@ == with_symbol(old(graph)@, parent_id, symbol),
        final(graph)@.extends(old(graph)@),
    decreases symbol, 0nat,
{
    proof {
        lemma_with_symbol_extends(old(graph)@, parent_id, symbol);
    }
    let contents = NodeContents::Item { display_name: symbol.name, moniker: None };
    let node = NodeData { contents };
    let item_id = graph.add_node(node);
    let edge = EdgeData { from: parent_id, to: item_id, relation: Relation::IsParentOf };
    graph.add_edge(edge);
    match symbol.children {
        Some(children) => {
            add_below(graph, item_id, children);
        },
        None => {},
    }
    Ok(())
}

/// Adds each of `symbols` below `parent_id`, in order.
fn add_below(graph: &mut Graph, parent_id: NodeId, symbols: Vec<DocumentSymbol>)
    requires
        old(graph)@.has_node(parent_id),
    ensures
        old(graph).wf() ==> final(graph).wf(),
        final(graph)@ == with_symbols(old(graph)@, parent_id, symbols@),
        final(graph)@.extends(old(graph)@),
    decreases symbols, 1nat,
{
    proof {
        lemma_with_symbols_extends(old(graph)@, parent_id, symbols@);
    }
    let ghost all = symbols@;
    for symbol in it: symbols
        invariant
            old(graph).wf() ==> graph.wf(),
            graph@.has_node(parent_id),
            it.seq() == all,
            graph@ == with_symbols(old(graph)@, parent_id, all.take(it.index())),
    {
        proof {
            all.lemma_take_succ_push(it.index());
            assert(all.take(it.index() + 1).drop_last() =~= all.take(it.index()));
        }
        let _ = add_document_symbol(graph, parent_id, symbol);
    }
    assert(all.take(all.len() as int) =~= all);
}

/// Symbols are only ever added: the nodes and edges that were there keep
/// their ids and their contents.
pub proof fn lemma_with_symbol_extends(g: GraphView, parent: NodeId, symbol: DocumentSymbol)
    ensures
        with_symbol(g, parent, symbol).extends(g),
    decreases symbol, 0nat,
{
    let item = g.nodes.len() as NodeId;
    let own = g.with_node(item_node(symbol.name)).with_edge(
        EdgeData { from: parent, to: item, relation: Relation::IsParentOf },
    );
    let noded = g.with_node(item_node(symbol.name));
    lemma_with_node_extends(g, item_node(symbol.name));
    lemma_with_edge_extends(
        noded,
        EdgeData { from: parent, to: item, relation: Relation::IsParentOf },
    );
    lemma_extends_transitive(own, noded, g);
    match symbol.children {
        Some(children) => {
            lemma_with_symbols_extends(own, item, children@);
            lemma_extends_transitive(with_symbol(g, parent, symbol), own, g);
        },
        None => {},
    }
}

/// Adding several symbols only ever adds.
pub proof fn lemma_with_symbols_extends(g: GraphView, parent: NodeId, symbols: Seq<DocumentSymbol>)
    ensures
        with_symbols(g, parent, symbols).extends(g),
    decreases symbols, 1nat,
{
    if symbols.len() > 0 {
        let earlier = with_symbols(g, parent, symbols.drop_last());
        lemma_with_symbols_extends(g, parent, symbols.drop_last());
        lemma_with_symbol_extends(earlier, parent, symbols.last());
        lemma_extends_transitive(with_symbols(g, parent, symbols), earlier, g);
    } else {
        assert(g.nodes.take(g.nodes.len() as int) =~= g.nodes);
        assert(g.edges.take(g.edges.len() as int) =~= g.edges);
    }
}

/// The number of symbols in the tree of `symbol`, itself included.
pub open spec fn symbol_count(symbol: DocumentSymbol) -> nat
    decreases symbol,
{
    match symbol.children {
        Some(children) => 1 + symbols_count(children@),
        None => 1,
    }
}

/// The number of symbols in the trees of `symbols`.
pub open spec fn symbols_count(symbols: Seq<DocumentSymbol>) -> nat
    decreases symbols,
{
    if symbols.len() == 0 {
        0
    } else {
        symbols_count(symbols.drop_last()) + symbol_count(symbols.last())
    }
}

/// Every symbol of a tree adds one node and one edge, and nothing else is
/// added.
pub proof fn lemma_with_symbol_counts(g: GraphView, parent: NodeId, symbol: DocumentSymbol)
    ensures
        with_symbol(g, parent, symbol).nodes.len() == g.nodes.len() + symbol_count(symbol),
        with_symbol(g, parent, symbol).edges.len() == g.edges.len() + symbol_count(symbol),
    decreases symbol, 0nat,
{
    let item = g.nodes.len() as NodeId;
    let own = g.with_node(item_node(symbol.name)).with_edge(
        EdgeData { from: parent, to: item, relation: Relation::IsParentOf },
    );
    match symbol.children {
        Some(children) => {
            lemma_with_symbols_counts(own, item, children@);
        },
        None => {},
    }
}

/// Every symbol of several trees adds one node and one edge.
pub proof fn lemma_with_symbols_counts(g: GraphView, parent: NodeId, symbols: Seq<DocumentSymbol>)
    ensures
        with_symbols(g, parent, symbols).nodes.len() == g.nodes.len() + symbols_count(symbols),
        with_symbols(g, parent, symbols).edges.len() == g.edges.len() + symbols_count(symbols),
    decreases symbols, 1nat,
{
    if symbols.len() > 0 {
        lemma_with_symbols_counts(g, parent, symbols.drop_last());
        lemma_with_symbol_counts(
            with_symbols(g, parent, symbols.drop_last()),
            parent,
            symbols.last(),
        );
    }
}

} // verus!
