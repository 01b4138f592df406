//! Reading a lobby from its description as JSON text: an object that gives
//! for each place an object that gives for each destination the pair of
//! the cost and the list of the activated warps. The text is read by the
//! `serde_json` crate.

use std::collections::BTreeMap;
use vstd::prelude::*;
use crate::error::LobbyError;
use crate::graph::{graph_of, nodes_view, Graph, Link, Node, NodeView};

verus! {

/// The error of the `serde_json` crate. Nothing is known of what it holds.
#[verifier::external_type_specification]
#[verifier::external_body]
pub struct ExJsonError(serde_json::Error);

/// What `serde_json::from_str` reads from `text` as a map of maps, entry
/// for entry: the places, each with its edges; `None` where it fails.
pub uninterp spec fn json_lobby(text: Seq<char>) -> Option<Seq<NodeView>>;

/// Calls `serde_json::from_str` to read `text` as a map from names to maps
/// from names to pairs of a cost and a list of names, and lists the
/// entries of the maps in their order. What is read is named
/// [`json_lobby`]; nothing more is stated of it.
#[verifier::external_body]
fn read_nodes(text: &str) -> (r: Result<Vec<Node>, serde_json::Error>)
    ensures
        match r {
            Ok(nodes) => json_lobby(text@) == Some(nodes_view(nodes@)),
            Err(_) => json_lobby(text@) is None,
        },
{
    let map: BTreeMap<String, BTreeMap<String, (u64, Vec<String>)>> = serde_json::from_str(text)?;
    Ok(map.into_iter().map(|(name, links)| Node {
        name,
        links: links.into_iter().map(|(dst, (cost, activates))| Link { dst, cost, activates }).collect(),
    }).collect())
}

/// Reads a lobby from JSON text. Fails when the text does not describe a
/// lobby.
pub fn parse_lobby(text: &str) -> (r: Result<Graph, LobbyError>)
    ensures
        match r {
            Ok(g) => {
                &&& g.wf()
                &&& json_lobby(text@) matches Some(nodes)
                &&& g@ == graph_of(nodes, nodes.len() as int)
            },
            Err(e) => e == LobbyError::Malformed && json_lobby(text@) is None,
        },
{
    match read_nodes(text) {
        Ok(nodes) => Ok(Graph::from_nodes(nodes)),
        Err(_) => Err(LobbyError::Malformed),
    }
}

} // verus!
