use time_index::dfs::{prefixes, SearchState};
use time_index::entries::Path;
use time_index::errors::{IndexError, MSG_NO_NODE};
use time_index::walk::{list_contains, DfsCursor};

fn path(parts: &[u8]) -> Path {
    parts.iter().map(|b| vec![*b]).collect()
}

#[test]
fn prefixes_beyond_a_depth() {
    assert_eq!(
        prefixes(&path(&[1, 2, 3]), 0),
        vec![path(&[1]), path(&[1, 2]), path(&[1, 2, 3])]
    );
    assert_eq!(prefixes(&path(&[1, 2, 3]), 2), vec![path(&[1, 2, 3])]);
    assert_eq!(prefixes(&path(&[1, 2, 3]), 3), Vec::<Path>::new());
    assert_eq!(prefixes(&path(&[1, 2, 3]), 9), Vec::<Path>::new());
}

#[test]
fn a_path_becomes_a_chain() {
    let mut state = SearchState::new();
    let nodes = state.populate_from_paths(&vec![path(&[1, 2, 3])], 0).unwrap();
    assert_eq!(nodes.len(), 1);
    let chain = &nodes[0];
    assert_eq!(chain.len(), 3);
    assert_eq!(state.nodes, 3);
    assert_eq!(state.edges, 2);
    assert_eq!(state.node_weight(chain[0]).unwrap().0, path(&[1]));
    assert_eq!(state.node_weight(chain[1]).unwrap().0, path(&[1, 2]));
    assert_eq!(state.node_weight(chain[2]).unwrap().0, path(&[1, 2, 3]));
    assert_eq!(state.successors(chain[0]), vec![chain[1]]);
    assert_eq!(state.successors(chain[1]), vec![chain[2]]);
    assert_eq!(state.successors(chain[2]), Vec::<usize>::new());
}

#[test]
fn every_path_gets_its_own_chain() {
    let mut state = SearchState::new();
    let nodes = state.populate_from_paths(&vec![path(&[1, 2]), path(&[7, 8, 9])], 1).unwrap();
    assert_eq!(nodes[0].len(), 1);
    assert_eq!(nodes[1].len(), 2);
    assert_eq!(state.node_weight(nodes[0][0]).unwrap().0, path(&[1, 2]));
    assert_eq!(state.node_weight(nodes[1][0]).unwrap().0, path(&[7, 8]));
    assert_eq!(state.node_weight(nodes[1][1]).unwrap().0, path(&[7, 8, 9]));
    assert_eq!(state.successors(nodes[0][0]), Vec::<usize>::new());
    assert_eq!(state.successors(nodes[1][0]), vec![nodes[1][1]]);
}

#[test]
fn children_hang_from_their_parent_newest_edge_first() {
    let mut state = SearchState::new();
    let root = state.populate_from_paths(&vec![path(&[1])], 0).unwrap()[0][0];
    let added = state
        .populate_next_nodes_from_position(vec![path(&[1, 5]), path(&[1, 6]), path(&[1, 7])], root)
        .unwrap();
    assert_eq!(added.len(), 3);
    assert_eq!(state.successors(root), vec![added[2], added[1], added[0]]);
    assert_eq!(state.node_weight(added[1]).unwrap().0, path(&[1, 6]));
    assert!(state.contains(added[2]));
    assert_eq!(state.nodes, 4);
    assert_eq!(state.edges, 3);
}

#[test]
fn forward_population_hangs_every_longer_prefix_from_the_parent() {
    let mut state = SearchState::new();
    let root = state.populate_from_paths(&vec![path(&[1])], 0).unwrap()[0][0];
    let (first, nodes) = state
        .populate_from_paths_forward(vec![path(&[1, 5]), path(&[1, 6, 9])], 1, root)
        .unwrap();
    assert_eq!(nodes[0].len(), 1);
    assert_eq!(nodes[1].len(), 2);
    assert_eq!(first, nodes[0][0]);
    assert_eq!(state.node_weight(nodes[1][0]).unwrap().0, path(&[1, 6]));
    assert_eq!(state.node_weight(nodes[1][1]).unwrap().0, path(&[1, 6, 9]));
    assert_eq!(state.successors(root), vec![nodes[1][1], nodes[1][0], nodes[0][0]]);
    // nothing beyond the depth: nothing is made and the first node is 0
    let (first, nodes) = state.populate_from_paths_forward(vec![path(&[1, 5])], 2, root).unwrap();
    assert_eq!(first, 0);
    assert_eq!(nodes, vec![Vec::<usize>::new()]);
}

#[test]
fn a_node_that_is_not_there_cannot_be_a_parent() {
    let mut state = SearchState::new();
    assert_eq!(
        state.populate_next_nodes_from_position(vec![path(&[1])], 0),
        Err(IndexError::InternalError(MSG_NO_NODE))
    );
    assert_eq!(
        state.populate_from_paths_forward(vec![path(&[1])], 0, 3).map(|r| r.0),
        Err(IndexError::InternalError(MSG_NO_NODE))
    );
    assert_eq!(state.nodes, 0);
    assert!(state.node_weight(0).is_none());
    assert!(state.node_weight(usize::MAX).is_none());
    assert!(state.successors(usize::MAX).is_empty());
    assert!(!state.contains(0));
}

#[test]
fn the_walk_goes_deep_first_in_the_order_of_the_edges() {
    let mut state = SearchState::new();
    let root = state.populate_from_paths(&vec![path(&[1])], 0).unwrap()[0][0];
    let kids = state
        .populate_next_nodes_from_position(vec![path(&[1, 5]), path(&[1, 6])], root)
        .unwrap();
    let grand = state
        .populate_next_nodes_from_position(vec![path(&[1, 5, 1]), path(&[1, 5, 2])], kids[0])
        .unwrap();
    let mut cursor = DfsCursor::new(root);
    let mut seen = vec![];
    while let Some(node) = cursor.next(&state) {
        seen.push(node);
    }
    assert_eq!(seen, vec![root, kids[0], grand[0], grand[1], kids[1]]);
    assert!(cursor.stack.is_empty());
    assert_eq!(cursor.next(&state), None);
}

#[test]
fn a_restart_keeps_the_stack_and_forgets_what_was_seen() {
    let mut state = SearchState::new();
    let root = state.populate_from_paths(&vec![path(&[1])], 0).unwrap()[0][0];
    let kids = state
        .populate_next_nodes_from_position(vec![path(&[1, 5]), path(&[1, 6]), path(&[1, 7])], root)
        .unwrap();
    let mut cursor = DfsCursor::new(root);
    assert_eq!(cursor.next(&state), Some(root));
    assert_eq!(cursor.next(&state), Some(kids[0]));
    assert_eq!(cursor.stack, vec![kids[2], kids[1]]);
    cursor.restart_at(kids[0]);
    assert_eq!(cursor.stack, vec![kids[0], kids[2], kids[1]]);
    assert!(cursor.discovered.is_empty());
    // a node that repeats the one below it is taken out
    cursor.stack = vec![kids[1], kids[1], kids[2]];
    cursor.restart_at(kids[1]);
    assert_eq!(cursor.stack, vec![kids[1], kids[2]]);
    assert!(list_contains(&cursor.stack, kids[2]));
    assert!(!list_contains(&cursor.stack, kids[0]));
}
