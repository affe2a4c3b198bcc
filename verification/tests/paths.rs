use thoughtgraph::model::{Edge, Node, PathHit};
use thoughtgraph::paths_dot::render_paths_dot;
use thoughtgraph::search::{find_paths, PathError};

fn node(id: i64) -> Node {
    Node { id, app_id: format!("a{}", id), content: format!("text {}", id) }
}

fn nodes(ids: &[i64]) -> Vec<Node> {
    ids.iter().map(|id| node(*id)).collect()
}

fn edge(from: i64, to: i64, kind: &str, label: &str) -> Edge {
    Edge {
        from_node_id: from,
        to_node_id: to,
        kind: kind.to_string(),
        label: label.to_string(),
    }
}

fn reply(from: i64, to: i64) -> Edge {
    edge(from, to, "reply", "")
}

fn search(ns: &[Node], es: &[Edge], from: i64, to: i64, max_paths: usize) -> Vec<PathHit> {
    match find_paths(Some(&node(from)), Some(&node(to)), ns, es, "from", "to", max_paths) {
        Ok(hits) => hits,
        Err(e) => panic!("{}", e.message()),
    }
}

fn ids(hit: &PathHit) -> Vec<i64> {
    hit.nodes.iter().map(|n| n.id).collect()
}

#[test]
fn a_leaf_reply_finds_its_ancestor() {
    let ns = nodes(&[1, 2, 3]);
    let es = vec![edge(1, 2, "reply", "first"), edge(2, 3, "reply", "second")];
    let hits = search(&ns, &es, 3, 1, 10);
    assert_eq!(hits.len(), 1);
    assert_eq!(ids(&hits[0]), vec![3, 2, 1]);
    assert_eq!(hits[0].steps.len(), 2);
    assert!(hits[0].steps[0].reversed);
    assert_eq!(hits[0].steps[0].kind, "reply");
    assert_eq!(hits[0].steps[0].label, "second");
    assert!(hits[0].steps[1].reversed);
    assert_eq!(hits[0].steps[1].label, "first");
    assert_eq!(hits[0].nodes[0].content, "text 3");
    assert_eq!(hits[0].nodes[0].app_id, "a3");
}

#[test]
fn the_way_back_is_as_long() {
    let ns = nodes(&[1, 2, 3, 4]);
    let es = vec![reply(1, 2), reply(3, 2), edge(3, 4, "ref", "r")];
    let there = search(&ns, &es, 1, 4, 5);
    let back = search(&ns, &es, 4, 1, 5);
    assert_eq!(there.len(), 1);
    assert_eq!(back.len(), 1);
    assert_eq!(ids(&there[0]), vec![1, 2, 3, 4]);
    assert_eq!(ids(&back[0]), vec![4, 3, 2, 1]);
    let turned: Vec<bool> = there[0].steps.iter().map(|s| s.reversed).collect();
    assert_eq!(turned, vec![false, true, false]);
    let turned: Vec<bool> = back[0].steps.iter().map(|s| s.reversed).collect();
    assert_eq!(turned, vec![true, false, true]);
}

#[test]
fn all_shortest_paths_in_the_order_of_the_edges() {
    let ns = nodes(&[1, 2, 3, 4, 5]);
    let es = vec![
        reply(1, 3),
        reply(1, 2),
        reply(3, 4),
        reply(2, 4),
        edge(2, 4, "ref", "again"),
        reply(1, 5),
    ];
    let hits = search(&ns, &es, 1, 4, 10);
    let found: Vec<Vec<i64>> = hits.iter().map(ids).collect();
    assert_eq!(found, vec![vec![1, 3, 4], vec![1, 2, 4], vec![1, 2, 4]]);
    assert_eq!(hits[2].steps[1].label, "again");
    assert_eq!(search(&ns, &es, 1, 4, 3).len(), 3);
    assert_eq!(search(&ns, &es, 1, 4, 2).len(), 2);
    assert_eq!(ids(&search(&ns, &es, 1, 4, 1)[0]), vec![1, 3, 4]);
}

#[test]
fn longer_paths_are_left_out() {
    let ns = nodes(&[1, 2, 3]);
    let es = vec![reply(1, 2), reply(2, 3), reply(1, 3)];
    let hits = search(&ns, &es, 1, 3, 10);
    assert_eq!(hits.len(), 1);
    assert_eq!(ids(&hits[0]), vec![1, 3]);
}

#[test]
fn asking_for_no_path_gives_one() {
    let ns = nodes(&[1, 2]);
    let es = vec![reply(1, 2), reply(1, 2)];
    assert_eq!(search(&ns, &es, 1, 2, 0).len(), 1);
}

#[test]
fn a_path_to_itself_has_no_steps() {
    let ns = nodes(&[1, 2]);
    let es = vec![reply(1, 1), reply(1, 2), reply(2, 1)];
    let hits = search(&ns, &es, 1, 1, 10);
    assert_eq!(hits.len(), 1);
    assert_eq!(ids(&hits[0]), vec![1]);
    assert!(hits[0].steps.is_empty());
}

#[test]
fn cycles_end_the_search_all_the_same() {
    let ns = nodes(&[1, 2, 3, 4]);
    let es = vec![reply(1, 2), reply(2, 3), edge(3, 1, "ref", "loops-back"), reply(2, 2)];
    assert!(search(&ns, &es, 1, 4, 10).is_empty());
    let hits = search(&ns, &es, 1, 3, 10);
    assert_eq!(hits.len(), 1);
    assert_eq!(ids(&hits[0]), vec![1, 3]);
    assert!(hits[0].steps[0].reversed);
}

fn chain(n: i64) -> (Vec<Node>, Vec<Edge>) {
    let mut ns: Vec<Node> = Vec::new();
    let mut es: Vec<Edge> = Vec::new();
    for i in 0..n {
        ns.push(node(i));
        if i > 0 {
            es.push(reply(i - 1, i));
        }
    }
    (ns, es)
}

#[test]
fn paths_have_at_most_sixty_four_nodes() {
    let (ns, es) = chain(64);
    let hits = search(&ns, &es, 0, 63, 10);
    assert_eq!(hits.len(), 1);
    assert_eq!(hits[0].nodes.len(), 64);
    assert_eq!(hits[0].steps.len(), 63);
    let (ns, es) = chain(65);
    assert!(search(&ns, &es, 0, 64, 10).is_empty());
}

#[test]
fn the_search_keeps_to_listed_nodes() {
    let ns = nodes(&[1, 3, 4, 5]);
    let es = vec![reply(1, 2), reply(2, 3), reply(1, 4), reply(4, 5), reply(3, 5)];
    let hits = search(&ns, &es, 1, 3, 10);
    assert_eq!(hits.len(), 1);
    assert_eq!(ids(&hits[0]), vec![1, 4, 5, 3]);
    assert_eq!(hits[0].steps.len(), 3);

    let es = vec![reply(1, 2), reply(2, 3)];
    assert!(search(&nodes(&[1, 3]), &es, 1, 3, 10).is_empty());
    assert_eq!(search(&nodes(&[1, 2, 3]), &es, 1, 3, 10).len(), 1);
}

#[test]
fn the_ends_of_a_search_need_not_be_listed() {
    let es = vec![reply(1, 2), edge(3, 2, "ref", "r")];
    let hits = search(&nodes(&[2]), &es, 1, 3, 10);
    assert_eq!(hits.len(), 1);
    assert_eq!(ids(&hits[0]), vec![1, 2, 3]);
    assert_eq!(hits[0].nodes[0].content, "text 1");
    assert_eq!(hits[0].nodes[2].content, "text 3");
    assert_eq!(hits[0].steps.len(), 2);

    let alone = search(&[], &[], 9, 9, 10);
    assert_eq!(alone.len(), 1);
    assert_eq!(ids(&alone[0]), vec![9]);
    assert!(alone[0].steps.is_empty());
}

#[test]
fn a_path_has_one_node_more_than_steps() {
    let ns = nodes(&[1, 2, 3, 4, 6]);
    let es = vec![
        reply(1, 2),
        reply(1, 3),
        reply(2, 4),
        reply(3, 4),
        reply(1, 5),
        reply(5, 4),
        edge(4, 6, "ref", ""),
    ];
    for from in 1..7 {
        for to in 1..7 {
            for hit in search(&ns, &es, from, to, 10) {
                assert_eq!(hit.nodes.len(), hit.steps.len() + 1);
            }
        }
    }
}

fn turned(hit: &PathHit) -> String {
    let mut words: Vec<String> = Vec::new();
    for n in hit.nodes.iter().rev() {
        words.push(format!("{} {}", n.id, n.content));
    }
    for s in hit.steps.iter().rev() {
        words.push(format!("{} {} {}", s.kind, !s.reversed, s.label));
    }
    words.join("|")
}

fn as_it_is(hit: &PathHit) -> String {
    let mut words: Vec<String> = Vec::new();
    for n in hit.nodes.iter() {
        words.push(format!("{} {}", n.id, n.content));
    }
    for s in hit.steps.iter() {
        words.push(format!("{} {} {}", s.kind, s.reversed, s.label));
    }
    words.join("|")
}

#[test]
fn paths_back_are_the_paths_turned_round() {
    let ns = nodes(&[1, 2, 3, 4]);
    let es = vec![
        reply(1, 2),
        reply(1, 2),
        reply(3, 1),
        edge(2, 4, "ref", "a"),
        edge(4, 3, "ref", "b"),
        edge(4, 3, "other", ""),
    ];
    let there = search(&ns, &es, 1, 4, 10);
    let back = search(&ns, &es, 4, 1, 10);
    assert_eq!(there.len(), 4);
    let mut expected: Vec<String> = there.iter().map(turned).collect();
    let mut found: Vec<String> = back.iter().map(as_it_is).collect();
    expected.sort();
    found.sort();
    assert_eq!(found, expected);
}

#[test]
fn of_nodes_with_the_same_id_the_last_counts() {
    let mut ns = nodes(&[1, 2, 1]);
    ns[2].content = "later".to_string();
    let hits = search(&ns, &[reply(1, 2)], 2, 1, 10);
    assert_eq!(hits[0].nodes[1].content, "later");
}

#[test]
fn missing_ends_are_named() {
    let n = node(1);
    match find_paths(None, None, &[], &[], "x", "y", 1) {
        Err(e) => assert_eq!(e.message(), "from app_id not found: x"),
        Ok(_) => panic!(),
    }
    match find_paths(Some(&n), None, &[], &[], "x", "y", 1) {
        Err(e) => {
            assert!(matches!(e, PathError::ToNotFound(_)));
            assert_eq!(e.message(), "to app_id not found: y");
        }
        Ok(_) => panic!(),
    }
    match find_paths(None, Some(&n), &[], &[], "x", "y", 1) {
        Err(e) => assert!(matches!(e, PathError::FromNotFound(_))),
        Ok(_) => panic!(),
    }
}

#[test]
fn found_paths_can_be_drawn() {
    let ns = nodes(&[1, 2, 3]);
    let es = vec![reply(1, 2), edge(3, 2, "ref", "see")];
    let hits = search(&ns, &es, 1, 3, 10);
    let out = render_paths_dot("g", &hits);
    assert!(out.contains("  n1 -> n2 [arrowhead=vee, color=\"#3a73e8\", label=\"p1\"];\n"));
    assert!(out.contains(
        "  n3 -> n2 [arrowhead=vee, color=\"#3a73e8\", style=dashed, label=\"p1 · see\"];\n"
    ));
}
