use thoughtgraph::color::push_color;
use thoughtgraph::dot::render_dot;
use thoughtgraph::model::{Edge, Node, PathHit, PathStep};
use thoughtgraph::paths_dot::{render_paths_dot, render_paths_dot_in_order};

fn node(id: i64, content: &str) -> Node {
    Node { id, app_id: format!("a{}", id), content: content.to_string() }
}

fn edge(from: i64, to: i64, kind: &str, label: &str) -> Edge {
    Edge {
        from_node_id: from,
        to_node_id: to,
        kind: kind.to_string(),
        label: label.to_string(),
    }
}

fn step(kind: &str, reversed: bool, label: &str) -> PathStep {
    PathStep { kind: kind.to_string(), reversed, label: label.to_string() }
}

#[test]
fn drawing_of_an_empty_graph() {
    let expected = "digraph \"G\" {
  rankdir=LR;
  graph [splines=true, overlap=false, bgcolor=\"#fafafa\"];
  node  [shape=box, style=\"rounded,filled\", fillcolor=\"#ffffff\", color=\"#888888\", fontname=\"STHeiti\", fontsize=11];
  edge  [color=\"#888888\", fontname=\"STHeiti\", fontsize=10];

  graph_root [label=\"G\", shape=ellipse, fillcolor=\"#e8eef9\", color=\"#3a73e8\", fontsize=13];

}
";
    assert_eq!(render_dot("G", &[], &[]), expected);
}

#[test]
fn drawing_of_a_graph() {
    let nodes = vec![node(1, "root \"q\""), node(2, "a reply that is longer"), node(-7, "x\ny")];
    let edges = vec![
        edge(1, 2, "reply", ""),
        edge(2, 1, "ref", "loops \"back\""),
        edge(1, -7, "other", "see"),
    ];
    let expected = "digraph \"Q2 \\\"Retro\\\"\" {
  rankdir=LR;
  graph [splines=true, overlap=false, bgcolor=\"#fafafa\"];
  node  [shape=box, style=\"rounded,filled\", fillcolor=\"#ffffff\", color=\"#888888\", fontname=\"STHeiti\", fontsize=11];
  edge  [color=\"#888888\", fontname=\"STHeiti\", fontsize=10];

  graph_root [label=\"Q2 \\\"Retro\\\"\", shape=ellipse, fillcolor=\"#e8eef9\", color=\"#3a73e8\", fontsize=13];
  n1 [label=\"root \\\"q\\\"\", tooltip=\"root \\\"q\\\"\"];
  n2 [label=\"a reply that is\\nlonger\", tooltip=\"a reply that is longer\"];
  n-7 [label=\"x\\ny\", tooltip=\"x\\ny\"];

  graph_root -> n1 [arrowhead=vee, color=\"#3a73e8\", penwidth=1.4];
  graph_root -> n-7 [arrowhead=vee, color=\"#3a73e8\", penwidth=1.4];
  n1 -> n2 [arrowhead=vee];
  n2 -> n1 [arrowhead=vee, style=dashed, color=\"#cc5555\", constraint=false, label=\"loops \\\"back\\\"\"];
  n1 -> n-7 [arrowhead=vee, label=\"see\"];
}
";
    assert_eq!(render_dot("Q2 \"Retro\"", &nodes, &edges), expected);
}

#[test]
fn ids_are_drawn_in_decimal() {
    for id in [0, 9, 10, 1234567890, i64::MAX, i64::MIN, -1, -10] {
        let out = render_dot("g", &[node(id, "t")], &[]);
        assert!(out.contains(&format!("  n{} [label=\"t\"", id)));
        assert!(out.contains(&format!("  graph_root -> n{} [", id)));
    }
}

#[test]
fn replies_are_not_linked_to_the_root() {
    let nodes = vec![node(1, "a"), node(2, "b"), node(3, "c")];
    let edges = vec![edge(1, 2, "reply", ""), edge(1, 3, "ref", "")];
    let out = render_dot("g", &nodes, &edges);
    assert!(out.contains("graph_root -> n1 "));
    assert!(!out.contains("graph_root -> n2 "));
    assert!(out.contains("graph_root -> n3 "));
}

fn quotes_are_closed(text: &str) -> bool {
    let mut inside = false;
    let mut escape = false;
    for c in text.chars() {
        if escape {
            escape = false;
        } else if inside && c == '\\' {
            escape = true;
        } else if c == '"' {
            inside = !inside;
        }
    }
    !inside && !escape
}

#[test]
fn every_string_in_a_drawing_is_closed() {
    let nasty = ["\"", "\\", "\\\"", "a\\", "\"];\n}\n", "0123456789abcde\\", "\r\n\"\\\n"];
    for text in nasty {
        let nodes = vec![node(1, text), node(2, text)];
        let edges = vec![edge(1, 2, text, text)];
        assert!(quotes_are_closed(&render_dot(text, &nodes, &edges)));
        let paths = vec![PathHit {
            nodes: vec![node(1, text), node(2, text)],
            steps: vec![step(text, false, text)],
        }];
        assert!(quotes_are_closed(&render_paths_dot(text, &paths)));
    }
}

#[test]
fn drawing_of_no_paths() {
    let expected = "digraph \"paths · G\" {
  rankdir=LR;
  graph [splines=true, overlap=false, bgcolor=\"#fafafa\"];
  node  [shape=box, style=\"rounded,filled\", fillcolor=\"#ffffff\", color=\"#888888\", fontname=\"STHeiti\", fontsize=11];
  edge  [fontname=\"STHeiti\", fontsize=10, penwidth=2];


}
";
    assert_eq!(render_paths_dot("G", &[]), expected);
}

#[test]
fn drawing_of_paths_in_a_given_order() {
    let paths = vec![
        PathHit {
            nodes: vec![node(3, "leaf"), node(2, "mid"), node(1, "top")],
            steps: vec![step("reply", true, ""), step("ref", false, "why \"so\"")],
        },
        PathHit {
            nodes: vec![node(3, "other text"), node(1, "top")],
            steps: vec![step("reply", true, "x")],
        },
    ];
    let expected = "digraph \"paths · G\" {
  rankdir=LR;
  graph [splines=true, overlap=false, bgcolor=\"#fafafa\"];
  node  [shape=box, style=\"rounded,filled\", fillcolor=\"#ffffff\", color=\"#888888\", fontname=\"STHeiti\", fontsize=11];
  edge  [fontname=\"STHeiti\", fontsize=10, penwidth=2];

  n1 [label=\"top\", tooltip=\"top\", color=\"#1f2330\", penwidth=2.5, fillcolor=\"#fff8e0\"];
  n2 [label=\"mid\", tooltip=\"mid\"];
  n3 [label=\"leaf\", tooltip=\"leaf\", color=\"#1f2330\", penwidth=2.5, fillcolor=\"#fff8e0\"];

  n2 -> n3 [arrowhead=vee, color=\"#3a73e8\", label=\"p1\"];
  n2 -> n1 [arrowhead=vee, color=\"#3a73e8\", style=dashed, label=\"p1 · why \\\"so\\\"\"];
  n1 -> n3 [arrowhead=vee, color=\"#cc5555\", label=\"p2 · x\"];
}
";
    assert_eq!(render_paths_dot_in_order("G", &paths, &[1, 2, 3]), expected);

    let out = render_paths_dot("G", &paths);
    let mut lines: Vec<&str> = out.lines().collect();
    let mut expected_lines: Vec<&str> = expected.lines().collect();
    lines.sort();
    expected_lines.sort();
    assert_eq!(lines, expected_lines);
}

fn parallel_paths(n: usize) -> Vec<PathHit> {
    let mut paths: Vec<PathHit> = Vec::new();
    for _ in 0..n {
        paths.push(PathHit {
            nodes: vec![node(1, "a"), node(2, "b")],
            steps: vec![step("reply", false, "")],
        });
    }
    paths
}

#[test]
fn seven_colors_come_first() {
    let colors = [
        "#3a73e8", "#cc5555", "#449944", "#cc8822", "#9966cc", "#1b9aaa", "#d36b6b", "#000000",
        "#9e3779", "#3c6ef2",
    ];
    let out = render_paths_dot("g", &parallel_paths(10));
    for (i, color) in colors.iter().enumerate() {
        let line = format!(
            "  n1 -> n2 [arrowhead=vee, color=\"{}\", label=\"p{}\"];\n",
            color,
            i + 1
        );
        assert!(out.contains(&line));
    }
}

#[test]
fn each_path_has_a_color_of_its_own() {
    let out = render_paths_dot("g", &parallel_paths(2000));
    let mut colors: Vec<&str> = Vec::new();
    for line in out.lines() {
        if let Some(rest) = line.strip_prefix("  n1 -> n2 [arrowhead=vee, color=\"") {
            let color = &rest[..7];
            assert!(color.starts_with('#'));
            assert!(color[1..].chars().all(|c| c.is_ascii_hexdigit()));
            assert_eq!(&rest[7..8], "\"");
            colors.push(color);
        }
    }
    assert_eq!(colors.len(), 2000);
    colors.sort();
    colors.dedup();
    assert_eq!(colors.len(), 2000);
}

#[test]
fn a_path_of_one_node_is_drawn_alone() {
    let paths = vec![PathHit { nodes: vec![node(5, "me")], steps: vec![] }];
    let out = render_paths_dot("g", &paths);
    assert!(out.ends_with(
        "  n5 [label=\"me\", tooltip=\"me\", color=\"#1f2330\", penwidth=2.5, fillcolor=\"#fff8e0\"];\n\n}\n"
    ));
}

#[test]
fn without_a_first_node_the_ends_are_minus_one() {
    let paths = vec![
        PathHit { nodes: vec![], steps: vec![] },
        PathHit { nodes: vec![node(-1, "minus"), node(4, "four")], steps: vec![] },
    ];
    let out = render_paths_dot("g", &paths);
    assert!(out.contains("  n-1 [label=\"minus\", tooltip=\"minus\", color=\"#1f2330\""));
    assert!(out.contains("  n4 [label=\"four\", tooltip=\"four\"];\n"));
}

#[test]
fn after_the_opaque_colors_come_fainter_ones() {
    for (i, color) in [
        (0x6, "#d36b6b"),
        (0x7, "#000000"),
        (0xffffff, "#61c887"),
        (0x1000000, "#3a73e8fe"),
        (0x1000007, "#000000fe"),
        (0xff000001, "#cc555500"),
        (0xffffffff, "#61c88700"),
    ] {
        let mut out = String::from("color=");
        push_color(&mut out, i);
        assert_eq!(out, format!("color={}", color));
    }
}
