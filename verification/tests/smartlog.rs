use git_branchless::commit::Time;
use git_branchless::oid::NonZeroOid;
use git_branchless::smartlog::drawn::get_drawn_commits;
use git_branchless::smartlog::graph::{
    get_visible_commits, key_before, make_smartlog_graph, sort_children, sort_keys,
    walk_from_active_heads, ActiveHead, Node, NodeObject, ObservedCommit, SmartlogGraph, SortKey,
    Vertex,
};
use git_branchless::smartlog::render::{
    get_child_output, get_output, render_graph, CommitParents, EventCursorChoice, Glyphs, NodeText,
    SmartlogOptions,
};
use git_branchless::smartlog::roots::{
    get_roots, order_roots, split_commit_graph_by_roots, MergeBase, MergeBaseResult, RootOrder,
};
use git_branchless::smartlog::text::{BaseColor, Style, StyledSpan, StyledString};

fn oid(n: u8) -> NonZeroOid {
    NonZeroOid::from_bytes([n; 20]).unwrap()
}

fn time(seconds: i64) -> Time {
    Time { seconds, offset_minutes: 0 }
}

fn vertex(n: u8, seconds: i64, is_public: bool, parents: &[u8]) -> Vertex {
    Vertex {
        object: NodeObject::Commit { oid: oid(n), time: time(seconds) },
        is_public,
        is_obsolete: false,
        parents: parents.iter().map(|p| oid(*p)).collect(),
    }
}

fn head(path: Vec<Vertex>) -> ActiveHead {
    let last = path.last().unwrap();
    ActiveHead {
        head: Vertex {
            object: last.object,
            is_public: last.is_public,
            is_obsolete: last.is_obsolete,
            parents: last.parents.clone(),
        },
        path_to_main_branch: Some(path),
    }
}

fn node<'a>(graph: &'a SmartlogGraph, n: u8) -> &'a Node {
    graph.get(oid(n)).unwrap()
}

fn ascii_glyphs() -> Glyphs {
    Glyphs {
        line: "|".to_string(),
        line_with_offshoot: "|".to_string(),
        vertical_ellipsis: ":".to_string(),
        slash: "\\".to_string(),
        commit_visible: "o".to_string(),
        commit_visible_head: "@".to_string(),
        commit_obsolete: "x".to_string(),
        commit_obsolete_head: "%".to_string(),
        commit_main: "O".to_string(),
        commit_main_head: "@".to_string(),
        commit_main_obsolete: "X".to_string(),
        commit_main_obsolete_head: "%".to_string(),
    }
}

fn texts(names: &[(u8, &str)]) -> Vec<NodeText> {
    names
        .iter()
        .map(|(n, text)| NodeText { oid: oid(*n), text: StyledString::plain(text.to_string()) })
        .collect()
}

fn flat(lines: &[StyledString]) -> Vec<String> {
    lines
        .iter()
        .map(|line| line.spans.iter().map(|span| span.content.as_str()).collect::<String>())
        .collect()
}

fn parents_of(all: &[(u8, &[u8])]) -> Vec<CommitParents> {
    all.iter()
        .map(|(n, parents)| CommitParents {
            oid: oid(*n),
            parents: parents.iter().map(|p| oid(*p)).collect(),
        })
        .collect()
}

#[test]
fn smartlog_with_two_divergent_topics() {
    // The main branch is at commit 1, which is public; 2 and 3 are made on it.
    let heads = vec![head(vec![vertex(2, 10, false, &[1])]), head(vec![vertex(3, 20, false, &[1])])];
    let graph = make_smartlog_graph(&heads);
    assert_eq!(graph.len(), 2);
    assert!(!node(&graph, 2).is_main);
    assert!(!node(&graph, 3).is_main);
    assert_eq!(node(&graph, 2).parent, None);
    assert_eq!(node(&graph, 3).parent, None);
    let merge_bases = vec![MergeBase {
        lhs: oid(3),
        rhs: oid(2),
        result: MergeBaseResult::Found { oid: oid(1) },
    }];
    let roots = split_commit_graph_by_roots(&graph, &merge_bases);
    assert_eq!(roots, vec![oid(2), oid(3)]);
    // With the times the other way round, the other root comes first.
    let heads = vec![head(vec![vertex(2, 30, false, &[1])]), head(vec![vertex(3, 20, false, &[1])])];
    let graph = make_smartlog_graph(&heads);
    assert_eq!(split_commit_graph_by_roots(&graph, &merge_bases), vec![oid(3), oid(2)]);
}

#[test]
fn graph_links_are_mutual() {
    let heads = vec![
        head(vec![vertex(1, 0, true, &[9]), vertex(2, 10, false, &[1]), vertex(3, 20, false, &[2])]),
        head(vec![vertex(1, 0, true, &[9]), vertex(4, 5, false, &[1])]),
    ];
    let graph = make_smartlog_graph(&heads);
    assert_eq!(graph.len(), 4);
    assert!(node(&graph, 1).is_main);
    assert_eq!(node(&graph, 1).parent, None);
    assert_eq!(node(&graph, 1).children, vec![oid(4), oid(2)]);
    assert_eq!(node(&graph, 2).parent, Some(oid(1)));
    assert_eq!(node(&graph, 2).children, vec![oid(3)]);
    assert_eq!(node(&graph, 3).parent, Some(oid(2)));
    assert_eq!(node(&graph, 4).parent, Some(oid(1)));
    for node in &graph.nodes {
        if let Some(parent) = node.parent {
            let parent = graph.get(parent).unwrap();
            assert!(parent.children.contains(&node.object.get_oid()));
        }
        for child in &node.children {
            assert!(graph.get(*child).is_some());
        }
    }
    assert!(graph.get(oid(9)).is_none());
    assert_eq!(graph.find(oid(2)), Some(1));
    assert_eq!(graph.find(oid(9)), None);
}

#[test]
fn a_commit_of_the_main_branch_gets_no_parent() {
    let heads = vec![head(vec![vertex(1, 0, true, &[]), vertex(2, 1, true, &[1]), vertex(3, 2, false, &[2])])];
    let graph = make_smartlog_graph(&heads);
    assert_eq!(node(&graph, 2).parent, None);
    assert!(node(&graph, 1).children.is_empty());
    assert_eq!(node(&graph, 2).children, vec![oid(3)]);
    assert_eq!(split_commit_graph_by_roots(&graph, &vec![]).len(), 2);
}

#[test]
fn a_head_without_a_path_stands_alone() {
    let heads = vec![ActiveHead { head: vertex(5, 1, false, &[4]), path_to_main_branch: None }];
    let graph = make_smartlog_graph(&heads);
    assert_eq!(graph.len(), 1);
    assert_eq!(node(&graph, 5).parent, None);
}

#[test]
fn the_last_vertex_for_a_commit_counts() {
    let mut obsolete = vertex(2, 10, false, &[1]);
    obsolete.is_obsolete = true;
    let heads = vec![
        head(vec![vertex(1, 0, true, &[]), vertex(2, 10, false, &[1])]),
        head(vec![vertex(1, 0, true, &[]), obsolete, vertex(3, 20, false, &[2])]),
    ];
    let graph = make_smartlog_graph(&heads);
    assert_eq!(graph.len(), 3);
    assert!(node(&graph, 2).is_obsolete);
    assert_eq!(
        graph.nodes.iter().map(|n| n.object.get_oid()).collect::<Vec<_>>(),
        vec![oid(1), oid(2), oid(3)]
    );
}

#[test]
fn children_are_sorted_by_time_then_identifier() {
    let gone = Vertex {
        object: NodeObject::GarbageCollected { oid: oid(9) },
        is_public: false,
        is_obsolete: false,
        parents: vec![oid(1)],
    };
    let heads = vec![
        head(vec![vertex(1, 0, true, &[]), vertex(5, 30, false, &[1])]),
        head(vec![vertex(1, 0, true, &[]), vertex(4, 20, false, &[1])]),
        head(vec![vertex(1, 0, true, &[]), vertex(3, 20, false, &[1])]),
        head(vec![vertex(1, 0, true, &[]), gone]),
    ];
    let unsorted = walk_from_active_heads(&heads);
    assert_eq!(node(&unsorted, 1).children, vec![oid(5), oid(4), oid(3), oid(9)]);
    let first = make_smartlog_graph(&heads);
    let second = make_smartlog_graph(&heads);
    assert_eq!(node(&first, 1).children, vec![oid(9), oid(3), oid(4), oid(5)]);
    assert_eq!(node(&first, 1).children, node(&second, 1).children);
    let mut again = walk_from_active_heads(&heads);
    sort_children(&mut again);
    assert_eq!(node(&again, 1).children, node(&first, 1).children);
}

#[test]
fn a_merge_commit_is_a_child_of_each_parent_in_the_graph() {
    let heads = vec![
        head(vec![vertex(1, 0, true, &[]), vertex(2, 10, false, &[1])]),
        head(vec![vertex(1, 0, true, &[]), vertex(3, 20, false, &[1]), vertex(4, 30, false, &[2, 3, 8])]),
    ];
    let graph = make_smartlog_graph(&heads);
    assert_eq!(node(&graph, 4).parent, Some(oid(3)));
    assert_eq!(node(&graph, 2).children, vec![oid(4)]);
    assert_eq!(node(&graph, 3).children, vec![oid(4)]);
}

#[test]
fn sort_keys_sorts_and_keeps_every_key() {
    let key = |seconds: Option<i64>, n: u8| SortKey { time: seconds.map(time), oid: oid(n) };
    let keys = vec![key(Some(5), 1), key(None, 7), key(Some(2), 9), key(Some(5), 0x10), key(None, 3), key(Some(2), 9)];
    let sorted = sort_keys(&keys);
    assert_eq!(
        sorted.iter().map(|k| (k.time.map(|t| t.seconds), k.oid)).collect::<Vec<_>>(),
        vec![
            (None, oid(3)),
            (None, oid(7)),
            (Some(2), oid(9)),
            (Some(2), oid(9)),
            (Some(5), oid(1)),
            (Some(5), oid(0x10)),
        ]
    );
    assert!(key_before(&key(None, 9), &key(Some(-5), 1)));
    assert!(!key_before(&key(Some(1), 1), &key(Some(1), 1)));
    let earlier_zone = SortKey { time: Some(Time { seconds: 1, offset_minutes: -60 }), oid: oid(9) };
    assert!(key_before(&earlier_zone, &key(Some(1), 1)));
}

#[test]
fn commits_come_latest_first() {
    let gone = Vertex {
        object: NodeObject::GarbageCollected { oid: oid(9) },
        is_public: false,
        is_obsolete: false,
        parents: vec![],
    };
    let heads = vec![head(vec![vertex(1, 5, true, &[]), vertex(2, 7, false, &[1]), gone, vertex(3, 7, false, &[2])])];
    let graph = make_smartlog_graph(&heads);
    assert_eq!(
        graph.get_commits().iter().map(|k| k.oid).collect::<Vec<_>>(),
        vec![oid(3), oid(2), oid(1)]
    );
}

#[test]
fn visible_commits_leave_out_the_obsolete_ones_on_demand() {
    let observed = vec![
        ObservedCommit { oid: oid(1), is_obsolete: false },
        ObservedCommit { oid: oid(2), is_obsolete: true },
        ObservedCommit { oid: oid(3), is_obsolete: false },
    ];
    assert_eq!(get_visible_commits(&observed, true), vec![oid(1), oid(3)]);
    assert_eq!(get_visible_commits(&observed, false), vec![oid(1), oid(2), oid(3)]);
}

#[test]
fn root_order_is_total() {
    let commit = |n: u8, seconds: i64| NodeObject::Commit { oid: oid(n), time: time(seconds) };
    let gone = |n: u8| NodeObject::GarbageCollected { oid: oid(n) };
    let table = vec![
        MergeBase { lhs: oid(1), rhs: oid(2), result: MergeBaseResult::Found { oid: oid(1) } },
        MergeBase { lhs: oid(3), rhs: oid(4), result: MergeBaseResult::NotFound },
        MergeBase { lhs: oid(5), rhs: oid(6), result: MergeBaseResult::Failed },
        MergeBase { lhs: oid(7), rhs: oid(8), result: MergeBaseResult::Found { oid: oid(9) } },
    ];
    // The merge base comes first, whatever the times say.
    assert_eq!(order_roots(&table, &commit(1, 50), &commit(2, 10)), RootOrder::Less);
    assert_eq!(order_roots(&table, &commit(2, 10), &commit(1, 50)), RootOrder::Greater);
    // Without an order in the graph, the time decides, then the identifier.
    assert_eq!(order_roots(&table, &commit(3, 10), &commit(4, 5)), RootOrder::Greater);
    assert_eq!(order_roots(&table, &commit(4, 5), &commit(3, 10)), RootOrder::Less);
    assert_eq!(order_roots(&table, &commit(3, 5), &commit(4, 5)), RootOrder::Less);
    assert_eq!(order_roots(&table, &commit(7, 5), &commit(8, 9)), RootOrder::Less);
    // Where the merge base could not be had, the identifiers decide.
    assert_eq!(order_roots(&table, &commit(5, 50), &commit(6, 10)), RootOrder::Less);
    assert_eq!(order_roots(&table, &commit(0x20, 1), &commit(0x10, 9)), RootOrder::Greater);
    // So they do where a commit is gone.
    assert_eq!(order_roots(&table, &gone(2), &commit(1, 50)), RootOrder::Greater);
    assert_eq!(order_roots(&table, &gone(1), &gone(1)), RootOrder::Equal);
    let all = [commit(1, 50), commit(2, 10), commit(3, 10), commit(4, 5), commit(5, 1), gone(6), commit(7, 5), commit(8, 5)];
    for a in &all {
        for b in &all {
            if a.get_oid() != b.get_oid() {
                let forth = order_roots(&table, a, b);
                let back = order_roots(&table, b, a);
                assert_ne!(forth, RootOrder::Equal);
                assert_eq!(forth == RootOrder::Less, back == RootOrder::Greater);
            }
        }
    }
}

#[test]
fn graph_is_rendered_with_side_branches() {
    let heads = vec![
        head(vec![vertex(1, 0, true, &[9]), vertex(2, 10, false, &[1]), vertex(3, 20, false, &[2])]),
        head(vec![vertex(1, 0, true, &[9]), vertex(4, 30, false, &[1])]),
    ];
    let graph = make_smartlog_graph(&heads);
    let names = texts(&[(1, "main"), (2, "a1"), (3, "a2"), (4, "b1")]);
    let parents = parents_of(&[(1, &[9]), (2, &[1]), (3, &[2]), (4, &[1])]);
    let lines = render_graph(&ascii_glyphs(), &vec![], &parents, &graph, Some(oid(3)), &names);
    assert_eq!(
        flat(&lines),
        vec![":", "O main", "|\\", "| o a1", "| |\\", "| @ a2", "|\\", "o b1"]
    );
    // The line of the commit that is checked out is bold, and no other; the
    // indent in front of it is not.
    for (i, line) in lines.iter().enumerate() {
        for span in &line.spans {
            assert_eq!(span.style.bold, i == 5 && span.content != "| ");
        }
    }
    assert_eq!(
        lines[5].spans.iter().map(|span| span.content.as_str()).collect::<Vec<_>>(),
        vec!["| ", "@", " ", "a2"]
    );
}

#[test]
fn roots_are_joined_by_a_line_or_an_ellipsis() {
    // Two commits of the main branch, each with a commit on it; 2 is the
    // child of 1, and 5 has ancestors that are not shown.
    let heads = vec![
        head(vec![vertex(1, 0, true, &[]), vertex(3, 10, false, &[1])]),
        head(vec![vertex(2, 5, true, &[1]), vertex(4, 20, false, &[2])]),
        head(vec![vertex(5, 6, true, &[8]), vertex(6, 30, false, &[5])]),
    ];
    let graph = make_smartlog_graph(&heads);
    let merge_bases = vec![
        MergeBase { lhs: oid(1), rhs: oid(2), result: MergeBaseResult::Found { oid: oid(1) } },
        MergeBase { lhs: oid(2), rhs: oid(5), result: MergeBaseResult::Found { oid: oid(2) } },
        MergeBase { lhs: oid(1), rhs: oid(5), result: MergeBaseResult::Found { oid: oid(1) } },
    ];
    let roots = split_commit_graph_by_roots(&graph, &merge_bases);
    assert_eq!(roots, vec![oid(1), oid(2), oid(5)]);
    let names = texts(&[(1, "one"), (2, "two"), (3, "three"), (4, "four"), (5, "five"), (6, "six")]);
    let parents = parents_of(&[(1, &[]), (2, &[1]), (5, &[8])]);
    let lines = get_output(&ascii_glyphs(), &parents, &graph, &names, None, &roots);
    assert_eq!(
        flat(&lines),
        vec![
            "O one", "|\\", "| o three", "|", "O two", "|\\", ": o four", ":", "O five",
            "|\\", "o six",
        ]
    );
    assert_eq!(
        flat(&render_graph(&ascii_glyphs(), &merge_bases, &parents, &graph, None, &names)),
        flat(&lines)
    );
}

#[test]
fn unrelated_roots_are_set_apart_by_an_empty_line() {
    let heads = vec![
        head(vec![vertex(1, 0, false, &[])]),
        head(vec![vertex(2, 5, false, &[])]),
    ];
    let graph = make_smartlog_graph(&heads);
    let names = texts(&[(1, "one"), (2, "two")]);
    let lines = render_graph(&ascii_glyphs(), &vec![], &vec![], &graph, None, &names);
    assert_eq!(flat(&lines), vec!["o one", "", "o two"]);
}

#[test]
fn glyph_is_chosen_by_main_obsolete_and_head() {
    let glyphs = ascii_glyphs();
    for (is_main, is_obsolete, is_head, expected) in [
        (false, false, false, "o"),
        (false, false, true, "@"),
        (false, true, false, "x"),
        (false, true, true, "%"),
        (true, false, false, "O"),
        (true, false, true, "@"),
        (true, true, false, "X"),
        (true, true, true, "%"),
    ] {
        let graph = SmartlogGraph {
            nodes: vec![Node {
                object: NodeObject::Commit { oid: oid(1), time: time(0) },
                parent: None,
                children: vec![],
                is_main,
                is_obsolete,
            }],
        };
        let head_oid = if is_head { Some(oid(1)) } else { None };
        let lines = get_child_output(&glyphs, &graph, &vec![oid(1)], &vec![], head_oid, oid(1), &None);
        assert_eq!(flat(&lines), vec![format!("{} ", expected)]);
    }
}

#[test]
fn child_that_is_a_root_or_unknown_is_left_out() {
    let graph = SmartlogGraph {
        nodes: vec![
            Node {
                object: NodeObject::Commit { oid: oid(1), time: time(0) },
                parent: None,
                children: vec![oid(2), oid(7), oid(3)],
                is_main: true,
                is_obsolete: false,
            },
            Node {
                object: NodeObject::Commit { oid: oid(2), time: time(1) },
                parent: Some(oid(1)),
                children: vec![],
                is_main: false,
                is_obsolete: false,
            },
            Node {
                object: NodeObject::Commit { oid: oid(3), time: time(2) },
                parent: None,
                children: vec![],
                is_main: true,
                is_obsolete: false,
            },
        ],
    };
    let names = texts(&[(1, "one"), (2, "two"), (3, "three")]);
    let lines = get_child_output(
        &ascii_glyphs(),
        &graph,
        &vec![oid(1), oid(3)],
        &names,
        None,
        oid(1),
        &Some("|".to_string()),
    );
    assert_eq!(flat(&lines), vec!["O one", "|\\", "| o two"]);
    // A commit that is not in the graph has no lines.
    assert!(get_child_output(&ascii_glyphs(), &graph, &vec![], &names, None, oid(9), &None).is_empty());
}

#[test]
fn only_child_is_led_to_by_a_branch_and_not_indented() {
    let heads = vec![head(vec![vertex(1, 0, false, &[]), vertex(2, 10, false, &[1])])];
    let graph = make_smartlog_graph(&heads);
    let names = texts(&[(1, "one"), (2, "two")]);
    let mut glyphs = ascii_glyphs();
    glyphs.line_with_offshoot = "+".to_string();
    let lines = get_child_output(&glyphs, &graph, &vec![oid(1)], &names, None, oid(1), &None);
    assert_eq!(flat(&lines), vec!["o one", "+\\", "o two"]);
    let lines = get_child_output(
        &glyphs,
        &graph,
        &vec![oid(1)],
        &names,
        None,
        oid(1),
        &Some(":".to_string()),
    );
    assert_eq!(flat(&lines), vec!["o one", "+\\", ": o two"]);
}

#[test]
fn a_graph_with_a_cycle_is_drawn_to_the_depth_of_its_size() {
    let looping = |n: u8, child: u8| Node {
        object: NodeObject::Commit { oid: oid(n), time: time(0) },
        parent: None,
        children: vec![oid(child)],
        is_main: false,
        is_obsolete: false,
    };
    let graph = SmartlogGraph { nodes: vec![looping(1, 2), looping(2, 1)] };
    let lines = get_child_output(&ascii_glyphs(), &graph, &vec![], &vec![], None, oid(1), &None);
    assert_eq!(flat(&lines), vec!["o ", "|\\", "o ", "|\\", "o "]);
}

#[test]
fn children_that_are_named_twice_are_kept_twice() {
    let child = |n: u8, seconds: i64| Node {
        object: NodeObject::Commit { oid: oid(n), time: time(seconds) },
        parent: Some(oid(1)),
        children: vec![],
        is_main: false,
        is_obsolete: false,
    };
    let mut graph = SmartlogGraph {
        nodes: vec![
            Node {
                object: NodeObject::Commit { oid: oid(1), time: time(0) },
                parent: None,
                children: vec![oid(3), oid(2), oid(3), oid(9), oid(2)],
                is_main: true,
                is_obsolete: false,
            },
            child(2, 20),
            child(3, 10),
        ],
    };
    sort_children(&mut graph);
    assert_eq!(graph.nodes[0].children, vec![oid(9), oid(3), oid(3), oid(2), oid(2)]);
    let sorted = graph.nodes[0].children.clone();
    sort_children(&mut graph);
    assert_eq!(graph.nodes[0].children, sorted);
}

#[test]
fn event_number_chooses_the_point_in_the_event_log() {
    let options = |event_id: Option<isize>| SmartlogOptions { event_id, ..SmartlogOptions::default() };
    assert_eq!(options(None).choose_event_cursor(), EventCursorChoice::Default);
    assert_eq!(options(Some(-2)).choose_event_cursor(), EventCursorChoice::AdvanceFromDefault { by: -2 });
    assert_eq!(options(Some(0)).choose_event_cursor(), EventCursorChoice::At { event_id: 0 });
    assert_eq!(options(Some(7)).choose_event_cursor(), EventCursorChoice::At { event_id: 7 });
}

#[test]
fn styled_text_keeps_its_spans() {
    let red = Style { color: Some(BaseColor::Red), light: true, bold: false, dim: false, underline: false };
    let mut line = StyledString::new();
    line.append_plain("a".to_string());
    line.append(StyledString { spans: vec![StyledSpan { content: "b".to_string(), style: red }] });
    assert_eq!(line.spans.len(), 2);
    assert_eq!(line.spans[0].style, Style::plain());
    assert_eq!(line.spans[1].style, red);
    let bold = line.clone().into_bold();
    assert_eq!(bold.spans[1].style, Style { bold: true, ..red });
    assert_eq!(bold.spans[0].content, "a");
    assert_eq!(line.clone(), line);
}

#[test]
fn smartlog_options_default_to_draft_commits() {
    let options = SmartlogOptions::default();
    assert!(!options.show_hidden_commits);
    assert_eq!(options.event_id, None);
    assert_eq!(options.revset.0, "draft()");
}

#[test]
fn a_graph_with_one_commit_twice_is_not_well_formed() {
    let plain = |n: u8| Node {
        object: NodeObject::Commit { oid: oid(n), time: time(0) },
        parent: None,
        children: vec![],
        is_main: false,
        is_obsolete: false,
    };
    assert!(SmartlogGraph { nodes: vec![] }.is_well_formed());
    assert!(SmartlogGraph { nodes: vec![plain(1), plain(2), plain(3)] }.is_well_formed());
    assert!(!SmartlogGraph { nodes: vec![plain(1), plain(2), plain(1)] }.is_well_formed());
    assert!(!SmartlogGraph { nodes: vec![plain(2), plain(2)] }.is_well_formed());
    let gone = Node {
        object: NodeObject::GarbageCollected { oid: oid(1) },
        parent: None,
        children: vec![],
        is_main: false,
        is_obsolete: false,
    };
    assert!(!SmartlogGraph { nodes: vec![plain(1), gone] }.is_well_formed());
}

#[test]
fn drawn_commits_stand_in_the_order_of_drawing() {
    let node = |n: u8, parent: Option<u8>, children: &[u8]| Node {
        object: NodeObject::Commit { oid: oid(n), time: time(n as i64) },
        parent: parent.map(oid),
        children: children.iter().map(|c| oid(*c)).collect(),
        is_main: false,
        is_obsolete: false,
    };
    let graph = SmartlogGraph {
        nodes: vec![
            node(5, None, &[]),
            node(1, None, &[2, 9, 3, 5]),
            node(3, Some(1), &[]),
            node(2, Some(1), &[4]),
            node(4, Some(2), &[]),
            node(6, None, &[]),
        ],
    };
    // A child that the graph does not hold, and one that is a root, are not
    // drawn below their parent; a commit that hangs on no root is not drawn.
    assert_eq!(
        get_drawn_commits(&graph, &vec![oid(1), oid(5)]),
        vec![oid(1), oid(2), oid(4), oid(3), oid(5)]
    );
    assert_eq!(get_roots(&graph), vec![oid(5), oid(1), oid(6)]);
    assert_eq!(get_drawn_commits(&graph, &vec![]), Vec::<NonZeroOid>::new());
    assert_eq!(get_drawn_commits(&graph, &vec![oid(7)]), Vec::<NonZeroOid>::new());

    // The texts of the commits that are not drawn play no part.
    let text = |n: u8| NodeText { oid: oid(n), text: StyledString::plain(format!("c{}", n)) };
    let glyphs = ascii_glyphs();
    let roots = vec![oid(1), oid(5)];
    let all: Vec<NodeText> = [1u8, 2, 3, 4, 5, 6].iter().map(|n| text(*n)).collect();
    let drawn: Vec<NodeText> = [1u8, 2, 4, 3, 5].iter().map(|n| text(*n)).collect();
    let with_all = get_output(&glyphs, &vec![], &graph, &all, None, &roots);
    let with_drawn = get_output(&glyphs, &vec![], &graph, &drawn, None, &roots);
    assert_eq!(with_all, with_drawn);
    assert_eq!(
        flat(&with_all),
        vec!["o c1", "|\\", "| o c2", "| |\\", "| o c4", "|\\", "| o c3", "", "o c5"]
    );
}
