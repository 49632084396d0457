use aoc22::{
    best, build_graph, is_searchable, is_wf, compact, max_pressure, max_pressure_pair, parse, search,
    Edge, Graph, GraphError, Height, Valve,
};

const EXAMPLE: &str = "Valve AA has flow rate=0; tunnels lead to valves DD, II, BB
Valve BB has flow rate=13; tunnels lead to valves CC, AA
Valve CC has flow rate=2; tunnels lead to valves DD, BB
Valve DD has flow rate=20; tunnels lead to valves CC, AA, EE
Valve EE has flow rate=3; tunnels lead to valves FF, DD
Valve FF has flow rate=0; tunnels lead to valves EE, GG
Valve GG has flow rate=0; tunnels lead to valves FF, HH
Valve HH has flow rate=22; tunnel leads to valve GG
Valve II has flow rate=0; tunnels lead to valves AA, JJ
Valve JJ has flow rate=21; tunnel leads to valve II
";

const TWO_VALVES: &str = "Valve A has flow rate=0; tunnel leads to valve B
Valve B has flow rate=20; tunnel leads to valve A
";

fn graph_of(text: &str, start: &str) -> Graph {
    let lines = parse(text).expect("input parses");
    build_graph(&lines, start).expect("input describes a graph")
}

fn single(g: &Graph, budget: u32) -> Option<u64> {
    assert!(is_searchable(g, budget));
    max_pressure(g, budget)
}

fn pair(g: &Graph, budget: u32) -> u64 {
    assert!(is_searchable(g, budget));
    max_pressure_pair(g, budget)
}

/// Exhaustive search over every sequence of moves, with no merging of states.
fn brute(g: &Graph, v: usize, open: &mut Vec<bool>, flow: u64, left: u32) -> Option<u64> {
    if left == 0 {
        return Some(0);
    }
    let closed = g.valves.iter().enumerate().any(|(i, x)| x.flow_rate > 0 && !open[i]);
    if !closed {
        return Some(flow * left as u64);
    }
    let mut best: Option<u64> = None;
    let mut take = |x: Option<u64>| {
        if let Some(x) = x {
            best = Some(best.map_or(x, |b: u64| b.max(x)));
        }
    };
    if g.valves[v].flow_rate > 0 && !open[v] {
        open[v] = true;
        let rest = brute(g, v, open, flow + g.valves[v].flow_rate as u64, left - 1);
        open[v] = false;
        take(rest.map(|r| r + flow));
    }
    for e in &g.valves[v].adj {
        let t = e.time.min(left);
        let rest = brute(g, e.next, open, flow, left - t);
        take(rest.map(|r| r + flow * t as u64));
    }
    best
}

fn brute_best(g: &Graph, budget: u32) -> Option<u64> {
    let mut open = vec![false; g.valves.len()];
    brute(g, g.start, &mut open, 0, budget)
}

/// Shortest travel times between all valves, by name.
fn distances(g: &Graph) -> Vec<Vec<u64>> {
    let n = g.valves.len();
    let inf = u64::MAX / 4;
    let mut d = vec![vec![inf; n]; n];
    for i in 0..n {
        d[i][i] = 0;
        for e in &g.valves[i].adj {
            d[i][e.next] = d[i][e.next].min(e.time as u64);
        }
    }
    for k in 0..n {
        for i in 0..n {
            for j in 0..n {
                if d[i][k] + d[k][j] < d[i][j] {
                    d[i][j] = d[i][k] + d[k][j];
                }
            }
        }
    }
    d
}

fn index_of(g: &Graph, name: &str) -> usize {
    g.valves.iter().position(|v| v.name == name).unwrap()
}

#[test]
fn example_single_agent() {
    let g = compact(graph_of(EXAMPLE, "AA"));
    assert_eq!(single(&g, 30), Some(1651));
}

#[test]
fn example_two_agents() {
    let g = compact(graph_of(EXAMPLE, "AA"));
    assert_eq!(pair(&g, 26), 1707);
}

#[test]
fn example_without_compaction_gives_the_same() {
    let g = graph_of(EXAMPLE, "AA");
    assert_eq!(single(&g, 30), Some(1651));
}

#[test]
fn two_valves_two_minutes_release_nothing() {
    let g = graph_of(TWO_VALVES, "A");
    assert_eq!(single(&g, 2), Some(0));
}

#[test]
fn two_valves_three_minutes_release_twenty() {
    let g = graph_of(TWO_VALVES, "A");
    assert_eq!(single(&g, 3), Some(20));
}

#[test]
fn zero_budget_gives_initial_pressure() {
    let g = compact(graph_of(EXAMPLE, "AA"));
    assert_eq!(single(&g, 0), Some(0));
    let last = search(&g, 0);
    let set: Vec<usize> = (0..last.len()).filter(|&k| last[k].is_some()).collect();
    assert_eq!(set.len(), 1);
    assert_eq!(last[set[0]], Some(0));
}

#[test]
fn more_time_never_lowers_the_best() {
    let g = compact(graph_of(EXAMPLE, "AA"));
    let mut prev = 0;
    for budget in 0..=30 {
        let now = single(&g, budget).unwrap();
        assert!(now >= prev, "budget {budget}: {now} < {prev}");
        prev = now;
    }
}

#[test]
fn compaction_is_idempotent() {
    let once = compact(graph_of(EXAMPLE, "AA"));
    let twice = compact(compact(graph_of(EXAMPLE, "AA")));
    assert_eq!(format!("{once:?}"), format!("{twice:?}"));
}

#[test]
fn compaction_removes_only_empty_low_degree_valves() {
    let g = compact(graph_of(EXAMPLE, "AA"));
    let names: Vec<&str> = g.valves.iter().map(|v| v.name.as_str()).collect();
    assert_eq!(names, vec!["AA", "BB", "CC", "DD", "EE", "HH", "JJ"]);
    assert_eq!(g.valves[g.start].name, "AA");
    let jj = index_of(&g, "JJ");
    assert_eq!(g.valves[jj].adj, vec![Edge { time: 2, next: 0 }]);
    let hh = index_of(&g, "HH");
    assert_eq!(g.valves[hh].adj, vec![Edge { time: 3, next: index_of(&g, "EE") }]);
}

#[test]
fn compaction_keeps_distances() {
    let before = graph_of(EXAMPLE, "AA");
    let d0 = distances(&before);
    let names: Vec<String> = before.valves.iter().map(|v| v.name.clone()).collect();
    let after = compact(graph_of(EXAMPLE, "AA"));
    let d1 = distances(&after);
    for a in &after.valves {
        for b in &after.valves {
            let (i0, j0) = (
                names.iter().position(|n| *n == a.name).unwrap(),
                names.iter().position(|n| *n == b.name).unwrap(),
            );
            let (i1, j1) = (index_of(&after, &a.name), index_of(&after, &b.name));
            assert_eq!(d0[i0][j0], d1[i1][j1], "{} to {}", a.name, b.name);
        }
    }
}

#[test]
fn compaction_keeps_a_zero_valve_with_three_tunnels() {
    let text = "Valve AA has flow rate=0; tunnel leads to valve XX
Valve XX has flow rate=0; tunnels lead to valves AA, BB, CC
Valve BB has flow rate=4; tunnel leads to valve XX
Valve CC has flow rate=5; tunnel leads to valve XX
";
    let g = compact(graph_of(text, "AA"));
    assert_eq!(g.valves.len(), 4);
}

#[test]
fn two_agents_split_opposite_valves() {
    let text = "Valve AA has flow rate=0; tunnels lead to valves X1, Y1
Valve X1 has flow rate=0; tunnels lead to valves AA, X2
Valve X2 has flow rate=0; tunnels lead to valves X1, BB
Valve BB has flow rate=10; tunnel leads to valve X2
Valve Y1 has flow rate=0; tunnels lead to valves AA, Y2
Valve Y2 has flow rate=0; tunnels lead to valves Y1, CC
Valve CC has flow rate=10; tunnel leads to valve Y2
";
    let g = compact(graph_of(text, "AA"));
    assert_eq!(g.valves.len(), 3);
    assert_eq!(single(&g, 5), Some(10));
    assert_eq!(pair(&g, 5), 20);
}

#[test]
fn two_agents_never_do_worse_than_one() {
    let g = compact(graph_of(EXAMPLE, "AA"));
    for budget in [0, 5, 10, 26] {
        assert!(pair(&g, budget) >= single(&g, budget).unwrap());
    }
}

#[test]
fn pruned_search_matches_exhaustive_search() {
    let graphs = [
        (TWO_VALVES, "A"),
        (
            "Valve A has flow rate=0; tunnel leads to valve B
Valve B has flow rate=5; tunnels lead to valves A, C
Valve C has flow rate=0; tunnels lead to valves B, D
Valve D has flow rate=30; tunnel leads to valve C
",
            "A",
        ),
        (
            "Valve S has flow rate=1; tunnels lead to valves P, Q, R
Valve P has flow rate=7; tunnels lead to valves S, Q
Valve Q has flow rate=3; tunnels lead to valves P, R, S
Valve R has flow rate=11; tunnels lead to valves Q, S
",
            "S",
        ),
    ];
    for (text, start) in graphs {
        let g = graph_of(text, start);
        for budget in 0..=12 {
            assert_eq!(single(&g, budget), brute_best(&g, budget), "budget {budget}");
        }
    }
}

#[test]
fn longer_tunnels_after_compaction_match_exhaustive_search() {
    let g = compact(graph_of(EXAMPLE, "AA"));
    for budget in [0, 3, 6, 9] {
        assert_eq!(single(&g, budget), brute_best(&g, budget), "budget {budget}");
    }
}

#[test]
fn dead_end_gives_none() {
    let g = Graph {
        valves: vec![
            Valve { name: "A".to_string(), flow_rate: 0, adj: vec![Edge { time: 1, next: 1 }] },
            Valve { name: "B".to_string(), flow_rate: 0, adj: vec![] },
            Valve { name: "C".to_string(), flow_rate: 5, adj: vec![] },
        ],
        start: 0,
    };
    assert_eq!(single(&g, 1), Some(0));
    assert_eq!(single(&g, 2), None);
}

#[test]
fn parse_reads_each_line() {
    let lines = parse(EXAMPLE).unwrap();
    assert_eq!(lines.len(), 10);
    assert_eq!(lines[0].name, "AA");
    assert_eq!(lines[0].flow_rate, 0);
    assert_eq!(lines[0].tunnels, vec!["DD", "II", "BB"]);
    assert_eq!(lines[7].name, "HH");
    assert_eq!(lines[7].flow_rate, 22);
    assert_eq!(lines[7].tunnels, vec!["GG"]);
}

#[test]
fn parse_accepts_leading_zeros_and_underscores() {
    let lines = parse("Valve a_1 has flow rate=007; tunnel leads to valve _b\n").unwrap();
    assert_eq!(lines[0].name, "a_1");
    assert_eq!(lines[0].flow_rate, 7);
    assert_eq!(lines[0].tunnels, vec!["_b"]);
}

#[test]
fn parse_refuses_empty_input() {
    assert_eq!(parse("").unwrap_err().at, 0);
}

#[test]
fn parse_points_at_the_bad_line() {
    let text = "Valve A has flow rate=0; tunnel leads to valve B\nValve B has flow rate=x; tunnel leads to valve A\n";
    assert_eq!(parse(text).unwrap_err().at, 49);
}

#[test]
fn parse_refuses_a_missing_newline() {
    assert_eq!(parse("Valve A has flow rate=0; tunnel leads to valve B").unwrap_err().at, 0);
}

#[test]
fn parse_refuses_a_rate_beyond_u32() {
    assert!(parse("Valve A has flow rate=4294967296; tunnel leads to valve A\n").is_err());
    assert_eq!(
        parse("Valve A has flow rate=4294967295; tunnel leads to valve A\n").unwrap()[0].flow_rate,
        4294967295
    );
}

#[test]
fn parse_refuses_a_trailing_separator() {
    assert!(parse("Valve A has flow rate=1; tunnels lead to valves B, \n").is_err());
}

#[test]
fn build_resolves_labels_to_indices() {
    let g = graph_of("Valve Z has flow rate=1; tunnels lead to valves Y, X\nValve Y has flow rate=2; tunnel leads to valve Z\nValve X has flow rate=3; tunnel leads to valve Z\n", "X");
    assert_eq!(g.start, 2);
    assert_eq!(g.valves[0].adj, vec![Edge { time: 1, next: 1 }, Edge { time: 1, next: 2 }]);
    assert_eq!(g.valves[2].adj, vec![Edge { time: 1, next: 0 }]);
    assert!(is_wf(&g));
}

#[test]
fn build_refuses_a_duplicate_label() {
    let lines = parse("Valve A has flow rate=1; tunnel leads to valve B\nValve B has flow rate=2; tunnel leads to valve A\nValve A has flow rate=3; tunnel leads to valve B\n").unwrap();
    assert_eq!(build_graph(&lines, "A").unwrap_err(), GraphError::DuplicateValve { line: 2 });
}

#[test]
fn build_refuses_an_unknown_tunnel() {
    let lines = parse("Valve A has flow rate=1; tunnel leads to valve B\nValve B has flow rate=2; tunnel leads to valve C\n").unwrap();
    assert_eq!(build_graph(&lines, "A").unwrap_err(), GraphError::UnknownValve { line: 1 });
}

#[test]
fn build_refuses_an_unknown_start() {
    let lines = parse(TWO_VALVES).unwrap();
    assert_eq!(build_graph(&lines, "AA").unwrap_err(), GraphError::UnknownStart);
}

#[test]
fn wf_refuses_bad_graphs() {
    let bad_start = Graph { valves: vec![], start: 0 };
    assert!(!is_wf(&bad_start));
    let zero_time = Graph {
        valves: vec![Valve { name: "A".to_string(), flow_rate: 0, adj: vec![Edge { time: 0, next: 0 }] }],
        start: 0,
    };
    assert!(!is_wf(&zero_time));
    assert!(!is_searchable(&zero_time, 3));
}

#[test]
fn searchable_refuses_overflowing_pressure() {
    let g = Graph {
        valves: vec![Valve { name: "A".to_string(), flow_rate: u32::MAX, adj: vec![Edge { time: 1, next: 0 }] }],
        start: 0,
    };
    assert!(is_searchable(&g, 30));
    assert!(!is_searchable(&g, u32::MAX));
}

#[test]
fn heights_of_marked_squares() {
    assert_eq!(Height::Start.height(), 0);
    assert_eq!(Height::End.height(), 25);
    assert_eq!(Height::Height(7).height(), 7);
}

#[test]
fn best_takes_the_largest_present_value() {
    assert_eq!(best(&vec![None, Some(3), Some(7), None, Some(5)]), Some(7));
    assert_eq!(best(&vec![None, None]), None);
    assert_eq!(best(&vec![]), None);
}
