use aoc2021::dijkstra::{Dijkstra, Node};

#[derive(Clone, Copy, Debug, PartialEq, Eq)]
struct Cell {
    row: usize,
    col: usize,
    width: usize,
}

impl Node for Cell {
    type Id = usize;

    fn id(&self) -> usize {
        self.row * self.width + self.col
    }
}

/// A state that remembers how many steps led to it; the place alone is its identity.
#[derive(Clone, Debug, PartialEq, Eq)]
struct Visit {
    place: u32,
    steps: usize,
}

impl Node for Visit {
    type Id = u32;

    fn id(&self) -> u32 {
        self.place
    }
}

fn place(p: u32) -> Visit {
    Visit { place: p, steps: 0 }
}

const CAVE: [&str; 10] = [
    "1163751742",
    "1381373672",
    "2136511328",
    "3694931569",
    "7463417111",
    "1319128137",
    "1359912421",
    "3125421639",
    "1293138521",
    "2311944581",
];

fn cave() -> Vec<Vec<usize>> {
    let mut grid = Vec::new();
    for line in CAVE.iter() {
        let mut row = Vec::new();
        for b in line.bytes() {
            row.push((b - b'0') as usize);
        }
        grid.push(row);
    }
    grid
}

fn tiled(grid: &Vec<Vec<usize>>, times: usize) -> Vec<Vec<usize>> {
    let rows = grid.len();
    let cols = grid[0].len();
    let mut out = vec![vec![0; cols * times]; rows * times];
    for r in 0..rows * times {
        for c in 0..cols * times {
            let lift = r / rows + c / cols;
            out[r][c] = (grid[r % rows][c % cols] - 1 + lift) % 9 + 1;
        }
    }
    out
}

fn lowest_total(grid: &Vec<Vec<usize>>) -> Option<usize> {
    let rows = grid.len();
    let cols = grid[0].len();
    let start = Cell { row: 0, col: 0, width: cols };
    let mut search = Dijkstra::new(
        start,
        |c: &Cell| c.row == rows - 1 && c.col == cols - 1,
        |c: &Cell| {
            let mut out = Vec::new();
            if c.row > 0 {
                out.push((Cell { row: c.row - 1, ..*c }, grid[c.row - 1][c.col]));
            }
            if c.col > 0 {
                out.push((Cell { col: c.col - 1, ..*c }, grid[c.row][c.col - 1]));
            }
            if c.row + 1 < rows {
                out.push((Cell { row: c.row + 1, ..*c }, grid[c.row + 1][c.col]));
            }
            if c.col + 1 < cols {
                out.push((Cell { col: c.col + 1, ..*c }, grid[c.row][c.col + 1]));
            }
            out
        },
    );
    search.next().map(|(_, cost)| cost)
}

/// The cheapest walk from 0 to each node by repeated relaxation over all edges.
fn relaxed(nodes: usize, edges: &Vec<(u32, u32, usize)>) -> Vec<Option<usize>> {
    let mut best: Vec<Option<usize>> = vec![None; nodes];
    best[0] = Some(0);
    for _ in 0..nodes {
        for &(from, to, weight) in edges.iter() {
            if let Some(d) = best[from as usize] {
                let through = d + weight;
                if best[to as usize].map_or(true, |old| through < old) {
                    best[to as usize] = Some(through);
                }
            }
        }
    }
    best
}

fn edges_from(edges: &Vec<(u32, u32, usize)>, v: &Visit) -> Vec<(Visit, usize)> {
    let mut out = Vec::new();
    for &(from, to, weight) in edges.iter() {
        if from == v.place {
            out.push((Visit { place: to, steps: v.steps + 1 }, weight));
        }
    }
    out
}

fn sample_edges() -> Vec<(u32, u32, usize)> {
    vec![
        (0, 1, 7),
        (0, 2, 9),
        (0, 5, 14),
        (1, 2, 10),
        (1, 3, 15),
        (2, 3, 11),
        (2, 5, 2),
        (3, 4, 6),
        (5, 4, 9),
        (1, 0, 7),
        (2, 0, 9),
        (4, 4, 0),
        (6, 0, 1),
    ]
}

#[test]
fn goal_at_start_comes_first_at_cost_zero() {
    let mut search = Dijkstra::new(place(3), |v: &Visit| v.place == 3, |_v: &Visit| Vec::new());
    assert_eq!(search.next(), Some((place(3), 0)));
    assert_eq!(search.next(), None);
}

#[test]
fn goal_at_start_is_not_expanded() {
    let mut search = Dijkstra::new(
        place(0),
        |_v: &Visit| true,
        |v: &Visit| vec![(Visit { place: v.place + 1, steps: v.steps + 1 }, 1)],
    );
    assert_eq!(search.next(), Some((place(0), 0)));
    assert_eq!(search.next(), None);
}

#[test]
fn cave_lowest_total_is_40() {
    assert_eq!(lowest_total(&cave()), Some(40));
}

#[test]
fn tiled_cave_lowest_total_is_315() {
    let big = tiled(&cave(), 5);
    assert_eq!(big.len(), 50);
    assert_eq!(big[0].len(), 50);
    assert_eq!(big[49][49], 9);
    assert_eq!(lowest_total(&big), Some(315));
}

#[test]
fn zero_cost_self_loop_ends() {
    let mut search = Dijkstra::new(
        place(0),
        |_v: &Visit| false,
        |v: &Visit| vec![(Visit { place: v.place, steps: v.steps + 1 }, 0)],
    );
    assert_eq!(search.next(), None);
    assert_eq!(search.next(), None);
}

#[test]
fn self_loop_beside_a_goal() {
    let mut search = Dijkstra::new(
        place(0),
        |v: &Visit| v.place == 1,
        |v: &Visit| vec![(place(v.place), 0), (place(1), 4)],
    );
    assert_eq!(search.next(), Some((place(1), 4)));
    assert_eq!(search.next(), None);
}

#[test]
fn first_result_matches_relaxation() {
    let edges = sample_edges();
    let best = relaxed(7, &edges);
    for target in 0..7u32 {
        let mut search = Dijkstra::new(
            place(0),
            |v: &Visit| v.place == target,
            |v: &Visit| edges_from(&edges, v),
        );
        let found = search.next().map(|(v, cost)| (v.place, cost));
        assert_eq!(found, best[target as usize].map(|d| (target, d)));
    }
    assert_eq!(best, vec![Some(0), Some(7), Some(9), Some(20), Some(20), Some(11), None]);
}

#[test]
fn cheapest_of_several_goals_comes_first() {
    let edges = sample_edges();
    let mut search = Dijkstra::new(
        place(0),
        |v: &Visit| v.place == 3 || v.place == 5,
        |v: &Visit| edges_from(&edges, v),
    );
    let first = search.next().unwrap();
    assert_eq!((first.0.place, first.1), (5, 11));
    assert_eq!(first.0.steps, 2);
    let second = search.next().unwrap();
    assert_eq!((second.0.place, second.1), (3, 20));
    assert_eq!(search.next(), None);
}

#[test]
fn results_ascend_and_differ() {
    let edges = sample_edges();
    let mut search =
        Dijkstra::new(place(0), |v: &Visit| v.place != 0, |v: &Visit| edges_from(&edges, v));
    let mut seen = Vec::new();
    let mut last = 0;
    while let Some((v, cost)) = search.next() {
        assert!(cost >= last);
        last = cost;
        assert!(!seen.contains(&v.place));
        seen.push(v.place);
    }
    // Goals are not expanded: only the neighbours of the start are reached.
    seen.sort();
    assert_eq!(seen, vec![1, 2, 5]);
}

#[test]
fn a_goal_hides_what_lies_behind_it() {
    // 0 -1-> 1 -1-> 2, both 1 and 2 goals: 2 is reached only through 1.
    let mut search = Dijkstra::new(
        place(0),
        |v: &Visit| v.place >= 1,
        |v: &Visit| if v.place < 2 { vec![(place(v.place + 1), 1)] } else { Vec::new() },
    );
    assert_eq!(search.next(), Some((place(1), 1)));
    assert_eq!(search.next(), None);
}

#[test]
fn unreachable_goal_gives_none_for_good() {
    let edges = sample_edges();
    let mut search =
        Dijkstra::new(place(0), |v: &Visit| v.place == 6, |v: &Visit| edges_from(&edges, v));
    assert_eq!(search.next(), None);
    assert_eq!(search.next(), None);
    assert_eq!(search.next(), None);
}

#[test]
fn each_identity_is_expanded_once() {
    let edges = sample_edges();
    let mut expanded: Vec<u32> = Vec::new();
    {
        let mut search = Dijkstra::new(
            place(0),
            |_v: &Visit| false,
            |v: &Visit| {
                expanded.push(v.place);
                edges_from(&edges, v)
            },
        );
        assert_eq!(search.next(), None);
    }
    expanded.sort();
    assert_eq!(expanded, vec![0, 1, 2, 3, 4, 5]);
}

#[test]
fn a_dearer_duplicate_is_dropped() {
    // 0 -> 1 at 10 and 0 -> 2 -> 1 at 3: both entries for 1 wait, the cheaper wins.
    let edges: Vec<(u32, u32, usize)> = vec![(0, 1, 10), (0, 2, 1), (2, 1, 2), (1, 3, 1)];
    let mut search =
        Dijkstra::new(place(0), |v: &Visit| v.place == 3, |v: &Visit| edges_from(&edges, v));
    let (goal, cost) = search.next().unwrap();
    assert_eq!((goal.place, cost), (3, 4));
    assert_eq!(goal.steps, 3);
    assert_eq!(search.next(), None);
}

#[test]
fn every_goal_is_listed_at_its_least_cost() {
    let edges = sample_edges();
    let mut search = Dijkstra::new(
        place(0),
        |v: &Visit| v.place == 3 || v.place == 4 || v.place == 5,
        |v: &Visit| edges_from(&edges, v),
    );
    let mut listed = Vec::new();
    while let Some((v, cost)) = search.next() {
        listed.push((v.place, cost));
    }
    // Place 4 lies behind the goals 3 and 5 only, so no search comes to it.
    assert_eq!(listed, vec![(5, 11), (3, 20)]);
    assert_eq!(search.next().map(|(v, cost)| (v.place, cost)), None);
}
