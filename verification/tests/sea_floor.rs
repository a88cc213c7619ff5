use aoc2021::sea_floor::{Cucumber, Point, SeaFloor};

fn show(floor: &SeaFloor) -> String {
    let mut out = String::new();
    for r in 0..floor.rows() {
        for c in 0..floor.cols() {
            out.push(match floor.get(r, c) {
                Some(Cucumber::East) => '>',
                Some(Cucumber::South) => 'v',
                None => '.',
            });
        }
        out.push('\n');
    }
    out
}

fn steps_until_still(input: &str) -> usize {
    let mut floor = SeaFloor::parse(input);
    let mut step = 0;
    loop {
        step += 1;
        let east = floor.move_east();
        let south = floor.move_south();
        if !east && !south {
            return step;
        }
    }
}

fn cucumbers(floor: &SeaFloor, width: usize) -> Vec<(usize, usize, Cucumber)> {
    let mut out = Vec::new();
    for r in 0..floor.rows() {
        for c in 0..width {
            if let Some(k) = floor.get(r, c) {
                out.push((r, c, k));
            }
        }
    }
    out
}

const HERDS: &str = "v...>>.vv>\n.vv>>.vv..\n>>.>v>...v\n>>v>>.>.v.\nv>v.vv.v..\n>.>>..v...\n.vv..>.>v.\nv.v..>>v.v\n....v..v.>\n";

#[test]
fn point_new_keeps_row_and_col() {
    assert_eq!(Point::new(3, 7), Point { row: 3, col: 7 });
}

#[test]
fn parse_reads_rows_and_cells() {
    let floor = SeaFloor::parse("..>\nv.>\n");
    assert_eq!(floor.rows(), 2);
    assert_eq!(floor.cols(), 3);
    assert_eq!(floor.get(0, 0), None);
    assert_eq!(floor.get(0, 2), Some(Cucumber::East));
    assert_eq!(floor.get(1, 0), Some(Cucumber::South));
    assert_eq!(show(&floor), "..>\nv.>\n");
}

#[test]
fn parse_without_final_newline_and_with_carriage_returns() {
    assert_eq!(show(&SeaFloor::parse("..>\nv.>")), "..>\nv.>\n");
    assert_eq!(show(&SeaFloor::parse("..>\r\nv.>\r\n")), "..>\nv.>\n");
}

#[test]
fn empty_map_is_an_empty_floor() {
    let mut floor = SeaFloor::parse("");
    assert_eq!(floor.rows(), 0);
    assert_eq!(floor.cols(), 0);
    assert!(!floor.has(Cucumber::East));
    assert!(!floor.has(Cucumber::South));
    assert_eq!(floor.get(0, 0), None);
    assert!(!floor.move_east());
    assert!(!floor.move_south());
    assert!(!floor.step());
    assert_eq!(steps_until_still(""), 1);
}

#[test]
fn empty_lines_are_rows_without_columns() {
    let floor = SeaFloor::parse("\n");
    assert_eq!((floor.rows(), floor.cols()), (1, 0));
    let floor = SeaFloor::parse("..\n\n");
    assert_eq!((floor.rows(), floor.cols()), (2, 0));
    let floor = SeaFloor::parse("v\n\n");
    assert_eq!((floor.rows(), floor.cols()), (2, 0));
    assert!(floor.has(Cucumber::South));
    assert!(!floor.has(Cucumber::East));
    assert_eq!(floor.get(0, 0), Some(Cucumber::South));
}

#[test]
fn the_last_line_gives_the_columns() {
    let floor = SeaFloor::parse(">.>..\n..\n");
    assert_eq!((floor.rows(), floor.cols()), (2, 2));
    assert_eq!(
        cucumbers(&floor, 8),
        vec![(0, 0, Cucumber::East), (0, 2, Cucumber::East)]
    );
    let floor = SeaFloor::parse("..\n>.>..");
    assert_eq!((floor.rows(), floor.cols()), (2, 5));
    assert_eq!(
        cucumbers(&floor, 8),
        vec![(1, 0, Cucumber::East), (1, 2, Cucumber::East)]
    );
}

#[test]
fn a_bare_carriage_return_is_a_cell() {
    let floor = SeaFloor::parse(">\r");
    assert_eq!((floor.rows(), floor.cols()), (1, 2));
    let floor = SeaFloor::parse(">\r\n");
    assert_eq!((floor.rows(), floor.cols()), (1, 1));
    let floor = SeaFloor::parse(">\r.\n");
    assert_eq!((floor.rows(), floor.cols()), (1, 3));
}

#[test]
fn one_character_is_one_cell() {
    let floor = SeaFloor::parse("\u{e9}>\n.v\n");
    assert_eq!((floor.rows(), floor.cols()), (2, 2));
    assert_eq!(show(&floor), ".>\n.v\n");
    let floor = SeaFloor::parse("\u{2192}\u{1f980}>v\u{e9}");
    assert_eq!((floor.rows(), floor.cols()), (1, 5));
    assert_eq!(show(&floor), "..>v.\n");
}

#[test]
fn cucumbers_beyond_the_last_column_come_onto_the_floor() {
    let mut floor = SeaFloor::parse(">.>..\n..\n");
    assert!(floor.move_east());
    assert_eq!(cucumbers(&floor, 8), vec![(0, 1, Cucumber::East)]);
    assert!(floor.move_east());
    assert_eq!(cucumbers(&floor, 8), vec![(0, 0, Cucumber::East)]);

    let mut floor = SeaFloor::parse("..v\n.\n");
    assert_eq!((floor.rows(), floor.cols()), (2, 1));
    assert!(!floor.move_east());
    assert!(floor.move_south());
    assert_eq!(cucumbers(&floor, 8), vec![(1, 0, Cucumber::South)]);
    assert!(floor.move_south());
    assert_eq!(cucumbers(&floor, 8), vec![(0, 0, Cucumber::South)]);
}

#[test]
fn cucumbers_beyond_the_last_column_wait_while_blocked() {
    let mut floor = SeaFloor::parse(">>>\n>\n");
    assert!(!floor.move_east());
    assert!(!floor.move_south());
    assert_eq!(
        cucumbers(&floor, 8),
        vec![
            (0, 0, Cucumber::East),
            (0, 1, Cucumber::East),
            (0, 2, Cucumber::East),
            (1, 0, Cucumber::East)
        ]
    );

    let mut floor = SeaFloor::parse("v..v\n.v\n");
    assert!(floor.move_south());
    assert_eq!(
        cucumbers(&floor, 8),
        vec![
            (0, 1, Cucumber::South),
            (0, 3, Cucumber::South),
            (1, 0, Cucumber::South)
        ]
    );
}

#[test]
fn two_cucumbers_that_move_onto_one_cell_become_one() {
    let mut floor = SeaFloor::parse(".v.v\nv.\n");
    assert!(floor.move_south());
    assert_eq!(
        cucumbers(&floor, 8),
        vec![(0, 0, Cucumber::South), (1, 1, Cucumber::South)]
    );
}

#[test]
fn a_short_row_is_filled_up() {
    let mut floor = SeaFloor::parse(">\n...\n");
    assert_eq!((floor.rows(), floor.cols()), (2, 3));
    assert!(floor.move_east());
    assert_eq!(cucumbers(&floor, 8), vec![(0, 1, Cucumber::East)]);
    assert!(floor.move_east());
    assert!(floor.move_east());
    assert_eq!(cucumbers(&floor, 8), vec![(0, 0, Cucumber::East)]);
}

#[test]
fn from_rows_takes_the_last_row_for_the_columns() {
    let floor = SeaFloor::from_rows(Vec::new());
    assert_eq!((floor.rows(), floor.cols()), (0, 0));
    let floor = SeaFloor::from_rows(vec![
        vec![None, None, Some(Cucumber::South)],
        vec![Some(Cucumber::East), None],
    ]);
    assert_eq!((floor.rows(), floor.cols()), (2, 2));
    assert_eq!(
        cucumbers(&floor, 8),
        vec![(0, 2, Cucumber::South), (1, 0, Cucumber::East)]
    );
}

#[test]
fn get_finds_nothing_outside_the_floor() {
    let floor = SeaFloor::parse("v>\n>v\n");
    assert_eq!(floor.get(1, 1), Some(Cucumber::South));
    assert_eq!(floor.get(1, 2), None);
    assert_eq!(floor.get(2, 0), None);
    assert_eq!(floor.get(usize::MAX, usize::MAX), None);
}

#[test]
fn has_tells_the_herds_apart() {
    let floor = SeaFloor::parse("..\n.>\n");
    assert!(floor.has(Cucumber::East));
    assert!(!floor.has(Cucumber::South));
    let floor = SeaFloor::parse("..\n..\n");
    assert!(!floor.has(Cucumber::East));
}

#[test]
fn step_moves_east_then_south() {
    let mut floor = SeaFloor::parse("..........\n.>v....v..\n.......>..\n..........\n");
    assert!(floor.step());
    assert_eq!(show(&floor), "..........\n.>........\n..v....v>.\n..........\n");
    let mut stuck = SeaFloor::parse(">>\nvv\n");
    assert!(!stuck.step());
    assert_eq!(show(&stuck), ">>\nvv\n");
    let mut south_only = SeaFloor::parse(">>\nv.\n..\n");
    assert!(south_only.step());
    assert_eq!(show(&south_only), ">>\n..\nv.\n");
}

#[test]
fn step_by_step_the_herds_stop_after_58_steps() {
    let mut floor = SeaFloor::parse(HERDS);
    let mut steps = 1;
    while floor.step() {
        steps += 1;
    }
    assert_eq!(steps, 58);
    assert_eq!(
        show(&floor),
        "..>>v>vv..\n..v.>>vv..\n..>>v>>vv.\n..>>>>>vv.\nv......>vv\nv>v....>>v\nvvv.....>>\n>vv......>\n.>v.vv.v..\n"
    );
}

#[test]
fn wrap_goes_around_the_edges() {
    let floor = SeaFloor::parse("...\n...\n");
    assert_eq!(floor.wrap(2, 3), Point { row: 0, col: 0 });
    assert_eq!(floor.wrap(1, 2), Point { row: 1, col: 2 });
    assert_eq!(floor.wrap(5, 7), Point { row: 1, col: 1 });
}

#[test]
fn east_herd_moves_all_at_once() {
    let mut floor = SeaFloor::parse("...>>>>>...\n");
    assert!(floor.move_east());
    assert_eq!(show(&floor), "...>>>>.>..\n");
    assert!(floor.move_east());
    assert_eq!(show(&floor), "...>>>.>.>.\n");
}

#[test]
fn east_before_south() {
    let mut floor = SeaFloor::parse("..........\n.>v....v..\n.......>..\n..........\n");
    assert!(floor.move_east());
    assert!(floor.move_south());
    assert_eq!(show(&floor), "..........\n.>........\n..v....v>.\n..........\n");
}

#[test]
fn herds_go_around_the_edges() {
    let mut floor =
        SeaFloor::parse("...>...\n.......\n......>\nv.....>\n......>\n.......\n..vvv..\n");
    floor.move_east();
    floor.move_south();
    assert_eq!(show(&floor), "..vv>..\n.......\n>......\nv.....>\n>......\n.......\n....v..\n");
}

#[test]
fn blocked_herd_does_not_move() {
    let mut floor = SeaFloor::parse(">>\nvv\n");
    assert!(!floor.move_east());
    assert!(!floor.move_south());
    assert_eq!(show(&floor), ">>\nvv\n");
}

#[test]
fn single_cell_floor() {
    let mut floor = SeaFloor::parse(">");
    assert!(!floor.move_east());
    assert!(!floor.move_south());
}

#[test]
fn herds_stop_after_58_steps() {
    assert_eq!(steps_until_still(HERDS), 58);
}
