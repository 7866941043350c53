use bsq::{pick_marker, render_world, Square, World, WorldError, FIRST_MARKER_CODE, MARKER};

fn world(text: &str) -> World {
    World::new(String::from(text)).unwrap()
}

#[test]
fn is_square_valid() {
    let world = World::new(String::from("3\n..3\n1..\n...")).unwrap();
    assert_eq!(bsq::is_square_valid(&world, &Square::new((0, 0, 2))), false);
    assert_eq!(bsq::is_square_valid(&world, &Square::new((0, 0, 1))), true);
    assert_eq!(bsq::is_square_valid(&world, &Square::new((1, 1, 2))), true);
    assert_eq!(bsq::is_square_valid(&world, &Square::new((1, 0, 1))), false);
    assert_eq!(bsq::is_square_valid(&world, &Square::new((2, 2, 12))), false);
    assert_eq!(bsq::is_square_valid(&world, &Square::new((2, 1, 2))), false);

    let world = World::new(String::from("3\n...\n...\n.o.")).unwrap();
    assert_eq!(bsq::is_square_valid(&world, &Square::new((1, 0, 2))), false);
}

#[test]
fn is_square_enlargment_valid() {
    let world = World::new(String::from("3\n..3\n1..\n...")).unwrap();
    assert_eq!(bsq::is_square_enlargment_valid(&world, &Square::new((0, 0, 1))), false);
    assert_eq!(bsq::is_square_enlargment_valid(&world, &Square::new((1, 1, 1))), true);
    assert_eq!(bsq::is_square_enlargment_valid(&world, &Square::new((1, 1, 2))), false);
    assert_eq!(bsq::is_square_enlargment_valid(&world, &Square::new((2, 2, 12))), false);
    assert_eq!(bsq::is_square_enlargment_valid(&world, &Square::new((2, 1, 2))), false);

    let world = World::new(String::from("3\n...\n...\n.o.")).unwrap();
    assert_eq!(bsq::is_square_enlargment_valid(&world, &Square::new((0, 1, 1))), true);
}

#[test]
fn get_max_size_from_coords() {
    let world = World::new(String::from("3\n..3\n1..\n...")).unwrap();
    assert_eq!(bsq::get_max_size_from_coords(&world, (0, 0)), 1);
    assert_eq!(bsq::get_max_size_from_coords(&world, (1, 1)), 2);
    assert_eq!(bsq::get_max_size_from_coords(&world, (2, 1)), 1);
}

#[test]
fn find_biggest_square() {
    let world = World::new(String::from("3\n..3\n1..\n...")).unwrap();
    assert_eq!(bsq::find_biggest_square(&world), Some(Square::new((1, 1, 2))));

    let world = World::new(String::from("3\n...\n...\n...")).unwrap();
    assert_eq!(bsq::find_biggest_square(&world), Some(Square::new((0, 0, 3))));

    let world = World::new(String::from("5\n.....\n.....\n.....\n.....\n.....\n")).unwrap();
    assert_eq!(bsq::find_biggest_square(&world), Some(Square::new((0, 0, 5))));
}

#[test]
fn square_new_orders_row_column_size() {
    let s = Square::new((4, 7, 2));
    assert_eq!(s.y, 4);
    assert_eq!(s.x, 7);
    assert_eq!(s.size, 2);
    assert_ne!(s, Square::new((7, 4, 2)));
}

#[test]
fn scenario_mixed_grid() {
    assert_eq!(bsq::find_biggest_square(&world("3\n..3\n1..\n...")), Some(Square::new((1, 1, 2))));
}

#[test]
fn scenario_all_free_three() {
    assert_eq!(bsq::find_biggest_square(&world("3\n...\n...\n...")), Some(Square::new((0, 0, 3))));
}

#[test]
fn scenario_all_free_five() {
    let w = world("5\n.....\n.....\n.....\n.....\n.....\n");
    assert_eq!(bsq::find_biggest_square(&w), Some(Square::new((0, 0, 5))));
}

#[test]
fn scenario_no_free_cell() {
    assert_eq!(bsq::find_biggest_square(&world("3\n123\n456\n789")), None);
}

#[test]
fn scenario_ragged_row_is_rejected() {
    let r = World::new(String::from("3\n...\n..\n..."));
    assert_eq!(r.err(), Some(WorldError::RowLengthMismatch(1)));
}

#[test]
fn first_ragged_row_is_reported() {
    let r = World::new(String::from("4\n...\n...\n....\n."));
    assert_eq!(r.err(), Some(WorldError::RowLengthMismatch(2)));
}

#[test]
fn ragged_row_wins_over_wrong_count() {
    let r = World::new(String::from("7\n...\n."));
    assert_eq!(r.err(), Some(WorldError::RowLengthMismatch(1)));
}

#[test]
fn empty_text_has_no_count() {
    assert_eq!(World::new(String::new()).err(), Some(WorldError::MissingLineCount));
}

#[test]
fn non_numeric_count_is_rejected() {
    let r = World::new(String::from("three\n...\n...\n..."));
    assert_eq!(r.err(), Some(WorldError::MissingLineCount));
    let r = World::new(String::from("\n..."));
    assert_eq!(r.err(), Some(WorldError::MissingLineCount));
}

#[test]
fn oversized_count_is_rejected() {
    let r = World::new(String::from("999999999999999999999999999\n."));
    assert_eq!(r.err(), Some(WorldError::MissingLineCount));
}

#[test]
fn row_count_mismatch_reports_found_and_expected() {
    let r = World::new(String::from("4\n...\n...\n..."));
    assert_eq!(r.err(), Some(WorldError::RowCountMismatch(3, 4)));
    let r = World::new(String::from("1\n..\n..\n"));
    assert_eq!(r.err(), Some(WorldError::RowCountMismatch(2, 1)));
}

#[test]
fn dimensions_follow_the_text() {
    let w = world("2\n....\n.o..\n");
    assert_eq!(w.height(), 2);
    assert_eq!(w.width(), 4);
    let w = world("12\n.\n.\n.\n.\n.\n.\n.\n.\n.\n.\n.\n.");
    assert_eq!(w.height(), 12);
    assert_eq!(w.width(), 1);
}

#[test]
fn carriage_returns_end_lines() {
    let w = world("2\r\n..\r\n..\r\n");
    assert_eq!(w.width(), 2);
    assert_eq!(bsq::find_biggest_square(&w), Some(Square::new((0, 0, 2))));
}

#[test]
fn empty_grid_has_no_square() {
    let w = world("0\n");
    assert_eq!(w.height(), 0);
    assert_eq!(w.width(), 0);
    assert_eq!(bsq::find_biggest_square(&w), None);
}

#[test]
fn rows_without_cells_have_no_square() {
    let w = world("2\n\n\n");
    assert_eq!(w.height(), 2);
    assert_eq!(w.width(), 0);
    assert_eq!(bsq::find_biggest_square(&w), None);
}

#[test]
fn single_free_cell_gives_unit_square() {
    let w = world("3\nooo\noo.\nooo\n");
    assert_eq!(bsq::find_biggest_square(&w), Some(Square::new((1, 2, 1))));
    assert_eq!(bsq::get_max_size_from_coords(&w, (1, 2)), 1);
}

#[test]
fn ties_go_to_the_earliest_corner() {
    let w = world("2\n..o..\n..o..\n");
    assert_eq!(bsq::find_biggest_square(&w), Some(Square::new((0, 0, 2))));
    let w = world("3\no..o\no..o\n.o..\n");
    assert_eq!(bsq::find_biggest_square(&w), Some(Square::new((0, 1, 2))));
    let w = world("3\noooo.\n...o.\no.ooo\n");
    assert_eq!(bsq::find_biggest_square(&w), Some(Square::new((0, 4, 1))));
}

#[test]
fn later_larger_square_wins() {
    let w = world("4\n.o.o.\n..o..\n.....\n.....\n");
    assert_eq!(bsq::find_biggest_square(&w), Some(Square::new((1, 0, 2))));
    let w = world("5\n.o..o.\n......\n......\n......\n......\n");
    assert_eq!(bsq::find_biggest_square(&w), Some(Square::new((1, 0, 4))));
}

#[test]
fn found_square_is_maximal_by_brute_force() {
    let grids = [
        "3\n..3\n1..\n...",
        "4\n.o...\n..o..\n.....\n.....\n",
        "5\n.o....\n......\n......\n......\n...o..\n",
        "4\n....o\n.....\n.o...\n.....\n",
        "3\nooo\noo.\nooo\n",
    ];
    for text in grids {
        let w = world(text);
        let found = bsq::find_biggest_square(&w).unwrap();
        assert!(bsq::is_square_valid(&w, &found));
        for r in 0..w.height() {
            for c in 0..w.width() {
                for k in 1..=w.height().max(w.width()) {
                    let s = Square::new((r, c, k));
                    if bsq::is_square_valid(&w, &s) {
                        assert!(k <= found.size);
                        if k == found.size {
                            assert!((found.y, found.x) <= (r, c));
                        }
                    }
                }
            }
        }
    }
}

#[test]
fn brute_force_agrees_with_corner_growth() {
    let w = world("4\n....o\n.....\n.o...\n.....\n");
    for r in 0..w.height() {
        for c in 0..w.width() {
            if bsq::is_square_valid(&w, &Square::new((r, c, 1))) {
                let m = bsq::get_max_size_from_coords(&w, (r, c));
                assert!(bsq::is_square_valid(&w, &Square::new((r, c, m))));
                assert!(!bsq::is_square_valid(&w, &Square::new((r, c, m + 1))));
                assert!(bsq::is_square_enlargment_valid(&w, &Square::new((r, c, m - 1))));
                assert!(!bsq::is_square_enlargment_valid(&w, &Square::new((r, c, m))));
            }
        }
    }
}

#[test]
fn enlargement_checks_only_the_new_border() {
    let w = world("3\n.o.\n...\n...\n");
    assert!(!bsq::is_square_valid(&w, &Square::new((0, 0, 2))));
    assert!(bsq::is_square_enlargment_valid(&w, &Square::new((0, 0, 2))));
    assert!(bsq::is_square_enlargment_valid(&w, &Square::new((0, 0, 0))));
}

#[test]
fn zero_sized_square_is_valid_within_bounds() {
    let w = world("2\n..\n..\n");
    assert!(bsq::is_square_valid(&w, &Square::new((2, 2, 0))));
    assert!(!bsq::is_square_valid(&w, &Square::new((3, 0, 0))));
    assert!(!bsq::is_square_valid(&w, &Square::new((usize::MAX, usize::MAX, usize::MAX))));
    assert!(!bsq::is_square_enlargment_valid(&w, &Square::new((usize::MAX, 0, usize::MAX))));
}

#[test]
fn render_marks_the_square() {
    let w = world("3\n..3\n1..\n...");
    let s = bsq::find_biggest_square(&w);
    assert_eq!(render_world(&w, s).unwrap(), "..3\n1xx\n.xx");
    assert_eq!(MARKER, 'x');
}

#[test]
fn render_keeps_the_last_line_break() {
    let w = world("2\n...\n...\n");
    assert_eq!(render_world(&w, bsq::find_biggest_square(&w)).unwrap(), "xx.\nxx.\n");
}

#[test]
fn render_without_square_is_unchanged() {
    let w = world("3\n123\n456\n789\n");
    assert_eq!(render_world(&w, bsq::find_biggest_square(&w)).unwrap(), "123\n456\n789\n");
    let w = world("0\n");
    assert_eq!(render_world(&w, None).unwrap(), "");
}

#[test]
fn render_ignores_cells_outside_the_grid() {
    let w = world("2\n..\n..");
    assert_eq!(render_world(&w, Some(Square::new((1, 1, 5)))).unwrap(), "..\n.x");
}

#[test]
fn render_keeps_windows_line_breaks() {
    let w = world("1\r\no\r\n");
    assert_eq!(render_world(&w, None).unwrap(), "o\r\n");
    let w = world("1\r\n.\r\n");
    assert_eq!(render_world(&w, bsq::find_biggest_square(&w)).unwrap(), "x\r\n");
    let w = world("2\r\n..\n..");
    assert_eq!(render_world(&w, bsq::find_biggest_square(&w)).unwrap(), "xx\nxx");
}

#[test]
fn render_without_square_gives_back_the_grid_text() {
    let body = "a.b\r\n...\n.c.\r\n";
    let w = World::new(format!("3\n{}", body)).unwrap();
    assert_eq!(render_world(&w, None).unwrap(), body);
}

#[test]
fn marker_is_x_when_no_cell_holds_it() {
    assert_eq!(pick_marker(&world("2\n.o\n..")), Some('x'));
    assert_eq!(MARKER, 'x');
}

#[test]
fn marker_avoids_occupied_cells() {
    let w = world("1\n.x");
    assert_eq!(FIRST_MARKER_CODE, 0x21);
    assert_eq!(pick_marker(&w), Some('!'));
    assert_eq!(render_world(&w, Some(Square::new((0, 0, 1)))).unwrap(), "!x");
    let w = world("1\n.x!\"#");
    assert_eq!(pick_marker(&w), Some('$'));
    assert_eq!(render_world(&w, bsq::find_biggest_square(&w)).unwrap(), "$x!\"#");
}
